//! The calculator's state and the events that change it.

use vstd::prelude::*;
use vstd::string::{StrSliceExecFns, StringExecFns};
use vstd::utf8::is_ascii_chars;
use crate::button::{is_button_char, MyButton};
use crate::display::{formatted, lemma_formatted_ascii, lemma_formatted_zero, lemma_replaced_ascii};
use crate::editing::{
    cleared, closed_expression, deleted, dot_entered, number_entered, operator_entered,
    parentheses_entered,
};
use crate::grammar::{is_expression, lemma_rendered_ascii, rendered};
use crate::operations::{parse_whole_expression, whole_expression, Expr};
use crate::spacing::{
    lemma_formatted_keeps, lemma_without_spaces_holds_none, lemma_without_spaces_same, no_space,
    without_spaces,
};
use crate::text::{is_operator, replace};

pub mod settings;

verus! {

/// What a button sends when it is pressed.
#[derive(Debug, Clone, Copy, PartialEq, Eq, Structural)]
pub enum MessageEmit {
    Number(u32),
    Operator(char),
    Equal,
    Clear,
    Delete,
    Dot,
    Parentheses(char),
}

/// The calculator: its buttons and the text of its two output lines.
pub struct CalculatorApp {
    pub buttons: Vec<MyButton>,
    /// The line that shows the expression being typed, or the last result.
    pub result_output: String,
    /// The line that shows the last expression evaluated.
    pub memory_output: String,
}

/// What is left to do once a message has been handled.
#[derive(Debug)]
pub enum Handled {
    /// Nothing: the result line shows the new expression.
    Shown,
    /// The expression stands closed in the memory line. Its value is to be
    /// computed from the tree and handed to [`CalculatorApp::show`].
    Evaluate(Expr),
    /// The expression cannot be evaluated, and nothing has changed.
    Malformed,
}

/// The buttons, row by row.
pub open spec fn button_sequence() -> Seq<char> {
    "()Cd789/456x123-.0=+"@
}

/// Where the button with the given place in [`button_sequence`] stands: four
/// to a row, below the output lines.
pub open spec fn button_position(index: int) -> (i32, i32) {
    (
        ((index % 4) * settings::BUTTON_WIDTH) as i32,
        ((index / 4) * settings::BUTTON_HEIGHT + settings::RESULT_SCREEN_HEIGHT) as i32,
    )
}

/// The twenty buttons of the button sequence, each in its place.
pub open spec fn is_layout(made: Seq<MyButton>) -> bool {
    &&& made.len() == 20
    &&& forall|i: int|
        0 <= i < 20 ==> (#[trigger] made[i]).is_button(button_sequence()[i], button_position(i))
}

/// The expression that an output line shows: its text without the spaces.
pub open spec fn trimmed_output(label: Seq<char>) -> Seq<char> {
    without_spaces(label)
}

/// The messages that the buttons send: a digit, one of the four operators,
/// one of the two parentheses, or a key without a character.
pub open spec fn is_event(msg: MessageEmit) -> bool {
    match msg {
        MessageEmit::Number(num) => num <= 9,
        MessageEmit::Operator(op) => is_operator(op),
        MessageEmit::Parentheses(par) => par == '(' || par == ')',
        _ => true,
    }
}

/// The expression after one message. `Equal` makes it ready for evaluation.
pub open spec fn edited(raw: Seq<char>, msg: MessageEmit) -> Seq<char> {
    match msg {
        MessageEmit::Number(num) => number_entered(raw, num),
        MessageEmit::Operator(op) => operator_entered(raw, op),
        MessageEmit::Dot => dot_entered(raw),
        MessageEmit::Parentheses(par) => parentheses_entered(raw, par),
        MessageEmit::Delete => deleted(raw),
        MessageEmit::Clear => cleared(),
        MessageEmit::Equal => closed_expression(raw),
    }
}

/// A `Number` message holds one digit.
pub open spec fn holds_digit(msg: MessageEmit) -> bool {
    msg matches MessageEmit::Number(num) ==> num <= 9
}

/// The message leaves a value to compute: it is `Equal`, and the result line
/// shows what is one expression once it is closed.
pub open spec fn evaluates(line: Seq<char>, msg: MessageEmit) -> bool {
    msg == MessageEmit::Equal && whole_expression(closed_expression(trimmed_output(line)))
        is Some
}

/// The result line and the memory line after one message. `Equal` leaves the
/// result line as it is, and writes the closed expression into the memory
/// line where it is one expression; `Clear` shows `0` and empties the
/// memory line; any other message shows the edited expression.
pub open spec fn lines_after(line: Seq<char>, memory: Seq<char>, msg: MessageEmit) -> (
    Seq<char>,
    Seq<char>,
) {
    let raw = trimmed_output(line);
    match msg {
        MessageEmit::Equal => if evaluates(line, msg) {
            (line, formatted(closed_expression(raw)) + seq!['=', ' ', ' '])
        } else {
            (line, memory)
        },
        MessageEmit::Clear => (formatted(cleared()), Seq::empty()),
        _ => (formatted(edited(raw, msg)), memory),
    }
}

/// The result line and the memory line after the messages, one after the
/// other.
pub open spec fn lines_after_all(
    line: Seq<char>,
    memory: Seq<char>,
    events: Seq<MessageEmit>,
) -> (Seq<char>, Seq<char>)
    decreases events.len(),
{
    if events.len() == 0 {
        (line, memory)
    } else {
        let before = lines_after_all(line, memory, events.drop_last());
        lines_after(before.0, before.1, events.last())
    }
}

/// Every one of the messages is a message of the buttons.
pub open spec fn all_events(events: Seq<MessageEmit>) -> bool {
    forall|i: int| 0 <= i < events.len() ==> is_event(#[trigger] events[i])
}

/// None of the first `upto` messages leaves a value to compute.
pub open spec fn none_evaluates(
    line: Seq<char>,
    memory: Seq<char>,
    events: Seq<MessageEmit>,
    upto: int,
) -> bool {
    forall|i: int|
        0 <= i < upto ==> !evaluates(
            lines_after_all(line, memory, #[trigger] events.take(i)).0,
            events[i],
        )
}

/// A message of the buttons, but for `Equal`, leaves an expression of ASCII
/// characters one.
pub proof fn lemma_edited_ascii(raw: Seq<char>, msg: MessageEmit)
    requires
        is_ascii_chars(raw),
        is_event(msg),
        msg != MessageEmit::Equal,
    ensures
        is_ascii_chars(edited(raw, msg)),
{
}

/// A message of the buttons, but for `Equal`, leaves an expression that is not
/// empty as it found it: not empty, without spaces, in ASCII characters.
pub proof fn lemma_edited_fits(raw: Seq<char>, msg: MessageEmit)
    requires
        raw.len() > 0,
        no_space(raw),
        is_ascii_chars(raw),
        is_event(msg),
        msg != MessageEmit::Equal,
    ensures
        edited(raw, msg).len() > 0,
        no_space(edited(raw, msg)),
        is_ascii_chars(edited(raw, msg)),
{
}

/// Every character of the button sequence names a button.
pub proof fn lemma_button_sequence()
    ensures
        button_sequence().len() == 20,
        forall|i: int| 0 <= i < 20 ==> is_button_char(#[trigger] button_sequence()[i]),
{
    reveal_strlit("()Cd789/456x123-.0=+");
}

impl CalculatorApp {
    /// The result line shows the expression `raw`, as far as its text is
    /// stated: that of an expression of ASCII characters.
    pub open spec fn shows(&self, raw: Seq<char>) -> bool {
        is_ascii_chars(raw) ==> self.result_output@ == formatted(raw)
    }

    /// The result line shows an expression: ASCII text that holds at least
    /// one character besides spaces.
    pub open spec fn shows_expression(&self) -> bool {
        is_ascii_chars(self.result_output@) && trimmed_output(self.result_output@).len() > 0
    }

    /// The memory line shows the expression `closed` as the one evaluated.
    pub open spec fn remembers(&self, closed: Seq<char>) -> bool {
        self.memory_output@ == formatted(closed) + seq!['=', ' ', ' ']
    }

    /// After the buttons that were there, the buttons are the twenty of the
    /// button sequence, each in its place.
    pub open spec fn has_buttons_after(&self, before: Seq<MyButton>) -> bool {
        &&& self.buttons@.take(before.len() as int) == before
        &&& is_layout(self.buttons@.skip(before.len() as int))
    }

    /// A calculator without buttons, its two lines empty.
    pub fn new() -> (app: CalculatorApp)
        ensures
            app.buttons@.len() == 0,
            app.result_output@.len() == 0,
            app.memory_output@.len() == 0,
    {
        CalculatorApp {
            buttons: Vec::new(),
            result_output: String::new(),
            memory_output: String::new(),
        }
    }

    /// Sets up the output lines and the buttons.
    pub fn init_gui(&mut self)
        ensures
            final(self).result_output@ == seq!['0', ' '],
            final(self).shows_expression(),
            final(self).memory_output == old(self).memory_output,
            final(self).has_buttons_after(old(self).buttons@),
    {
        self.init_outputs();
        self.init_buttons();
    }

    /// The result line shows `0`.
    pub fn init_outputs(&mut self)
        ensures
            final(self).result_output@ == seq!['0', ' '],
            final(self).shows(cleared()),
            final(self).shows_expression(),
            final(self).memory_output == old(self).memory_output,
            final(self).buttons == old(self).buttons,
    {
        proof {
            reveal_strlit("0 ");
        }
        self.result_output = String::from_str("0 ");
        assert(self.result_output@ =~= seq!['0', ' ']);
        proof {
            lemma_formatted_zero();
            lemma_formatted_keeps(cleared());
            lemma_without_spaces_same(cleared());
        }
    }

    /// Makes the twenty buttons, five rows of four, after the buttons that
    /// are there.
    pub fn init_buttons(&mut self)
        ensures
            final(self).has_buttons_after(old(self).buttons@),
            final(self).result_output == old(self).result_output,
            final(self).memory_output == old(self).memory_output,
    {
        let sequence = "()Cd789/456x123-.0=+";
        let mut index: usize = 0;
        let step_x: i32 = settings::WINDOW_WIDTH / 4;
        let step_y: i32 = settings::BUTTON_HEIGHT;
        let offset_y: i32 = settings::WINDOW_HEIGHT - (settings::BUTTON_HEIGHT * 5);
        let ghost before = self.buttons@;
        let ghost n = before.len() as int;
        proof {
            lemma_button_sequence();
            assert(self.buttons@.take(n) == before);
        }
        let mut y: i32 = 0;
        while y < 5
            invariant
                0 <= y <= 5,
                index == 4 * y,
                step_x == settings::BUTTON_WIDTH,
                step_y == settings::BUTTON_HEIGHT,
                offset_y == settings::RESULT_SCREEN_HEIGHT,
                sequence@ == button_sequence(),
                button_sequence().len() == 20,
                forall|i: int| 0 <= i < 20 ==> is_button_char(#[trigger] button_sequence()[i]),
                n == before.len(),
                self.buttons@.len() == n + index,
                self.buttons@.take(n) == before,
                self.result_output == old(self).result_output,
                self.memory_output == old(self).memory_output,
                forall|i: int|
                    0 <= i < index ==> (#[trigger] self.buttons@.skip(n)[i]).is_button(
                        button_sequence()[i],
                        button_position(i),
                    ),
            decreases 5 - y,
        {
            let mut x: i32 = 0;
            while x < 4
                invariant
                    0 <= x <= 4,
                    0 <= y < 5,
                    index == 4 * y + x,
                    step_x == settings::BUTTON_WIDTH,
                    step_y == settings::BUTTON_HEIGHT,
                    offset_y == settings::RESULT_SCREEN_HEIGHT,
                    sequence@ == button_sequence(),
                    button_sequence().len() == 20,
                    forall|i: int| 0 <= i < 20 ==> is_button_char(#[trigger] button_sequence()[i]),
                    n == before.len(),
                    self.buttons@.len() == n + index,
                    self.buttons@.take(n) == before,
                    self.result_output == old(self).result_output,
                    self.memory_output == old(self).memory_output,
                    forall|i: int|
                        0 <= i < index ==> (#[trigger] self.buttons@.skip(n)[i]).is_button(
                            button_sequence()[i],
                            button_position(i),
                        ),
                decreases 4 - x,
            {
                let pos_x = x * step_x;
                let pos_y = y * step_y + offset_y;
                let character = sequence.get_char(index);
                let ghost made = self.buttons@;
                self.buttons.push(MyButton::new(character, (pos_x, pos_y)));
                proof {
                    assert(self.buttons@.take(n) == made.take(n));
                    assert forall|i: int| 0 <= i < index + 1 implies (#[trigger] self.buttons@.skip(
                        n,
                    )[i]).is_button(button_sequence()[i], button_position(i)) by {
                        if i < index {
                            assert(self.buttons@.skip(n)[i] == made.skip(n)[i]);
                        }
                    }
                }
                index += 1;
                x += 1;
            }
            y += 1;
        }
    }

    /// The expression that the result line shows: its text without the
    /// spaces.
    pub fn get_trimmed_output(&self) -> (raw: String)
        ensures
            raw@ == trimmed_output(self.result_output@),
    {
        proof {
            reveal_strlit(" ");
            reveal_strlit("");
        }
        let raw = replace(self.result_output.as_str(), " ", "");
        assert(" "@ =~= seq![' '] && ""@ =~= Seq::<char>::empty());
        raw
    }

    /// Closes the expression `output` and parses it. Where it is one
    /// expression, the memory line shows it, and its tree is handed out for
    /// evaluation. Where it is not, nothing changes.
    pub fn handle_message_equal(&mut self, output: String) -> (tree: Option<Expr>)
        ensures
            final(self).result_output == old(self).result_output,
            final(self).buttons == old(self).buttons,
            match tree {
                Some(tree) => {
                    &&& whole_expression(closed_expression(output@)) == Some(tree@)
                    &&& is_expression(tree@)
                    &&& rendered(tree@) == closed_expression(output@)
                    &&& final(self).remembers(closed_expression(output@))
                },
                None => {
                    &&& whole_expression(closed_expression(output@)) is None
                    &&& final(self).memory_output == old(self).memory_output
                },
            },
    {
        let closed = self.close_expression(output);
        match parse_whole_expression(closed.as_str()) {
            Some(tree) => {
                proof {
                    reveal_strlit("=  ");
                    lemma_rendered_ascii(tree@);
                }
                let mut memory = self.format_result_output(closed);
                memory.append("=  ");
                assert("=  "@ =~= seq!['=', ' ', ' ']);
                self.memory_output = memory;
                Some(tree)
            },
            None => None,
        }
    }

    /// Shows the expression `raw` in the result line.
    pub fn show(&mut self, raw: String)
        ensures
            final(self).shows(raw@),
            is_ascii_chars(raw@) && without_spaces(raw@).len() > 0
                ==> final(self).shows_expression(),
            final(self).memory_output == old(self).memory_output,
            final(self).buttons == old(self).buttons,
    {
        proof {
            if is_ascii_chars(raw@) {
                lemma_formatted_ascii(raw@);
                lemma_formatted_keeps(raw@);
            }
        }
        self.result_output = self.format_result_output(raw);
    }

    /// Handles one message: the expression that the result line shows is
    /// edited as the message asks, and shown again. After `Equal` the value
    /// of the closed expression is still to be computed and shown.
    pub fn handle_message(&mut self, msg: MessageEmit) -> (handled: Handled)
        requires
            holds_digit(msg),
        ensures
            final(self).buttons == old(self).buttons,
            is_ascii_chars(old(self).result_output@) && is_event(msg) ==> {
                &&& (final(self).result_output@, final(self).memory_output@) == lines_after(
                    old(self).result_output@,
                    old(self).memory_output@,
                    msg,
                )
                &&& is_ascii_chars(final(self).result_output@)
            },
            handled is Evaluate <==> evaluates(old(self).result_output@, msg),
            msg == MessageEmit::Delete && trimmed_output(old(self).result_output@).len() <= 1
                ==> final(self).result_output@ == seq!['0', ' '],
            msg != MessageEmit::Equal ==> {
                &&& handled is Shown
                &&& final(self).shows(edited(trimmed_output(old(self).result_output@), msg))
            },
            msg != MessageEmit::Equal && msg != MessageEmit::Clear ==> final(self).memory_output
                == old(self).memory_output,
            msg == MessageEmit::Clear ==> {
                &&& final(self).memory_output@ == Seq::<char>::empty()
                &&& final(self).result_output@ == seq!['0', ' ']
            },
            is_event(msg) && old(self).shows_expression() ==> final(self).shows_expression(),
            msg == MessageEmit::Equal ==> {
                let closed = edited(trimmed_output(old(self).result_output@), msg);
                &&& final(self).result_output == old(self).result_output
                &&& match handled {
                    Handled::Evaluate(tree) => {
                        &&& whole_expression(closed) == Some(tree@)
                        &&& is_expression(tree@)
                        &&& rendered(tree@) == closed
                        &&& final(self).remembers(closed)
                    },
                    Handled::Malformed => {
                        &&& whole_expression(closed) is None
                        &&& final(self).memory_output == old(self).memory_output
                    },
                    Handled::Shown => false,
                }
            },
    {
        let output = self.get_trimmed_output();
        let output = match msg {
            MessageEmit::Number(num) => self.handle_message_number(output, num),
            MessageEmit::Clear => self.handle_message_clear(),
            MessageEmit::Delete => self.handle_message_delete(output),
            MessageEmit::Dot => self.handle_message_dot(output),
            MessageEmit::Operator(op) => self.handle_message_operator(output, op),
            MessageEmit::Parentheses(par) => self.handle_message_parentheses(output, par),
            MessageEmit::Equal => {
                return match self.handle_message_equal(output) {
                    Some(tree) => Handled::Evaluate(tree),
                    None => Handled::Malformed,
                };
            },
        };
        proof {
            let raw = trimmed_output(old(self).result_output@);
            if is_ascii_chars(old(self).result_output@) && is_event(msg) {
                lemma_replaced_ascii(old(self).result_output@, seq![' '], Seq::empty());
                lemma_edited_ascii(raw, msg);
                lemma_formatted_ascii(edited(raw, msg));
            }
            if is_event(msg) && old(self).shows_expression() {
                lemma_replaced_ascii(old(self).result_output@, seq![' '], Seq::empty());
                lemma_without_spaces_holds_none(old(self).result_output@);
                lemma_edited_fits(raw, msg);
                lemma_without_spaces_same(edited(raw, msg));
            }
            lemma_formatted_zero();
        }
        self.show(output);
        Handled::Shown
    }

    /// Handles the messages one after the other, up to and with the first
    /// that leaves a value to compute. The result tells how many messages
    /// were handled; where the last of them left a value to compute, it holds
    /// the tree of the closed expression, whose value goes to
    /// [`CalculatorApp::show`] before the rest of the messages is handled.
    pub fn run(&mut self, events: &Vec<MessageEmit>) -> (stopped: (usize, Option<Expr>))
        requires
            forall|i: int| 0 <= i < events@.len() ==> holds_digit(#[trigger] events@[i]),
        ensures
            final(self).buttons == old(self).buttons,
            stopped.0 <= events@.len(),
            stopped.1 is None ==> stopped.0 == events@.len(),
            stopped.1 matches Some(tree) ==> {
                &&& stopped.0 >= 1
                &&& evaluates(final(self).result_output@, events@[stopped.0 - 1])
                &&& is_expression(tree@)
                &&& rendered(tree@) == closed_expression(
                    trimmed_output(final(self).result_output@),
                )
                &&& final(self).remembers(rendered(tree@))
            },
            is_ascii_chars(old(self).result_output@) && all_events(events@.take(stopped.0 as int))
                ==> {
                &&& (final(self).result_output@, final(self).memory_output@) == lines_after_all(
                    old(self).result_output@,
                    old(self).memory_output@,
                    events@.take(stopped.0 as int),
                )
                &&& is_ascii_chars(final(self).result_output@)
                &&& none_evaluates(
                    old(self).result_output@,
                    old(self).memory_output@,
                    events@,
                    if stopped.1 is Some {
                        stopped.0 - 1
                    } else {
                        stopped.0 as int
                    },
                )
            },
            all_events(events@) && old(self).shows_expression() ==> final(self).shows_expression(),
    {
        let ghost line = self.result_output@;
        let ghost memory = self.memory_output@;
        let mut i: usize = 0;
        proof {
            assert(events@.take(0).len() == 0);
        }
        while i < events.len()
            invariant
                i <= events@.len(),
                forall|k: int| 0 <= k < events@.len() ==> holds_digit(#[trigger] events@[k]),
                self.buttons == old(self).buttons,
                line == old(self).result_output@,
                memory == old(self).memory_output@,
                is_ascii_chars(line) && all_events(events@.take(i as int)) ==> {
                    &&& (self.result_output@, self.memory_output@) == lines_after_all(
                        line,
                        memory,
                        events@.take(i as int),
                    )
                    &&& is_ascii_chars(self.result_output@)
                    &&& none_evaluates(line, memory, events@, i as int)
                },
                all_events(events@) && old(self).shows_expression() ==> self.shows_expression(),
            decreases events@.len() - i,
        {
            let msg = events[i];
            let ghost shown = self.result_output@;
            proof {
                let now = events@.take(i + 1);
                assert(now.drop_last() == events@.take(i as int));
                assert(now.last() == msg);
                if all_events(now) {
                    assert forall|k: int| 0 <= k < i implies is_event(
                        #[trigger] events@.take(i as int)[k],
                    ) by {
                        assert(events@.take(i as int)[k] == now[k]);
                    }
                    assert(is_event(now[i as int]));
                }
                if all_events(events@) {
                    assert(is_event(events@[i as int]));
                }
            }
            let handled = self.handle_message(msg);
            proof {
                if is_ascii_chars(line) && all_events(events@.take(i + 1)) {
                    assert forall|k: int| 0 <= k < i implies !evaluates(
                        lines_after_all(line, memory, #[trigger] events@.take(k)).0,
                        events@[k],
                    ) by {}
                }
            }
            match handled {
                Handled::Evaluate(tree) => {
                    return (i + 1, Some(tree));
                },
                _ => {},
            }
            i += 1;
        }
        proof {
            assert(events@.take(i as int) == events@);
        }
        (i, None)
    }
}

} // verus!
