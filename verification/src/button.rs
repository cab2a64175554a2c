//! The buttons of the calculator: what each one shows, which key presses
//! it, and what it sends.

use vstd::prelude::*;
use vstd::string::StringExecFns;
use crate::calculator::MessageEmit;
use crate::text::{is_digit, is_digit_char, is_operator, is_operator_char};

verus! {

/// The key that presses a button from the keyboard.
#[derive(Debug, Clone, Copy, PartialEq, Eq, Structural)]
pub enum ButtonKey {
    Character(char),
    BackSpace,
    Enter,
}

/// One button of the calculator.
#[derive(Debug)]
pub struct MyButton {
    /// The text on the button.
    pub label: String,
    /// Where the button's upper left corner is.
    pub position: (i32, i32),
    /// The key that presses the button.
    pub key: ButtonKey,
    /// What the button sends when pressed.
    pub message: MessageEmit,
}

/// The characters that name a button.
pub open spec fn is_button_char(c: char) -> bool {
    is_digit(c) || is_operator(c) || c == '=' || c == 'C' || c == 'd' || c == '.' || c == '('
        || c == ')'
}

/// The text on the button that `c` names: the character itself, but an arrow
/// on the delete button.
pub open spec fn button_label(c: char) -> Seq<char> {
    if c == 'd' {
        seq!['@', '<', '-']
    } else {
        seq![c]
    }
}

/// The key that presses the button that `c` names.
pub open spec fn button_key(c: char) -> ButtonKey {
    if c == 'd' {
        ButtonKey::BackSpace
    } else if c == '=' {
        ButtonKey::Enter
    } else if c == 'x' {
        ButtonKey::Character('*')
    } else {
        ButtonKey::Character(c)
    }
}

/// What the button that `c` names sends.
pub open spec fn button_message(c: char) -> MessageEmit {
    if is_digit(c) {
        MessageEmit::Number((c as u32 - '0' as u32) as u32)
    } else if is_operator(c) {
        MessageEmit::Operator(c)
    } else if c == '=' {
        MessageEmit::Equal
    } else if c == 'C' {
        MessageEmit::Clear
    } else if c == 'd' {
        MessageEmit::Delete
    } else if c == '.' {
        MessageEmit::Dot
    } else {
        MessageEmit::Parentheses(c)
    }
}

impl MyButton {
    /// This is the button that `c` names, at `position`.
    pub open spec fn is_button(&self, c: char, position: (i32, i32)) -> bool {
        &&& self.label@ == button_label(c)
        &&& self.position == position
        &&& self.key == button_key(c)
        &&& self.message == button_message(c)
    }

    /// The button that `c` names, placed at `position`.
    pub fn new(c: char, position: (i32, i32)) -> (button: MyButton)
        requires
            is_button_char(c),
        ensures
            button.is_button(c, position),
    {
        let label = if c == 'd' {
            proof {
                reveal_strlit("@<-");
            }
            let arrow = String::from_str("@<-");
            assert(arrow@ == seq!['@', '<', '-']);
            arrow
        } else {
            let mut own = String::new();
            own.push(c);
            own
        };
        let key = if c == 'd' {
            ButtonKey::BackSpace
        } else if c == '=' {
            ButtonKey::Enter
        } else if c == 'x' {
            ButtonKey::Character('*')
        } else {
            ButtonKey::Character(c)
        };
        let message = if is_digit_char(c) {
            MessageEmit::Number(c as u32 - '0' as u32)
        } else if is_operator_char(c) {
            MessageEmit::Operator(c)
        } else if c == '=' {
            MessageEmit::Equal
        } else if c == 'C' {
            MessageEmit::Clear
        } else if c == 'd' {
            MessageEmit::Delete
        } else if c == '.' {
            MessageEmit::Dot
        } else {
            MessageEmit::Parentheses(c)
        };
        MyButton { label, position, key, message }
    }
}

} // verus!
