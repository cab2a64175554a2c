use basic_desktop_calculator::calculator::{CalculatorApp, Handled, MessageEmit};
use basic_desktop_calculator::operations::{parse_whole_expression, Expr, Operation};

fn value_of(tree: &Expr) -> f64 {
    match tree {
        Expr::Number(text) => text.parse().unwrap(),
        Expr::Group(inner) => value_of(inner),
        Expr::Binary(Operation::Add, left, right) => value_of(left) + value_of(right),
        Expr::Binary(Operation::Subtract, left, right) => value_of(left) - value_of(right),
        Expr::Binary(Operation::Multiply, left, right) => value_of(left) * value_of(right),
        Expr::Binary(Operation::Divide, left, right) => value_of(left) / value_of(right),
    }
}

fn started() -> CalculatorApp {
    let mut calculator = CalculatorApp::new();
    calculator.init_gui();
    calculator
}

fn press(calculator: &mut CalculatorApp, msg: MessageEmit) {
    match calculator.handle_message(msg) {
        Handled::Shown => {}
        Handled::Evaluate(tree) => calculator.show(value_of(&tree).to_string()),
        Handled::Malformed => panic!("the expression cannot be evaluated"),
    }
}

fn messages(keys: &str) -> Vec<MessageEmit> {
    keys.chars()
        .map(|key| match key {
            '0'..='9' => MessageEmit::Number(key as u32 - '0' as u32),
            'x' | '+' | '-' | '/' => MessageEmit::Operator(key),
            '(' | ')' => MessageEmit::Parentheses(key),
            '.' => MessageEmit::Dot,
            '=' => MessageEmit::Equal,
            'C' => MessageEmit::Clear,
            'd' => MessageEmit::Delete,
            _ => unreachable!(),
        })
        .collect()
}

fn typed(keys: &str) -> CalculatorApp {
    let mut calculator = started();
    let mut rest = messages(keys);
    loop {
        let (taken, tree) = calculator.run(&rest);
        match tree {
            Some(tree) => calculator.show(value_of(&tree).to_string()),
            None => break,
        }
        rest = rest.split_off(taken);
    }
    calculator
}

#[test]
fn run_handles_the_messages_in_order() {
    let mut calculator = started();
    let (taken, tree) = calculator.run(&messages("10+5"));
    assert_eq!(taken, 4);
    assert!(tree.is_none());
    assert_eq!(calculator.result_output, "10 + 5 ");
    assert_eq!(calculator.memory_output, "");

    let mut one_by_one = started();
    for msg in messages("10+5") {
        press(&mut one_by_one, msg);
    }
    assert_eq!(one_by_one.result_output, calculator.result_output);
}

#[test]
fn run_stops_where_a_value_is_to_be_computed() {
    let mut calculator = started();
    let events = messages("2+3=x4");
    let (taken, tree) = calculator.run(&events);
    assert_eq!(taken, 4);
    assert_eq!(value_of(&tree.unwrap()), 5.0);
    assert_eq!(calculator.result_output, "2 + 3 ");
    assert_eq!(calculator.memory_output, "2 + 3 =  ");

    calculator.show(String::from("5"));
    let rest: Vec<MessageEmit> = events[taken..].to_vec();
    let (taken, tree) = calculator.run(&rest);
    assert_eq!(taken, 2);
    assert!(tree.is_none());
    assert_eq!(calculator.result_output, "5 x 4 ");
}

#[test]
fn run_goes_on_after_an_equal_that_cannot_be_evaluated() {
    let mut calculator = started();
    let (taken, tree) = calculator.run(&messages("(=7"));
    assert_eq!(taken, 3);
    assert!(tree.is_none());
    assert_eq!(calculator.result_output, " (7 ");
    assert_eq!(calculator.memory_output, "");
}

#[test]
fn run_of_no_message_changes_nothing() {
    let mut calculator = started();
    let (taken, tree) = calculator.run(&Vec::new());
    assert_eq!(taken, 0);
    assert!(tree.is_none());
    assert_eq!(calculator.result_output, "0 ");
}

#[test]
fn digits_and_an_operator_make_a_sum() {
    let mut calculator = started();
    press(&mut calculator, MessageEmit::Number(1));
    press(&mut calculator, MessageEmit::Number(0));
    press(&mut calculator, MessageEmit::Operator('+'));
    press(&mut calculator, MessageEmit::Number(5));
    assert_eq!(calculator.get_trimmed_output(), "10+5");
    assert_eq!(calculator.result_output, "10 + 5 ");
    assert_eq!(calculator.memory_output, "");
}

#[test]
fn clear_then_equal_shows_zero() {
    let mut calculator = typed("12+3");
    calculator.memory_output = String::from("1 + 1 =  ");
    press(&mut calculator, MessageEmit::Clear);
    assert_eq!(calculator.result_output, "0 ");
    assert_eq!(calculator.memory_output, "");
    press(&mut calculator, MessageEmit::Equal);
    assert_eq!(calculator.get_trimmed_output(), "0");
    assert_eq!(calculator.result_output, "0 ");
    assert_eq!(calculator.memory_output, "0 =  ");
}

#[test]
fn equal_closes_the_open_parenthesis() {
    let mut calculator = typed("(2+3");
    assert_eq!(calculator.get_trimmed_output(), "(2+3");
    match calculator.handle_message(MessageEmit::Equal) {
        Handled::Evaluate(tree) => {
            assert_eq!(value_of(&tree), 5.0);
            assert_eq!(calculator.memory_output, " (2 + 3) =  ");
            assert_eq!(calculator.result_output, " (2 + 3 ");
            calculator.show(value_of(&tree).to_string());
        }
        _ => panic!("the expression is to be evaluated"),
    }
    assert_eq!(calculator.result_output, "5 ");
    assert_eq!(calculator.get_trimmed_output(), "5");
}

#[test]
fn nested_groups_evaluate() {
    let tree = parse_whole_expression("2x(3-2+(2/2))").unwrap();
    assert_eq!(value_of(&tree), 4.0);
    let calculator = typed("2x(3-2+(2/2))=");
    assert_eq!(calculator.result_output, "4 ");
    assert_eq!(calculator.memory_output, "2 x (3 - 2 + (2 / 2) ) =  ");
}

#[test]
fn the_result_is_edited_further() {
    let calculator = typed("2+3=x4=");
    assert_eq!(calculator.result_output, "20 ");
    assert_eq!(calculator.memory_output, "5 x 4 =  ");
    let calculator = typed("1/4=");
    assert_eq!(calculator.result_output, "0.25 ");
    let calculator = typed("1/4=5");
    assert_eq!(calculator.get_trimmed_output(), "0.255");
}

#[test]
fn equal_trims_what_cannot_end_an_expression() {
    let calculator = typed("12+=");
    assert_eq!(calculator.result_output, "12 ");
    assert_eq!(calculator.memory_output, "12 =  ");
    let calculator = typed("7x(=");
    assert_eq!(calculator.result_output, "7 ");
    let calculator = typed("7.=");
    assert_eq!(calculator.result_output, "7 ");
    assert_eq!(calculator.memory_output, "7 =  ");
}

#[test]
fn division_by_zero_is_shown_as_the_arithmetic_renders_it() {
    let calculator = typed("1/0=");
    assert_eq!(calculator.result_output, "inf ");
    assert_eq!(calculator.memory_output, "1 / 0 =  ");
    let calculator = typed("0/0=");
    assert_eq!(calculator.result_output, "NaN ");
}

#[test]
fn an_expression_that_cannot_be_evaluated_changes_nothing() {
    let mut calculator = typed("(");
    assert_eq!(calculator.result_output, " ( ");
    calculator.memory_output = String::from("1 + 1 =  ");
    assert!(matches!(calculator.handle_message(MessageEmit::Equal), Handled::Malformed));
    assert_eq!(calculator.result_output, " ( ");
    assert_eq!(calculator.memory_output, "1 + 1 =  ");

    let mut calculator = typed("1-2=");
    assert_eq!(calculator.result_output, " - 1 ");
    assert!(matches!(calculator.handle_message(MessageEmit::Equal), Handled::Malformed));
    assert_eq!(calculator.result_output, " - 1 ");
}

#[test]
fn what_the_formatter_writes_in_is_part_of_the_expression() {
    let calculator = typed("2(3");
    assert_eq!(calculator.result_output, "2 x (3 ");
    assert_eq!(calculator.get_trimmed_output(), "2x(3");
    let calculator = typed("2(3=");
    assert_eq!(calculator.result_output, "6 ");
    assert_eq!(calculator.memory_output, "2 x (3) =  ");
    let calculator = typed("1+.5=");
    assert_eq!(calculator.result_output, "1.5 ");
    assert_eq!(calculator.memory_output, "1 + 0.5 =  ");
    let calculator = typed("()");
    assert_eq!(calculator.get_trimmed_output(), "(1)");
}

#[test]
fn digits_typed_from_zero_make_their_number() {
    let cases: Vec<(&str, &str, f64)> = vec![
        ("7", "7", 7.0),
        ("0", "0", 0.0),
        ("000", "0", 0.0),
        ("0042", "42", 42.0),
        ("1234567", "1234567", 1234567.0),
        ("9007199254740992", "9007199254740992", 9007199254740992.0),
    ];
    for (keys, raw, value) in cases {
        let calculator = typed(keys);
        assert_eq!(calculator.get_trimmed_output(), raw);
        let tree = parse_whole_expression(raw).unwrap();
        assert!(matches!(&tree, Expr::Number(text) if text == raw));
        assert_eq!(value_of(&tree), value);
        assert_eq!(value_of(&tree), keys.parse::<f64>().unwrap());
    }
}

#[test]
fn digits_typed_into_a_full_expression_are_lost() {
    let keys = "1".repeat(100);
    let calculator = typed(&keys);
    assert_eq!(calculator.get_trimmed_output(), keys);
    let mut more = keys.clone();
    more.push('2');
    let calculator = typed(&more);
    assert_eq!(calculator.get_trimmed_output(), keys);
}

#[test]
fn the_expression_is_never_empty() {
    let keys = "d(d)d1d.dd+d(((ddd)))C=d12+3=ddd1/0=dddd()d.5x=";
    let mut calculator = started();
    assert_eq!(calculator.get_trimmed_output(), "0");
    for key in keys.chars() {
        let msg = match key {
            '0'..='9' => MessageEmit::Number(key as u32 - '0' as u32),
            'x' | '+' | '-' | '/' => MessageEmit::Operator(key),
            '(' | ')' => MessageEmit::Parentheses(key),
            '.' => MessageEmit::Dot,
            '=' => MessageEmit::Equal,
            'C' => MessageEmit::Clear,
            _ => MessageEmit::Delete,
        };
        match calculator.handle_message(msg) {
            Handled::Shown => {}
            Handled::Evaluate(tree) => calculator.show(value_of(&tree).to_string()),
            Handled::Malformed => {}
        }
        let raw = calculator.get_trimmed_output();
        assert!(!raw.is_empty(), "empty after {key}");
        assert!(!raw.contains(' '));
    }
}

#[test]
fn zero_stands_for_no_input() {
    assert_eq!(started().get_trimmed_output(), "0");
    assert_eq!(typed("5d").get_trimmed_output(), "0");
    assert_eq!(typed("12+3C").get_trimmed_output(), "0");
    assert_eq!(typed("(d").get_trimmed_output(), "0");
    assert_eq!(typed("0").get_trimmed_output(), "0");
    assert_eq!(typed("00").get_trimmed_output(), "0");
}

#[test]
fn handle_message_equal_hands_out_the_tree() {
    let mut calculator = started();
    let tree = calculator.handle_message_equal(String::from("1+2x3")).unwrap();
    assert_eq!(value_of(&tree), 7.0);
    assert_eq!(calculator.memory_output, "1 + 2 x 3 =  ");
    assert_eq!(calculator.result_output, "0 ");
    assert!(calculator.handle_message_equal(String::from("1(15")).is_none());
    assert_eq!(calculator.memory_output, "1 + 2 x 3 =  ");
}

#[test]
fn show_formats_what_it_is_given() {
    let mut calculator = started();
    calculator.show(String::from("1234.5"));
    assert_eq!(calculator.result_output, "1 234.5 ");
    calculator.show(String::from("-0.5"));
    assert_eq!(calculator.result_output, " - 0.5 ");
}
