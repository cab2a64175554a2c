use basic_desktop_calculator::calculator::CalculatorApp;
use basic_desktop_calculator::editing::{digit_char, MAX_LENGTH};

fn text(s: &str) -> String {
    String::from(s)
}

#[test]
fn a_digit_takes_the_place_of_a_lone_zero() {
    let calculator = CalculatorApp::new();
    for num in 0..=9u32 {
        let expected = num.to_string();
        assert_eq!(calculator.handle_message_number(text("0"), num), expected);
    }
    assert_eq!(calculator.handle_message_number(text("00"), 7), "007");
    assert_eq!(calculator.handle_message_number(text("("), 7), "(7");
    assert_eq!(calculator.handle_message_number(text(""), 7), "7");
}

#[test]
fn digit_char_is_the_character_of_the_digit() {
    let digits: Vec<char> = (0..=9u32).map(digit_char).collect();
    assert_eq!(digits, vec!['0', '1', '2', '3', '4', '5', '6', '7', '8', '9']);
}

#[test]
fn a_full_expression_takes_no_more_digits() {
    let calculator = CalculatorApp::new();
    assert_eq!(MAX_LENGTH, 100);

    let ninety_eight = "1".repeat(98);
    let ninety_nine = "1".repeat(99);
    let hundred = "1".repeat(100);
    let hundred_one = "1".repeat(101);

    assert_eq!(calculator.handle_message_number(ninety_eight, 1), ninety_nine);
    assert_eq!(calculator.handle_message_number(ninety_nine.clone(), 1), hundred);
    assert_eq!(calculator.handle_message_number(hundred.clone(), 1), hundred);
    assert_eq!(calculator.handle_message_number(hundred.clone(), 5), hundred);
    assert_eq!(calculator.handle_message_number(hundred_one.clone(), 5), hundred_one);
}

#[test]
fn a_full_expression_with_an_operator_takes_no_more_digits() {
    let calculator = CalculatorApp::new();
    let mut full = "1".repeat(99);
    full.push('+');
    assert_eq!(calculator.handle_message_number(full.clone(), 2), full);
    let mut nearly = "1".repeat(98);
    nearly.push('+');
    let mut expected = nearly.clone();
    expected.push('2');
    assert_eq!(calculator.handle_message_number(nearly, 2), expected);
}

#[test]
fn a_full_expression_still_takes_an_operator() {
    let calculator = CalculatorApp::new();
    let full = "1".repeat(100);
    let mut expected = full.clone();
    expected.push('+');
    assert_eq!(calculator.handle_message_operator(full, '+'), expected);
}

#[test]
fn an_operator_follows_a_zero_after_an_opening_parenthesis() {
    let calculator = CalculatorApp::new();
    assert_eq!(calculator.handle_message_operator(text("("), '+'), "(0+");
    assert_eq!(calculator.handle_message_operator(text("2x("), '/'), "2x(0/");
    assert_eq!(calculator.handle_message_operator(text("(2)"), 'x'), "(2)x");
    assert_eq!(calculator.handle_message_operator(text("2x"), '-'), "2-");
}

#[test]
fn the_handlers_leave_an_empty_text_empty() {
    let calculator = CalculatorApp::new();
    assert_eq!(calculator.handle_message_operator(text(""), '+'), "");
    assert_eq!(calculator.handle_message_dot(text("")), "");
    assert_eq!(calculator.handle_message_parentheses(text(""), ')'), "");
    assert_eq!(calculator.handle_message_parentheses(text(""), '('), "(");
    assert_eq!(calculator.handle_message_delete(text("")), "0");
}

#[test]
fn a_point_goes_in_once_for_each_number() {
    let calculator = CalculatorApp::new();
    assert_eq!(calculator.handle_message_dot(text("1.5+2")), "1.5+2.");
    assert_eq!(calculator.handle_message_dot(text("1.5+2.")), "1.5+2.");
    assert_eq!(calculator.handle_message_dot(text("1.5x")), "1.5x.");
    assert_eq!(calculator.handle_message_dot(text("(")), "(.");
    assert_eq!(calculator.handle_message_dot(text("1.5(2")), "1.5(2");
    assert_eq!(calculator.handle_message_dot(text("1.5)")), "1.5)");
    assert_eq!(calculator.handle_message_dot(text("(1+2)")), "(1+2).");
}

#[test]
fn a_closing_parenthesis_needs_an_open_one() {
    let calculator = CalculatorApp::new();
    assert_eq!(calculator.handle_message_parentheses(text("0"), ')'), "0");
    assert_eq!(calculator.handle_message_parentheses(text("2+3"), ')'), "2+3");
    assert_eq!(calculator.handle_message_parentheses(text("(2+3)"), ')'), "(2+3)");
    assert_eq!(calculator.handle_message_parentheses(text("(2+3"), ')'), "(2+3)");
    assert_eq!(calculator.handle_message_parentheses(text("((2+3)"), ')'), "((2+3))");
    assert_eq!(calculator.handle_message_parentheses(text("("), ')'), "()");
    assert_eq!(calculator.handle_message_parentheses(text("(2/"), ')'), "(2)");
}

#[test]
fn an_opening_parenthesis_goes_anywhere() {
    let calculator = CalculatorApp::new();
    assert_eq!(calculator.handle_message_parentheses(text("0"), '('), "(");
    assert_eq!(calculator.handle_message_parentheses(text("5"), '('), "5(");
    assert_eq!(calculator.handle_message_parentheses(text("(2)"), '('), "(2)(");
    assert_eq!(calculator.handle_message_parentheses(text("1."), '('), "1.(");
    assert_eq!(calculator.handle_message_parentheses(text("00"), '('), "00(");
}

#[test]
fn delete_leaves_zero_where_nothing_is_left() {
    let calculator = CalculatorApp::new();
    assert_eq!(calculator.handle_message_delete(text("5")), "0");
    assert_eq!(calculator.handle_message_delete(text("(")), "0");
    assert_eq!(calculator.handle_message_delete(text("0")), "0");
    assert_eq!(calculator.handle_message_delete(text("10")), "1");
    assert_eq!(calculator.handle_message_delete(text("(2+3)")), "(2+3");
}

#[test]
fn clear_empties_the_memory_line() {
    let mut calculator = CalculatorApp::new();
    calculator.result_output = text("12 + 3 ");
    calculator.memory_output = text("1 + 1 =  ");
    assert_eq!(calculator.handle_message_clear(), "0");
    assert_eq!(calculator.memory_output, "");
    assert_eq!(calculator.result_output, "12 + 3 ");
}

#[test]
fn close_expression_trims_and_closes() {
    let calculator = CalculatorApp::new();
    assert_eq!(calculator.close_expression(text("(2+3")), "(2+3)");
    assert_eq!(calculator.close_expression(text("((1+")), "((1))");
    assert_eq!(calculator.close_expression(text("5+.")), "5");
    assert_eq!(calculator.close_expression(text("5x(")), "5");
    assert_eq!(calculator.close_expression(text("5 ")), "5");
    assert_eq!(calculator.close_expression(text("2x(3-2+(2/2")), "2x(3-2+(2/2))");
    assert_eq!(calculator.close_expression(text("1+2")), "1+2");
    assert_eq!(calculator.close_expression(text("0")), "0");
}

#[test]
fn close_expression_may_leave_nothing() {
    let calculator = CalculatorApp::new();
    assert_eq!(calculator.close_expression(text("(")), "");
    assert_eq!(calculator.close_expression(text("((+-.")), "");
    assert_eq!(calculator.close_expression(text("")), "");
}

#[test]
fn close_expression_adds_no_opening_parenthesis() {
    let calculator = CalculatorApp::new();
    assert_eq!(calculator.close_expression(text("2)")), "2)");
    assert_eq!(calculator.close_expression(text("(2))+")), "(2))");
}

#[test]
fn a_closed_expression_leaves_no_parenthesis_open() {
    let calculator = CalculatorApp::new();
    for raw in ["(", "((2", "(2+(3x(4", "2)", "1+2", "((1)", "(((((("] {
        let closed = calculator.close_expression(text(raw));
        let opened = closed.chars().filter(|c| *c == '(').count();
        let shut = closed.chars().filter(|c| *c == ')').count();
        assert!(opened <= shut, "{raw} was closed as {closed}");
    }
}
