use basic_desktop_calculator::operations::{
    closing_parenthese, find_closing_parenthese, parse_expression, parse_factor, parse_term,
    parse_whole_expression, read_number, Expr, Operation, ParseResult,
};

fn value_of(tree: &Expr) -> f64 {
    match tree {
        Expr::Number(text) => text.parse().unwrap(),
        Expr::Group(inner) => value_of(inner),
        Expr::Binary(Operation::Add, left, right) => value_of(left) + value_of(right),
        Expr::Binary(Operation::Subtract, left, right) => value_of(left) - value_of(right),
        Expr::Binary(Operation::Multiply, left, right) => value_of(left) * value_of(right),
        Expr::Binary(Operation::Divide, left, right) => value_of(left) / value_of(right),
    }
}

fn shape_of(tree: &Expr) -> String {
    match tree {
        Expr::Number(text) => text.clone(),
        Expr::Group(inner) => format!("({})", shape_of(inner)),
        Expr::Binary(op, left, right) => {
            format!("[{} {:?} {}]", shape_of(left), op, shape_of(right))
        }
    }
}

fn parsed(input: &str) -> ParseResult {
    parse_expression(input).unwrap()
}

#[test]
fn parse_expression_tests() {
    let data: Vec<(&str, f64)> = vec![
        ("1+1", 2.0),
        ("1-1", 0.0),
        ("2x(3-2+(2/2))", 4.0),
        ("10/2", 5.0),
        ("1.5+2.3", 3.8),
        ("2.5x4", 10.0),
        ("100/4", 25.0),
        ("2.5-0.5", 2.0),
        ("1.1+2.2-3.0", 0.3),
        ("(2+3)x(1.5+0.5)", 10.0),
        ("3.3/1.1", 3.0),
        ("(2.2+3.3)x2", 11.0),
        ("2x(2.1+2.9/1.45)", 8.2),
        ("0.1+0.2", 0.3),
        ("5-(2x(1.25))", 2.5),
        ("(5-1)x(2+2)", 16.0),
        ("(2.5x4)/(1+1)", 5.0),
        ("1.2+2.3", 3.5),
        ("5x3", 15.0),
        ("10-5", 5.0),
        ("50/2", 25.0),
        ("(5+5)x2", 20.0),
        ("2x(3+3)", 12.0),
        ("(1.5+2.5)x4", 16.0),
        ("(12/4)x(2+1)", 9.0),
        ("3.5x(2+3)x2", 35.0),
        ("(4.5+1.5)x(2x3)", 36.0),
        ("(2.5x(2+3))/(1+1)", 6.25),
        ("2x(2+(3x2))/2", 8.0),
        ("((2+3)x2)x2", 20.0),
        ("(2+(3x(2+1)))", 11.0),
        ("(4/(2/1))+(3x2)", 8.0),
        ("((1.2+1.3)x2)-1", 4.0),
        ("1.1+2.2", 3.3),
        ("(1.5x4.2)+(3.1/2.0)", 7.85),
        ("(0.1+0.2)+0.3", 0.6),
        ("(10/3)x3", 10.0),
        ("2.5x3.2x(1+2)", 24.0),
        ("10x(2.5+0.5)-(3x2)", 24.0),
        ("(2.2+3.3)x(2x2.5)", 27.5),
        ("(4.5-1.5)/(1.5x0.5)", 4.0),
    ];

    for (input, expected_result) in data {
        let result = value_of(&parsed(input).value);
        assert!(
            (result - expected_result).abs() < 1e-6,
            "Failed test for input {input}: got {result} but expected {expected_result}"
        );
    }
}

#[test]
fn parse_expression_spans_the_whole_of_a_closed_expression() {
    for input in ["1+1", "2x(3-2+(2/2))", "(2.5x4)/(1+1)", "7", "0.5", "((1))"] {
        assert_eq!(parsed(input).length, input.len());
    }
}

#[test]
fn one_tier_is_taken_from_the_left() {
    assert_eq!(shape_of(&parsed("1-2-3").value), "[[1 Subtract 2] Subtract 3]");
    assert_eq!(shape_of(&parsed("8/4/2").value), "[[8 Divide 4] Divide 2]");
    assert_eq!(shape_of(&parsed("1+2-3+4").value), "[[[1 Add 2] Subtract 3] Add 4]");
    assert_eq!(value_of(&parsed("1-2-3").value), -4.0);
    assert_eq!(value_of(&parsed("8/4/2").value), 1.0);
    assert_eq!(value_of(&parsed("1+1").value), 2.0);
    assert_eq!(value_of(&parsed("1-1").value), 0.0);
    assert_eq!(value_of(&parsed("10/2").value), 5.0);
}

#[test]
fn products_bind_tighter_than_sums() {
    assert_eq!(shape_of(&parsed("1+2x3").value), "[1 Add [2 Multiply 3]]");
    assert_eq!(shape_of(&parsed("1x2+3").value), "[[1 Multiply 2] Add 3]");
    assert_eq!(shape_of(&parsed("2x(3-2)").value), "[2 Multiply ([3 Subtract 2])]");
    assert_eq!(value_of(&parsed("2x(3-2+(2/2))").value), 4.0);
    assert_eq!(value_of(&parsed("(2.5x4)/(1+1)").value), 5.0);
    assert_eq!(value_of(&parsed("1+2x3").value), 7.0);
}

#[test]
fn find_closing_parenthese_finds_the_match() {
    assert_eq!(find_closing_parenthese("(2+(3x2))"), 8);
    assert_eq!(find_closing_parenthese("(2)+(3)"), 2);
    assert_eq!(find_closing_parenthese("((1)(2))x3"), 7);
    assert_eq!(find_closing_parenthese("()"), 1);
    assert_eq!(closing_parenthese("(2+(3x2))"), Some(8));
    assert_eq!(closing_parenthese("()"), Some(1));
}

#[test]
fn closing_parenthese_without_a_match() {
    assert_eq!(closing_parenthese("(2+(3x2)"), None);
    assert_eq!(closing_parenthese("("), None);
    assert_eq!(closing_parenthese(""), None);
    assert_eq!(closing_parenthese(")"), None);
}

#[test]
fn find_closing_parenthese_is_the_first_balanced_place() {
    assert_eq!(find_closing_parenthese("2)"), 0);
    assert_eq!(find_closing_parenthese("12+3"), 0);
    assert_eq!(closing_parenthese("2)"), Some(0));
}

#[test]
fn read_number_stops_at_a_terminator() {
    let number = read_number("12.5+3").unwrap();
    assert_eq!(number.length, 4);
    assert_eq!(shape_of(&number.value), "12.5");
    let number = read_number("42").unwrap();
    assert_eq!(number.length, 2);
    assert_eq!(shape_of(&number.value), "42");
    let number = read_number("7)").unwrap();
    assert_eq!(number.length, 1);
}

#[test]
fn read_number_takes_a_point_at_either_end() {
    assert_eq!(shape_of(&read_number(".5").unwrap().value), ".5");
    assert_eq!(shape_of(&read_number("5.").unwrap().value), "5.");
    assert_eq!(value_of(&read_number(".5").unwrap().value), 0.5);
    assert_eq!(value_of(&read_number("5.").unwrap().value), 5.0);
}

#[test]
fn read_number_refuses_what_is_no_number() {
    assert!(read_number("").is_none());
    assert!(read_number(".").is_none());
    assert!(read_number("1.2.3").is_none());
    assert!(read_number("1a").is_none());
    assert!(read_number("+1").is_none());
    assert!(read_number("inf").is_none());
    assert!(read_number("1 2").is_none());
}

#[test]
fn parse_factor_takes_a_number_or_a_group() {
    let factor = parse_factor("12x3").unwrap();
    assert_eq!(factor.length, 2);
    assert_eq!(shape_of(&factor.value), "12");
    let factor = parse_factor("(1+2)x3").unwrap();
    assert_eq!(factor.length, 5);
    assert_eq!(shape_of(&factor.value), "([1 Add 2])");
}

#[test]
fn parse_factor_refuses_a_group_that_is_not_filled() {
    assert!(parse_factor("").is_none());
    assert!(parse_factor("()").is_none());
    assert!(parse_factor("(1+2").is_none());
    assert!(parse_factor("(1+)").is_none());
    assert!(parse_factor("(2(3))").is_none());
    assert!(parse_factor("-1").is_none());
}

#[test]
fn parse_term_stops_before_a_sum() {
    let term = parse_term("2x3+4").unwrap();
    assert_eq!(term.length, 3);
    assert_eq!(shape_of(&term.value), "[2 Multiply 3]");
    assert!(parse_term("2x").is_none());
    assert!(parse_term("2x+").is_none());
}

#[test]
fn parse_expression_stops_where_the_expression_ends() {
    let expression = parsed("2)");
    assert_eq!(expression.length, 1);
    let expression = parsed("(2)3");
    assert_eq!(expression.length, 3);
    let expression = parsed("1+2)x3");
    assert_eq!(expression.length, 3);
}

#[test]
fn parse_expression_refuses_what_is_no_expression() {
    assert!(parse_expression("").is_none());
    assert!(parse_expression("1+").is_none());
    assert!(parse_expression("+1").is_none());
    assert!(parse_expression("-1").is_none());
    assert!(parse_expression("(1+2").is_none());
    assert!(parse_expression("1+(").is_none());
    assert!(parse_expression("1++2").is_none());
    assert!(parse_expression("NaN").is_none());
}

#[test]
fn parse_whole_expression_wants_all_of_the_text() {
    assert!(parse_whole_expression("1+2").is_some());
    assert!(parse_whole_expression("(2+3)").is_some());
    assert!(parse_whole_expression("1(15)").is_none());
    assert!(parse_whole_expression("2)").is_none());
    assert!(parse_whole_expression("(2)3").is_none());
    assert!(parse_whole_expression("").is_none());
    assert_eq!(value_of(&parse_whole_expression("(2+3)").unwrap()), 5.0);
}

#[test]
fn division_by_zero_is_left_to_the_arithmetic() {
    let tree = parse_whole_expression("1/0").unwrap();
    assert_eq!(shape_of(&tree), "[1 Divide 0]");
    assert!(value_of(&tree).is_infinite());
    assert!(value_of(&parse_whole_expression("0/0").unwrap()).is_nan());
}
