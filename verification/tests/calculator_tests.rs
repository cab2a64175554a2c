use basic_desktop_calculator::calculator::CalculatorApp;

#[test]
fn get_trimmed_output_tests() {
    let mut calculator = CalculatorApp::new();

    let data = vec![
        (
            String::from("1 123 456 + 156 - 15 / .23 x 9 156 + 0 "),
            String::from("1123456+156-15/.23x9156+0"),
        ),
        (String::from("0 + 5 - 1 123 / "), String::from("0+5-1123/")),
        (String::from("0 "), String::from("0")),
    ];

    for (input, expected_output) in data {
        calculator.result_output = input.clone();

        assert_eq!(calculator.get_trimmed_output(), expected_output);
    }
}

#[test]
fn handle_message_number_tests() {
    let calculator = CalculatorApp::new();

    let data = vec![
        (String::from("0"), 1, String::from("1")),
        (String::from("1"), 1, String::from("11")),
        (String::from("15+"), 1, String::from("15+1")),
        (String::from("15-"), 1, String::from("15-1")),
        (String::from("15."), 1, String::from("15.1")),
        (String::from("0"), 0, String::from("0")),
    ];

    for (input, num, expected_output) in data {
        let output = calculator.handle_message_number(input, num);

        assert_eq!(output, expected_output);
    }
}

#[test]
fn handle_message_clear_tests() {
    let mut calculator = CalculatorApp::new();

    let data = vec![
        (String::from("0"), String::from("0")),
        (String::from("1564"), String::from("0")),
        (String::from("15+"), String::from("0")),
        (String::from("0.226x"), String::from("0")),
    ];

    for (input, expected_output) in data {
        calculator.result_output = input.clone();

        assert_eq!(calculator.handle_message_clear(), expected_output);
    }
}

#[test]
fn handle_message_delete_tests() {
    let calculator = CalculatorApp::new();

    let data = vec![
        (String::from("0"), String::from("0")),
        (String::from("1564"), String::from("156")),
        (String::from("15+"), String::from("15")),
        (String::from("0.226x"), String::from("0.226")),
        (String::from("0.226"), String::from("0.22")),
        (String::from("0.2"), String::from("0.")),
        (String::from("1"), String::from("0")),
    ];

    for (input, expected_output) in data {
        assert_eq!(calculator.handle_message_delete(input), expected_output);
    }
}

#[test]
fn handle_message_dot_tests() {
    let calculator = CalculatorApp::new();

    let data = vec![
        (String::from("0"), String::from("0.")),
        (String::from("1564"), String::from("1564.")),
        (String::from("15+"), String::from("15+.")),
        (String::from("0.226x"), String::from("0.226x.")),
        (String::from("0.226"), String::from("0.226")),
        (String::from("10.15+0.226"), String::from("10.15+0.226")),
        (String::from("10.15+0.226/1."), String::from("10.15+0.226/1.")),
        (String::from("10.15+26"), String::from("10.15+26.")),
        (String::from("0.2"), String::from("0.2")),
        (String::from("1"), String::from("1.")),
    ];

    for (input, expected_output) in data {
        assert_eq!(calculator.handle_message_dot(input), expected_output);
    }
}

#[test]
fn handle_message_operator_tests() {
    let calculator = CalculatorApp::new();

    let data = vec![
        (String::from("0"), '+', String::from("0+")),
        (String::from("156+"), '-', String::from("156-")),
        (String::from("15+"), 'x', String::from("15x")),
        (String::from("0.226/"), '/', String::from("0.226/")),
        (String::from("0.226"), '+', String::from("0.226+")),
        (String::from("0."), '+', String::from("0.+")),
        (String::from("1"), '+', String::from("1+")),
    ];

    for (input, op, expected_output) in data {
        assert_eq!(calculator.handle_message_operator(input, op), expected_output);
    }
}

#[test]
fn format_result_output_tests() {
    let calculator = CalculatorApp::new();

    let data = vec![
        (String::from("0"), String::from("0 ")),
        (String::from("156+"), String::from("156 + ")),
        (String::from("15-"), String::from("15 - ")),
        (String::from("15x"), String::from("15 x ")),
        (String::from("1(15"), String::from("1 x (15 ")),
        (String::from("15)1"), String::from("15) x 1 ")),
        (String::from("0.226/"), String::from("0.226 / ")),
        (String::from("0.226/15+1-"), String::from("0.226 / 15 + 1 - ")),
        (String::from("(0.226/(15+1))-"), String::from(" (0.226 / (15 + 1) ) - ")),
        (String::from("0.226666666"), String::from("0.226666666 ")),
        (String::from("0.0"), String::from("0.0 ")),
        (String::from("()"), String::from(" (1) ")),
        (String::from("1000000"), String::from("1 000 000 ")),
        (String::from("1000000.55"), String::from("1 000 000.55 ")),
        (String::from("1000000.55555555"), String::from("1 000 000.55555555 ")),
        (
            String::from("1000000.55555555+.155555"),
            String::from("1 000 000.55555555 + 0.155555 "),
        ),
        (
            String::from("100000.55555555+.155555/123456+1500.1568"),
            String::from("100 000.55555555 + 0.155555 / 123 456 + 1 500.1568 "),
        ),
        (
            String::from("100000.55555555+(.155555/123456)+1500.1568"),
            String::from("100 000.55555555 + (0.155555 / 123 456) + 1 500.1568 "),
        ),
    ];

    for (input, expected_output) in data {
        let output = calculator.format_result_output(input);

        assert_eq!(output, expected_output);
    }
}

#[test]
fn handle_message_parentheses_tests() {
    let calculator = CalculatorApp::new();

    let data = vec![
        (String::from("0"), '(', String::from("(")),
        (String::from("156+"), '(', String::from("156+(")),
        (String::from("15-"), '(', String::from("15-(")),
        (String::from("(15-"), ')', String::from("(15)")),
        (String::from("(15x"), '(', String::from("(15x(")),
        (String::from("0.226/"), '(', String::from("0.226/(")),
        (String::from("0.226/15+1-"), ')', String::from("0.226/15+1-")),
        (String::from("(0.226666666"), ')', String::from("(0.226666666)")),
        (String::from("((0.0"), ')', String::from("((0.0)")),
        (String::from("(1000000)"), ')', String::from("(1000000)")),
        (String::from("((1000000.55"), ')', String::from("((1000000.55)")),
        (String::from("(2-"), ')', String::from("(2)")),
    ];

    for (input, par, expected_output) in data {
        assert_eq!(calculator.handle_message_parentheses(input, par), expected_output);
    }
}
