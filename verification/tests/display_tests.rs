use basic_desktop_calculator::calculator::CalculatorApp;
use basic_desktop_calculator::text::replace;

fn shown(raw: &str) -> String {
    CalculatorApp::new().format_result_output(String::from(raw))
}

fn read_back(raw: &str) -> String {
    let mut calculator = CalculatorApp::new();
    calculator.result_output = shown(raw);
    calculator.get_trimmed_output()
}

#[test]
fn format_integer_part_groups_from_the_right() {
    let calculator = CalculatorApp::new();
    assert_eq!(calculator.format_integer_part(""), "");
    assert_eq!(calculator.format_integer_part("1"), "1");
    assert_eq!(calculator.format_integer_part("12"), "12");
    assert_eq!(calculator.format_integer_part("123"), "123");
    assert_eq!(calculator.format_integer_part("1234"), "1 234");
    assert_eq!(calculator.format_integer_part("12345"), "12 345");
    assert_eq!(calculator.format_integer_part("123456"), "123 456");
    assert_eq!(calculator.format_integer_part("1234567"), "1 234 567");
}

#[test]
fn format_integer_part_groups_a_long_number_throughout() {
    let calculator = CalculatorApp::new();
    let digits = "7".repeat(130);
    let grouped = calculator.format_integer_part(&digits);
    let groups: Vec<&str> = grouped.split(' ').collect();
    assert_eq!(groups.len(), 44);
    assert_eq!(groups[0], "7");
    for group in &groups[1..] {
        assert_eq!(*group, "777");
    }
}

#[test]
fn format_number_leaves_the_decimals_alone() {
    let calculator = CalculatorApp::new();
    assert_eq!(calculator.format_number("1234.5678"), "1 234.5678");
    assert_eq!(calculator.format_number("1234."), "1 234.");
    assert_eq!(calculator.format_number(".5678"), ".5678");
    assert_eq!(calculator.format_number("1234"), "1 234");
    assert_eq!(calculator.format_number("1234.5.6789"), "1 234.5.6789");
    assert_eq!(calculator.format_number(""), "");
}

#[test]
fn add_spaces_around_operators_goes_by_the_last_character() {
    let calculator = CalculatorApp::new();
    assert_eq!(calculator.add_spaces_around_operators("12+"), " + ");
    assert_eq!(calculator.add_spaces_around_operators("-"), " - ");
    assert_eq!(calculator.add_spaces_around_operators("1x"), " x ");
    assert_eq!(calculator.add_spaces_around_operators("1/"), " / ");
    assert_eq!(calculator.add_spaces_around_operators("("), " (");
    assert_eq!(calculator.add_spaces_around_operators("12)"), ") ");
    assert_eq!(calculator.add_spaces_around_operators("12"), "");
    assert_eq!(calculator.add_spaces_around_operators("1."), "");
}

#[test]
fn is_an_operator_knows_the_four() {
    let calculator = CalculatorApp::new();
    for op in ['x', '+', '-', '/'] {
        assert!(calculator.is_an_operator(op));
    }
    for other in ['*', '(', ')', '.', '0', ' ', '='] {
        assert!(!calculator.is_an_operator(other));
    }
}

#[test]
fn replace_patterns_and_add_last_space_ends_with_one_space() {
    let calculator = CalculatorApp::new();
    let touched = |s: &str| calculator.replace_patterns_and_add_last_space(String::from(s));
    assert_eq!(touched(""), "");
    assert_eq!(touched("12"), "12 ");
    assert_eq!(touched("12 "), "12 ");
    assert_eq!(touched("12 + "), "12 + ");
    assert_eq!(touched("1  +  2"), "1 + 2 ");
}

#[test]
fn replace_patterns_and_add_last_space_writes_in_what_is_missing() {
    let calculator = CalculatorApp::new();
    let touched = |s: &str| calculator.replace_patterns_and_add_last_space(String::from(s));
    assert_eq!(touched("1 + .5"), "1 + 0.5 ");
    assert_eq!(touched(" (.5"), " (0.5 ");
    assert_eq!(touched(" (2)  (3) "), " (2) x (3) ");
    assert_eq!(touched(" () "), " (1) ");
    assert_eq!(touched("2 (3) "), "2 x (3) ");
    assert_eq!(touched(" (3) 2"), " (3) x 2 ");
    assert_eq!(touched("1 (2) 3 (4) 5"), "1 x (2) x 3 x (4) x 5 ");
}

#[test]
fn the_product_rules_read_from_the_left() {
    let calculator = CalculatorApp::new();
    let touched = |s: &str| calculator.replace_patterns_and_add_last_space(String::from(s));
    assert_eq!(touched("1 (1 (1 ("), "1 x (1 x (1 x ( ");
    assert_eq!(touched(") 1) 1) 1"), ") x 1) x 1) x 1 ");
    assert_eq!(touched("12 (34"), "12 x (34 ");
    assert_eq!(touched("a (3"), "a (3 ");
    assert_eq!(touched(") a"), ") a ");
}

#[test]
fn the_formatter_shows_a_product_next_to_a_group() {
    assert_eq!(shown("1(15"), "1 x (15 ");
    assert_eq!(shown("15)1"), "15) x 1 ");
    assert_eq!(shown("(2)(3)"), " (2) x (3) ");
    assert_eq!(shown("2(3)4"), "2 x (3) x 4 ");
    assert_eq!(shown("(1)2(3)"), " (1) x 2 x (3) ");
}

#[test]
fn the_formatter_shows_a_zero_before_a_lone_point() {
    assert_eq!(shown("1+.5"), "1 + 0.5 ");
    assert_eq!(shown("(.5"), " (0.5 ");
    assert_eq!(shown("2x(.5+.5)"), "2 x (0.5 + 0.5) ");
    assert_eq!(shown(".5"), ".5 ");
    assert_eq!(shown("1.5"), "1.5 ");
    assert_eq!(shown(").5"), ") x 0.5 ");
}

#[test]
fn the_formatter_fills_an_empty_pair_of_parentheses() {
    assert_eq!(shown("()"), " (1) ");
    assert_eq!(shown("2x()"), "2 x (1) ");
    assert_eq!(shown("()()"), " (1) x (1) ");
}

#[test]
fn the_formatter_takes_any_text() {
    assert_eq!(shown(""), "");
    assert_eq!(shown("inf"), "inf ");
    assert_eq!(shown("NaN"), "NaN ");
    assert_eq!(shown("-5"), " - 5 ");
    assert_eq!(shown("+"), " + ");
    assert_eq!(shown("+-"), " + - ");
    assert_eq!(shown("(("), " ( ( ");
    assert_eq!(shown("))"), ") ) ");
    assert_eq!(shown("1234567+7654321"), "1 234 567 + 7 654 321 ");
}

#[test]
fn the_formatter_hands_text_of_other_scripts_to_the_same_rules() {
    assert_eq!(shown("\u{663}("), "\u{663} x ( ");
    assert_eq!(shown("\u{e9}+1"), "\u{e9} + 1 ");
}

#[test]
fn a_sum_is_shown_with_spaces() {
    assert_eq!(shown("10+5"), "10 + 5 ");
}

#[test]
fn the_spaces_hide_a_plain_expression() {
    for raw in [
        "0",
        "10+5",
        "1123456+156-15/0.23x9156+0",
        "2x(3-2+(2/2))",
        "(2.5x4)/(1+1)",
        "((1+2)x3)-4",
        "1000000.55555555",
        "12+",
        "12+(",
        "1.",
        ".5",
        "1.5.5",
        "3x-2",
        "inf",
        "",
    ] {
        assert_eq!(read_back(raw), raw);
    }
}

#[test]
fn the_spaces_do_not_hide_what_the_formatter_wrote_in() {
    assert_eq!(read_back("1(15"), "1x(15");
    assert_eq!(read_back("15)1"), "15)x1");
    assert_eq!(read_back("(2)(3)"), "(2)x(3)");
    assert_eq!(read_back("()"), "(1)");
    assert_eq!(read_back("1+.5"), "1+0.5");
    assert_eq!(read_back("(.5"), "(0.5");
    assert_eq!(read_back(").5"), ")x0.5");
}

#[test]
fn the_formatter_takes_no_character_away() {
    for raw in ["1(15", "()", "2)(3", "1+.5", "((..))", "x/+-", ")))(((", "1 2  3"] {
        let back = read_back(raw);
        let kept: String = raw.chars().filter(|c| *c != ' ').collect();
        assert!(back.chars().count() >= kept.chars().count(), "{raw} came back as {back}");
    }
}

#[test]
fn replace_reads_from_the_left() {
    assert_eq!(replace("aaa", "aa", "b"), "ba");
    assert_eq!(replace("aaaa", "aa", "b"), "bb");
    assert_eq!(replace("   ", "  ", " "), "  ");
    assert_eq!(replace("abcabc", "bc", ""), "aa");
    assert_eq!(replace("abc", "", "x"), "abc");
    assert_eq!(replace("", "a", "b"), "");
    assert_eq!(replace("abc", "abcd", "x"), "abc");
    assert_eq!(replace("a.b.c", ".", ".."), "a..b..c");
}
