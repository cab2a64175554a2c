use basic_desktop_calculator::text::{
    chars_of, count_char, is_digit_char, is_operator_char, is_terminator_char, string_of,
};

#[test]
fn chars_of_and_string_of_undo_each_other() {
    for s in ["", "0", "12+3", "\u{e9}t\u{e9}", "a b  c"] {
        let chars = chars_of(s);
        assert_eq!(chars, s.chars().collect::<Vec<char>>());
        assert_eq!(string_of(&chars), s);
    }
}

#[test]
fn count_char_counts_every_occurrence() {
    assert_eq!(count_char("((1)+(2", '('), 3);
    assert_eq!(count_char("((1)+(2", ')'), 1);
    assert_eq!(count_char("", '('), 0);
    assert_eq!(count_char("1.2.3", '.'), 2);
}

#[test]
fn the_characters_of_an_expression_fall_into_kinds() {
    for c in '0'..='9' {
        assert!(is_digit_char(c));
        assert!(!is_operator_char(c));
        assert!(!is_terminator_char(c));
    }
    for c in ['x', '+', '-', '/'] {
        assert!(is_operator_char(c));
        assert!(is_terminator_char(c));
        assert!(!is_digit_char(c));
    }
    for c in ['(', ')'] {
        assert!(is_terminator_char(c));
        assert!(!is_operator_char(c));
    }
    for c in ['.', ' ', '*', 'a', '/' as u8 as char] {
        assert_eq!(is_terminator_char(c), c == '/');
    }
    assert!(!is_digit_char('\u{663}'));
}
