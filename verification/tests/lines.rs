use pv_db::line::{is_record_line, same_key, split_lines};
use pv_db::order::lex_less;
use pv_db::text::chars_of;

fn chars(s: &str) -> Vec<char> {
    s.chars().collect()
}

fn split(text: &str) -> Vec<String> {
    split_lines(&chars(text)).iter().map(|line| line.iter().collect()).collect()
}

#[test]
fn characters_are_collected_in_order() {
    assert_eq!(chars_of("a=é日"), vec!['a', '=', 'é', '日']);
    assert_eq!(chars_of(""), Vec::<char>::new());
}

#[test]
fn text_splits_at_line_feeds() {
    assert_eq!(split("a\nb\nc"), vec!["a", "b", "c"]);
    assert_eq!(split("a\nb\n"), vec!["a", "b"]);
    assert_eq!(split("a\n\nb"), vec!["a", "", "b"]);
}

#[test]
fn empty_text_has_no_lines() {
    assert_eq!(split(""), Vec::<String>::new());
    assert_eq!(split("\n"), vec![""]);
    assert_eq!(split("\n\n"), vec!["", ""]);
}

#[test]
fn carriage_return_belongs_to_the_line_end_only_before_a_line_feed() {
    assert_eq!(split("a\r\nb"), vec!["a", "b"]);
    assert_eq!(split("a\rb\n"), vec!["a\rb"]);
    assert_eq!(split("a\r"), vec!["a\r"]);
    assert_eq!(split("a\r\r\n"), vec!["a\r"]);
    assert_eq!(split("\r\n"), vec![""]);
}

#[test]
fn splitting_agrees_with_the_standard_library() {
    let texts = ["", "a", "a\n", "\na", "a\r\nb\r\n", "x\n\n\ny", "\r", "\r\n\r\n", "a\rb\r\nc\r", "日本\n語\r\n"];
    for text in texts {
        let expected: Vec<String> = text.lines().map(|line| line.to_string()).collect();
        assert_eq!(split(text), expected, "for {:?}", text);
    }
}

#[test]
fn records_hold_a_separator_and_are_no_comments() {
    assert!(is_record_line(&chars("a=1")));
    assert!(is_record_line(&chars("=")));
    assert!(is_record_line(&chars("a.b[0]=x=y")));
    assert!(is_record_line(&chars(" #a=1")));
    assert!(!is_record_line(&chars("#a=1")));
    assert!(!is_record_line(&chars("#")));
    assert!(!is_record_line(&chars("a")));
    assert!(!is_record_line(&chars("")));
}

#[test]
fn keys_end_at_the_first_separator() {
    assert!(same_key(&chars("a=1"), &chars("a=2")));
    assert!(same_key(&chars("a=1=2"), &chars("a=")));
    assert!(same_key(&chars("=1"), &chars("=2")));
    assert!(!same_key(&chars("a=1"), &chars("ab=1")));
    assert!(!same_key(&chars("a=1"), &chars("b=1")));
    assert!(!same_key(&chars("a.b=1"), &chars("a.c=1")));
}

#[test]
fn line_without_separator_is_its_own_key() {
    assert!(same_key(&chars("abc"), &chars("abc=1")));
    assert!(same_key(&chars(""), &chars("=1")));
    assert!(!same_key(&chars("abc"), &chars("ab")));
}

#[test]
fn lines_compare_as_strings_do() {
    let lines = ["", "a", "a=", "a=1", "a=10", "a=2", "a0=1", "ab", "b", "é", "日本", "z", "a\r"];
    for a in lines {
        for b in lines {
            assert_eq!(lex_less(&chars(a), &chars(b)), a < b, "for {:?} and {:?}", a, b);
        }
    }
}
