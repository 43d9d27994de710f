use alps::text::base_name;
use alps::text::get_entries;
use alps::text::parse_index;
use alps::text::str_eq;
use alps::text::strip_index;
use alps::text::usize_to_string;

#[test]
fn entries_split_on_breaks_and_drop_empties() {
    let text = String::from("alpha\r\nbeta\n\ngamma");
    let lines = get_entries(&text);
    assert_eq!(lines, vec!["alpha".to_string(), "beta".to_string(), "gamma".to_string()]);
}

#[test]
fn entries_of_empty_text() {
    let text = String::new();
    assert!(get_entries(&text).is_empty());
}

#[test]
fn parse_index_accepts_digit_runs() {
    assert_eq!(parse_index("42"), Some(42));
    assert_eq!(parse_index("0"), Some(0));
    assert_eq!(parse_index("007"), Some(7));
}

#[test]
fn parse_index_rejects_everything_else() {
    assert_eq!(parse_index(""), None);
    assert_eq!(parse_index("x1"), None);
    assert_eq!(parse_index("1x"), None);
    assert_eq!(parse_index("+3"), None);
    assert_eq!(parse_index("99999999999999999999999999999"), None);
}

#[test]
fn decimal_rendering() {
    assert_eq!(usize_to_string(0), "0");
    assert_eq!(usize_to_string(7), "7");
    assert_eq!(usize_to_string(120), "120");
    assert_eq!(usize_to_string(10054), "10054");
}

#[test]
fn base_name_takes_the_part_after_the_last_slash() {
    assert_eq!(base_name("/home/user/.vimrc"), ".vimrc");
    assert_eq!(base_name("plain"), "plain");
    assert_eq!(base_name("a/b/c"), "c");
    assert_eq!(base_name("trailing/"), "");
}

#[test]
fn strip_index_drops_only_numeric_suffixes() {
    assert_eq!(strip_index(".vimrc_1"), ".vimrc");
    assert_eq!(strip_index("name_12"), "name");
    assert_eq!(strip_index("a_b"), "a_b");
    assert_eq!(strip_index("plain"), "plain");
    assert_eq!(strip_index("x_"), "x_");
}

#[test]
fn str_eq_is_exact() {
    assert!(str_eq("abc", "abc"));
    assert!(!str_eq("abc", "abd"));
    assert!(!str_eq("abc", "abcd"));
    assert!(str_eq("", ""));
}
