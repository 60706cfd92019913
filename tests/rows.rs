use jep106_build::row::parse_row;
use regex::Regex;

fn chars(s: &str) -> Vec<char> {
    s.chars().collect()
}

fn parsed(line: &str) -> Option<(String, String)> {
    parse_row(&chars(line)).map(|r| (r.name.iter().collect(), r.code_hex.iter().collect()))
}

fn by_regex(line: &str) -> Option<(String, String)> {
    let re = Regex::new(r"^[0-9]+\s+(.*?)\s+([01]\s+){8}([0-9A-F]{2})\s+$").unwrap();
    re.captures(line).map(|c| (c[1].to_string(), c[3].to_string()))
}

#[test]
fn example_row_is_recognised() {
    assert_eq!(
        parsed("1   Example Corp.   0 0 0 0 0 0 0 0   01 "),
        Some(("Example Corp.".to_string(), "01".to_string()))
    );
}

#[test]
fn name_keeps_inner_spaces_and_punctuation() {
    assert_eq!(
        parsed("27 Foo  Bar, Inc. (\"X\") 1 0 1 0 0 1 1 1 A7\t"),
        Some(("Foo  Bar, Inc. (\"X\")".to_string(), "A7".to_string()))
    );
}

#[test]
fn noise_lines_are_not_rows() {
    for line in [
        "",
        "JEP106BE",
        "Page 12",
        "1   Example Corp.   0 0 0 0 0 0 0 0   01",
        "1   Example Corp.   0 0 0 0 0 0 0 0   0a ",
        "1   Example Corp.   0 0 0 0 0 0 0   01 ",
        "Example Corp.   0 0 0 0 0 0 0 0   01 ",
        "1Example Corp.   0 0 0 0 0 0 0 0   01 ",
        "1   Example Corp.   0 0 2 0 0 0 0 0   01 ",
        "1   Example Corp.   0 0 0 0 0 0 0 0   011 ",
    ] {
        assert_eq!(parsed(line), None, "{:?}", line);
    }
}

#[test]
fn name_may_start_inside_the_leading_space() {
    assert_eq!(parsed("5  0 0 0 0 0 0 0 0 05 "), Some((String::new(), "05".to_string())));
    assert_eq!(parsed("5 0 0 0 0 0 0 0 0 05 "), None);
}

#[test]
fn shortest_name_wins() {
    assert_eq!(
        parsed("9 Acme 1 1 0 0 0 0 0 0 0 0 09 "),
        Some(("Acme 1 1".to_string(), "09".to_string()))
    );
}

#[test]
fn agrees_with_the_regex_crate() {
    for line in [
        "1   Example Corp.   0 0 0 0 0 0 0 0   01 ",
        "1   Example Corp.   0 0 0 0 0 0 0 0   01",
        "126 Ämbrella  Lda  1 1 1 1 1 1 1 0 FE \u{a0}",
        "5  0 0 0 0 0 0 0 0 05 ",
        "5 0 0 0 0 0 0 0 0 05 ",
        "5  0 0 0 0 0 0 0 0 0 05 ",
        "9 Acme 1 1 0 0 0 0 0 0 0 0 09 ",
        "12 A\u{2003}B 0\u{3000}1 0 1 0 1 0 1 0C \r",
        "12 A B 0 1 0 1 0 1 0 1 0c ",
        "007 x 1 1 1 1 1 1 1 1 FF  ",
        "3 a\rb 0 0 0 0 0 0 0 0 03 ",
    ] {
        assert_eq!(parsed(line), by_regex(line), "{:?}", line);
    }
}
