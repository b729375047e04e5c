use mapreduce::text::{
    chars_of, decimal_string, parse_u64, push_decimal, split_lines, split_once, text_of,
};

fn std_lines(s: &str) -> Vec<String> {
    s.lines().map(|l| l.to_string()).collect()
}

#[test]
fn chars_of_gives_every_character() {
    assert_eq!(chars_of(""), Vec::<char>::new());
    assert_eq!(chars_of("a,b"), vec!['a', ',', 'b']);
    assert_eq!(chars_of("né\n"), vec!['n', 'é', '\n']);
}

#[test]
fn text_of_takes_a_range() {
    let chars = vec!['h', 'e', 'l', 'l', 'o'];
    assert_eq!(text_of(&chars, 1, 4), "ell");
    assert_eq!(text_of(&chars, 0, 5), "hello");
    assert_eq!(text_of(&chars, 2, 2), "");
}

#[test]
fn parse_u64_reads_decimal_numbers() {
    assert_eq!(parse_u64("0"), Some(0));
    assert_eq!(parse_u64("42"), Some(42));
    assert_eq!(parse_u64("007"), Some(7));
    assert_eq!(parse_u64("+7"), Some(7));
    assert_eq!(parse_u64("18446744073709551615"), Some(u64::MAX));
}

#[test]
fn parse_u64_rejects_what_is_no_number() {
    assert_eq!(parse_u64(""), None);
    assert_eq!(parse_u64("+"), None);
    assert_eq!(parse_u64("-1"), None);
    assert_eq!(parse_u64("1a"), None);
    assert_eq!(parse_u64(" 1"), None);
    assert_eq!(parse_u64("1 "), None);
    assert_eq!(parse_u64("++1"), None);
    assert_eq!(parse_u64("1.5"), None);
    assert_eq!(parse_u64("١٢"), None);
}

#[test]
fn parse_u64_rejects_overflow() {
    assert_eq!(parse_u64("18446744073709551616"), None);
    assert_eq!(parse_u64("99999999999999999999"), None);
    assert_eq!(parse_u64("184467440737095516150"), None);
}

#[test]
fn parse_u64_agrees_with_std() {
    let samples = [
        "", "0", "1", "10", "0010", "+", "+0", "+12", "-", "-0", "-12", "12+", "1_000", "abc",
        "18446744073709551615", "18446744073709551616", "+18446744073709551615",
        "000000000000000000000000000001", " ", "\n", "1\n", "٣", "1e3", "0x10",
    ];
    for s in samples {
        assert_eq!(parse_u64(s), s.parse::<u64>().ok(), "on {:?}", s);
    }
}

#[test]
fn decimal_string_writes_numbers() {
    assert_eq!(decimal_string(0), "0");
    assert_eq!(decimal_string(7), "7");
    assert_eq!(decimal_string(10), "10");
    assert_eq!(decimal_string(12345), "12345");
    assert_eq!(decimal_string(u64::MAX), "18446744073709551615");
}

#[test]
fn push_decimal_appends() {
    let mut s = String::from("n=");
    push_decimal(&mut s, 906);
    assert_eq!(s, "n=906");
}

#[test]
fn decimal_round_trip() {
    for n in [0u64, 1, 9, 10, 11, 99, 100, 1234567890, u64::MAX - 1, u64::MAX] {
        assert_eq!(decimal_string(n), n.to_string());
        assert_eq!(parse_u64(&decimal_string(n)), Some(n));
    }
}

#[test]
fn split_once_cuts_at_the_first_separator() {
    assert_eq!(split_once("k,v", ','), Some(("k".to_string(), "v".to_string())));
    assert_eq!(split_once("k,v,w", ','), Some(("k".to_string(), "v,w".to_string())));
    assert_eq!(split_once(",", ','), Some(("".to_string(), "".to_string())));
    assert_eq!(split_once("the 2", ' '), Some(("the".to_string(), "2".to_string())));
}

#[test]
fn split_once_without_separator() {
    assert_eq!(split_once("kv", ','), None);
    assert_eq!(split_once("", ','), None);
    assert_eq!(split_once("k v", ','), None);
}

#[test]
fn split_lines_examples() {
    assert_eq!(split_lines(""), Vec::<String>::new());
    assert_eq!(split_lines("a"), vec!["a"]);
    assert_eq!(split_lines("a\n"), vec!["a"]);
    assert_eq!(split_lines("a\nb"), vec!["a", "b"]);
    assert_eq!(split_lines("a\n\nb\n"), vec!["a", "", "b"]);
    assert_eq!(split_lines("\n"), vec![""]);
    assert_eq!(split_lines("a\r\nb\r\n"), vec!["a", "b"]);
}

#[test]
fn split_lines_keeps_a_carriage_return_without_line_feed() {
    assert_eq!(split_lines("a\rb\n"), vec!["a\rb"]);
    assert_eq!(split_lines("a\r"), vec!["a\r"]);
    assert_eq!(split_lines("a\r\r\n"), vec!["a\r"]);
}

#[test]
fn split_lines_agrees_with_std() {
    let samples = [
        "", "a", "a\n", "\n", "\n\n", "a\nb", "a\nb\n", "a\r\nb", "a\r\nb\r", "\r\n", "\r",
        "a\r\r\nb", "x,1\ny,2\n", "the 2\ncat 1", "\na", "a\n\n", "é\nü\r\n",
    ];
    for s in samples {
        assert_eq!(split_lines(s), std_lines(s), "on {:?}", s);
    }
}
