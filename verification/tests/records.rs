use mapreduce::common::MrError;
use mapreduce::records::{
    first_bad_line, first_bad_report, first_bad_value, group_by_key, merge_reports,
    rank_by_value, read_records, sum_by_key, write_records,
};

fn pairs(items: &[(&str, &str)]) -> Vec<(String, String)> {
    items.iter().map(|(k, v)| (k.to_string(), v.to_string())).collect()
}

fn texts(items: &[&str]) -> Vec<String> {
    items.iter().map(|s| s.to_string()).collect()
}

#[test]
fn write_records_one_line_each() {
    assert_eq!(write_records(&pairs(&[]), ','), "");
    assert_eq!(write_records(&pairs(&[("the", "1"), ("cat", "1")]), ','), "the,1\ncat,1\n");
    assert_eq!(write_records(&pairs(&[("the", "2"), ("cat", "1")]), ' '), "the 2\ncat 1\n");
}

#[test]
fn read_records_reads_what_was_written() {
    let written = pairs(&[("the", "1"), ("cat", "1"), ("the", "1")]);
    assert_eq!(read_records(&write_records(&written, ','), ','), Ok(written));
}

#[test]
fn read_records_cuts_at_the_first_separator() {
    assert_eq!(read_records("a,b,c\n", ','), Ok(pairs(&[("a", "b,c")])));
    assert_eq!(read_records("a b 3\n", ' '), Ok(pairs(&[("a", "b 3")])));
    assert_eq!(read_records("", ','), Ok(pairs(&[])));
    assert_eq!(read_records("k,v", ','), Ok(pairs(&[("k", "v")])));
}

#[test]
fn read_records_fails_on_a_line_without_separator() {
    assert_eq!(read_records("a,1\nb\nc,2\n", ','), Err(MrError::Format));
    assert_eq!(read_records("a,1\n\n", ','), Err(MrError::Format));
    assert_eq!(read_records("a 1\n", ','), Err(MrError::Format));
}

#[test]
fn group_by_key_keeps_first_occurrence_order() {
    let groups = group_by_key(pairs(&[("the", "1"), ("cat", "x"), ("the", "2"), ("dog", "1"), ("cat", "y")]));
    assert_eq!(
        groups,
        vec![
            ("the".to_string(), texts(&["1", "2"])),
            ("cat".to_string(), texts(&["x", "y"])),
            ("dog".to_string(), texts(&["1"])),
        ]
    );
    assert_eq!(group_by_key(pairs(&[])), vec![]);
}

#[test]
fn rank_by_value_orders_by_descending_number() {
    let ranking = rank_by_value(pairs(&[("a", "1"), ("b", "10"), ("c", "2")]));
    assert_eq!(ranking, Ok(pairs(&[("b", "10"), ("c", "2"), ("a", "1")])));
}

#[test]
fn rank_by_value_compares_numbers_not_texts() {
    let ranking = rank_by_value(pairs(&[("a", "9"), ("b", "10"), ("c", "007"), ("d", "+8")]));
    assert_eq!(ranking, Ok(pairs(&[("b", "10"), ("a", "9"), ("d", "+8"), ("c", "007")])));
}

#[test]
fn rank_by_value_keeps_the_order_of_ties() {
    let ranking = rank_by_value(pairs(&[("cat", "1"), ("the", "2"), ("dog", "1"), ("a", "2"), ("z", "1")]));
    assert_eq!(
        ranking,
        Ok(pairs(&[("the", "2"), ("a", "2"), ("cat", "1"), ("dog", "1"), ("z", "1")]))
    );
}

#[test]
fn rank_by_value_fails_on_a_value_that_is_no_number() {
    assert_eq!(rank_by_value(pairs(&[("a", "1"), ("b", "x")])), Err(MrError::Parse));
    assert_eq!(rank_by_value(pairs(&[("a", "")])), Err(MrError::Parse));
    assert_eq!(rank_by_value(pairs(&[])), Ok(pairs(&[])));
}

#[test]
fn sum_by_key_adds_up_each_key() {
    let sums = sum_by_key(pairs(&[("the", "2"), ("cat", "1"), ("the", "3"), ("dog", "0"), ("cat", "10")]));
    assert_eq!(sums, Ok(pairs(&[("the", "5"), ("cat", "11"), ("dog", "0")])));
}

#[test]
fn sum_by_key_fails_on_a_value_that_is_no_number() {
    assert_eq!(sum_by_key(pairs(&[("the", "2"), ("cat", "one")])), Err(MrError::Parse));
}

#[test]
fn sum_by_key_fails_when_a_total_leaves_the_range() {
    let max = u64::MAX.to_string();
    assert_eq!(sum_by_key(pairs(&[("a", &max), ("b", "1")])), Ok(pairs(&[("a", &max), ("b", "1")])));
    assert_eq!(sum_by_key(pairs(&[("a", &max), ("b", "1"), ("a", "1")])), Err(MrError::Parse));
}

#[test]
fn merge_reports_sums_across_reduce_outputs() {
    let merged = merge_reports(&texts(&["the 2\ncat 1\n", "dog 4\nthe 3\n", ""]));
    assert_eq!(merged, Ok("the 5\ndog 4\ncat 1\n".to_string()));
}

#[test]
fn merge_reports_of_nothing_is_empty() {
    assert_eq!(merge_reports(&texts(&[])), Ok(String::new()));
}

#[test]
fn merge_reports_reads_each_output_by_itself() {
    // The first output does not end in a line feed; its last line still ends there.
    let merged = merge_reports(&texts(&["a 1", "b 2\n"]));
    assert_eq!(merged, Ok("b 2\na 1\n".to_string()));
}

#[test]
fn merge_reports_fails_on_a_line_without_space() {
    assert_eq!(merge_reports(&texts(&["the 2\n", "cat,1\n"])), Err(MrError::Format));
    assert_eq!(merge_reports(&texts(&["the x\n", "cat\n"])), Err(MrError::Format));
}

#[test]
fn merge_reports_fails_on_a_value_that_is_no_number() {
    assert_eq!(merge_reports(&texts(&["the 2\n", "cat one\n"])), Err(MrError::Parse));
    assert_eq!(merge_reports(&texts(&["a b 3\n"])), Err(MrError::Parse));
}

#[test]
fn merge_reports_does_not_depend_on_the_order_of_the_outputs() {
    let a = "the 2\ncat 1\n";
    let b = "dog 1\nthe 1\n";
    let c = "cat 5\n";
    let one = merge_reports(&texts(&[a, b, c])).unwrap();
    let other = merge_reports(&texts(&[c, b, a])).unwrap();
    let mut one_lines: Vec<&str> = one.lines().collect();
    let mut other_lines: Vec<&str> = other.lines().collect();
    one_lines.sort();
    other_lines.sort();
    assert_eq!(one_lines, vec!["cat 6", "dog 1", "the 3"]);
    assert_eq!(one_lines, other_lines);
}

#[test]
fn first_bad_line_is_the_first_without_separator() {
    assert_eq!(first_bad_line("a,1\nb,2\n", ','), None);
    assert_eq!(first_bad_line("", ','), None);
    assert_eq!(first_bad_line("a,1\nb\nc\n", ','), Some(1));
    assert_eq!(first_bad_line("a\n", ','), Some(0));
    assert_eq!(first_bad_line("a 1\nb 2\nc", ' '), Some(2));
}

#[test]
fn first_bad_value_is_the_first_that_is_no_number() {
    assert_eq!(first_bad_value(&pairs(&[("a", "1"), ("b", "+2")])), None);
    assert_eq!(first_bad_value(&pairs(&[])), None);
    assert_eq!(first_bad_value(&pairs(&[("a", "1"), ("b", "x"), ("c", "")])), Some(1));
    assert_eq!(first_bad_value(&pairs(&[("a", "-1")])), Some(0));
}

#[test]
fn first_bad_report_is_the_first_with_which_the_merge_fails() {
    assert_eq!(first_bad_report(&texts(&["the 2\n", "cat 1\n"])), None);
    assert_eq!(first_bad_report(&texts(&[])), None);
    assert_eq!(
        first_bad_report(&texts(&["the 2\n", "cat\n", "dog x\n"])),
        Some((1, MrError::Format))
    );
    assert_eq!(
        first_bad_report(&texts(&["the 2\n", "cat 1\n", "dog x\n", "bad\n"])),
        Some((2, MrError::Parse))
    );
}

#[test]
fn first_bad_report_finds_the_report_that_makes_a_total_too_large() {
    let max = format!("a {}\n", u64::MAX);
    assert_eq!(first_bad_report(&texts(&[&max, "b 1\n"])), None);
    assert_eq!(
        first_bad_report(&texts(&[&max, "b 1\n", "a 1\n", "c 1\n"])),
        Some((2, MrError::Parse))
    );
}
