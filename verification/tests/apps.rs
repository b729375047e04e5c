use mapreduce::common::{MapReduce, MapReduceApp, MrError};
use mapreduce::map_reduce_apps::WordCount;
use mapreduce::map_reduce_seq::{report, SequentialMapReduce};

fn pairs(items: &[(&str, &str)]) -> Vec<(String, String)> {
    items.iter().map(|(k, v)| (k.to_string(), v.to_string())).collect()
}

fn texts(items: &[&str]) -> Vec<String> {
    items.iter().map(|s| s.to_string()).collect()
}

#[test]
fn word_count_maps_each_word_to_one() {
    let wc = WordCount {};
    assert_eq!(
        wc.map("a.txt".to_string(), "the cat the dog".to_string()),
        pairs(&[("the", "1"), ("cat", "1"), ("the", "1"), ("dog", "1")])
    );
}

#[test]
fn word_count_writes_words_in_lower_case() {
    let wc = WordCount {};
    assert_eq!(
        wc.map("a.txt".to_string(), "The CAT, the Dog7!".to_string()),
        pairs(&[("the", "1"), ("cat", "1"), ("the", "1"), ("dog7", "1")])
    );
}

#[test]
fn word_count_ignores_the_file_name() {
    let wc = WordCount {};
    assert_eq!(
        wc.map("x".to_string(), "one two".to_string()),
        wc.map("y".to_string(), "one two".to_string())
    );
}

#[test]
fn word_count_wants_word_boundaries() {
    let wc = WordCount {};
    // An underscore and an accented letter are word characters, so no boundary
    // stands between them and the letters next to them.
    assert_eq!(wc.map("a".to_string(), "foo_bar".to_string()), pairs(&[]));
    assert_eq!(wc.map("a".to_string(), "caf\u{e9} ok".to_string()), pairs(&[("ok", "1")]));
    assert_eq!(wc.map("a".to_string(), "".to_string()), pairs(&[]));
    assert_eq!(wc.map("a".to_string(), "a-b c.d".to_string()), pairs(&[("a", "1"), ("b", "1"), ("c", "1"), ("d", "1")]));
}

#[test]
fn word_count_pairs_lowers_each_word() {
    assert_eq!(WordCount::pairs(texts(&["Abc", "DEF", "x1"])), pairs(&[("abc", "1"), ("def", "1"), ("x1", "1")]));
    assert_eq!(WordCount::pairs(texts(&[])), pairs(&[]));
}

#[test]
fn word_count_reduces_to_the_number_of_values() {
    let wc = WordCount {};
    assert_eq!(wc.reduce("the".to_string(), texts(&["1", "1"])), "2");
    assert_eq!(wc.reduce("the".to_string(), texts(&[])), "0");
    assert_eq!(wc.reduce("k".to_string(), texts(&["9", "x", "", "1", "1", "1", "1", "1", "1", "1", "1"])), "11");
}

#[test]
fn sequential_run_groups_and_reduces() {
    let engine = SequentialMapReduce::new(
        pairs(&[("a.txt", "the cat the dog"), ("b.txt", "A dog")]),
        WordCount {},
    );
    assert_eq!(
        engine.run(),
        pairs(&[("the", "2"), ("cat", "1"), ("dog", "2"), ("a", "1")])
    );
}

#[test]
fn sequential_run_on_nothing() {
    let engine = SequentialMapReduce::new(pairs(&[]), WordCount {});
    assert_eq!(engine.run(), pairs(&[]));
}

#[test]
fn sequential_run_sync_gives_the_output_itself() {
    let engine = SequentialMapReduce::new(
        pairs(&[("a.txt", "the cat the dog"), ("b.txt", "A dog, a dog")]),
        WordCount {},
    );
    assert_eq!(
        engine.run_sync(),
        pairs(&[("the", "2"), ("cat", "1"), ("dog", "3"), ("a", "2")])
    );
}

/// Joins the values of a key: its results are no numbers.
struct Joined {}

impl MapReduceApp for Joined {
    fn map_spec(
        &self,
        _: vstd::seq::Seq<char>,
        _: vstd::seq::Seq<char>,
    ) -> vstd::seq::Seq<(vstd::seq::Seq<char>, vstd::seq::Seq<char>)> {
        unreachable!()
    }

    fn reduce_spec(
        &self,
        _: vstd::seq::Seq<char>,
        _: vstd::seq::Seq<vstd::seq::Seq<char>>,
    ) -> vstd::seq::Seq<char> {
        unreachable!()
    }

    fn map(&self, filename: String, contents: String) -> Vec<(String, String)> {
        contents.split(' ').map(|word| (filename.clone(), word.to_string())).collect()
    }

    fn reduce(&self, _key: String, values: Vec<String>) -> String {
        values.join("+")
    }
}

#[test]
fn sequential_run_sync_takes_any_application() {
    let input = pairs(&[("a.txt", "x y"), ("b.txt", "z")]);
    let engine = SequentialMapReduce::new(input.clone(), Joined {});
    assert_eq!(engine.run_sync(), pairs(&[("a.txt", "x+y"), ("b.txt", "z")]));
    let engine = SequentialMapReduce::new(input, Joined {});
    assert_eq!(engine.run(), pairs(&[("a.txt", "x+y"), ("b.txt", "z")]));
}

#[test]
fn the_engine_trait_runs_the_sequential_engine_to_its_report() {
    let engine: SequentialMapReduce<WordCount> = MapReduce::new(
        pairs(&[("a.txt", "the cat the dog"), ("b.txt", "A dog, a dog")]),
        WordCount {},
    );
    assert_eq!(MapReduce::run(engine), Ok("dog 3\nthe 2\na 2\ncat 1\n".to_string()));
}

#[test]
fn the_report_wants_numbers() {
    let engine: SequentialMapReduce<Joined> =
        MapReduce::new(pairs(&[("a.txt", "x y")]), Joined {});
    assert_eq!(MapReduce::run(engine), Err(MrError::Parse));
}

#[test]
fn report_orders_by_descending_number() {
    assert_eq!(
        report(pairs(&[("cat", "1"), ("the", "2"), ("dog", "1")])),
        Ok("the 2\ncat 1\ndog 1\n".to_string())
    );
}
