//! Applications for the engine.

use vstd::prelude::*;
use crate::common::{MapReduceApp, MrError, Pair};
use crate::mr_parallel::worker_pool::reduce_text;
use crate::records::{
    all_numeric, distinct_keys, grouped, lemma_distinct_keys, lemma_ranked,
    lemma_all_numeric_concat, lemma_ranked_member, lemma_records_round_trip,
    lemma_total_of_concat, lemma_total_of_none, plain,
    lemma_total_of_permutation, lemma_total_of_single, lemma_values_of_absent,
    lemma_values_of_concat, lemma_values_of_len, merged_text, ranked, records_of_all,
    records_text, reduced, summable, total_of, totals, values_of, weight, writable,
};
use crate::text::{
    all_digits, amount_written, decimal_digits, decimal_string, is_digit,
    lemma_decimal_digits_value, lemma_parse_decimal_round_trip, parse_u64_spec,
};

verus! {

/// The substrings of `text` that match `pattern`, in order and without overlap, as the
/// `regex` crate finds them; nothing where the pattern is not one.
pub uninterp spec fn regex_matches(pattern: Seq<char>, text: Seq<char>) -> Option<Seq<Seq<char>>>;

/// The lower-case form of a text by the rules of Unicode.
pub uninterp spec fn lowercase_of(text: Seq<char>) -> Seq<char>;

/// `regex::Regex::new` on `pattern`, then `Regex::find_iter` on `text`: the matched
/// substrings, or `None` if the pattern does not compile.
#[verifier::external_body]
fn find_all(pattern: &str, text: &str) -> (found: Option<Vec<String>>)
    ensures
        found.deep_view() == regex_matches(pattern@, text@),
{
    match regex::Regex::new(pattern) {
        Ok(re) => Some(re.find_iter(text).map(|m| m.as_str().to_owned()).collect()),
        Err(_) => None,
    }
}

/// `str::to_lowercase`.
#[verifier::external_body]
fn to_lowercase(text: &str) -> (lower: String)
    ensures
        lower@ == lowercase_of(text@),
{
    text.to_lowercase()
}

/// Counts how often each word occurs.
pub struct WordCount {}

/// A word: letters and digits of ASCII between two word boundaries.
pub open spec fn word_pattern() -> Seq<char> {
    "\\b[a-zA-Z0-9]+\\b"@
}

/// One pair per word: the word in lower case, and `1`.
pub open spec fn word_pairs(words: Seq<Seq<char>>) -> Seq<Pair> {
    Seq::new(words.len(), |i: int| (lowercase_of(words[i]), "1"@))
}

impl WordCount {
    /// One pair per word: the word in lower case, and `1`.
    pub fn pairs(words: Vec<String>) -> (pairs: Vec<(String, String)>)
        ensures
            pairs.deep_view() == word_pairs(words.deep_view()),
    {
        let mut pairs: Vec<(String, String)> = Vec::new();
        let mut i: usize = 0;
        while i < words.len()
            invariant
                i <= words.len(),
                pairs.len() == i,
                forall|j: int|
                    0 <= j < i ==> #[trigger] pairs.deep_view()[j] == word_pairs(
                        words.deep_view(),
                    )[j],
            decreases words.len() - i,
        {
            let ghost before = pairs.deep_view();
            let word = to_lowercase(words[i].as_str());
            let one = "1".to_owned();
            pairs.push((word, one));
            assert(pairs.deep_view() =~= before.push((word@, one@)));
            i = i + 1;
        }
        assert(pairs.deep_view() =~= word_pairs(words.deep_view()));
        pairs
    }
}

impl MapReduceApp for WordCount {
    open spec fn map_spec(&self, filename: Seq<char>, contents: Seq<char>) -> Seq<Pair> {
        match regex_matches(word_pattern(), contents) {
            Some(words) => word_pairs(words),
            None => Seq::empty(),
        }
    }

    /// The number of values, in decimal.
    open spec fn reduce_spec(&self, key: Seq<char>, values: Seq<Seq<char>>) -> Seq<char> {
        decimal_digits(values.len())
    }

    fn map(&self, _filename: String, contents: String) -> (pairs: Vec<(String, String)>) {
        match find_all("\\b[a-zA-Z0-9]+\\b", contents.as_str()) {
            Some(words) => WordCount::pairs(words),
            None => {
                let none: Vec<(String, String)> = Vec::new();
                assert(none.deep_view() =~= Seq::empty());
                none
            },
        }
    }

    fn reduce(&self, _key: String, values: Vec<String>) -> (value: String) {
        decimal_string(values.len() as u64)
    }
}

/// The rows of the reduce outputs of a word count, partition after partition: in
/// each partition, every key with the number of its records there.
pub open spec fn partial_counts(partitions: Seq<Seq<Pair>>) -> Seq<Pair>
    decreases partitions.len(),
{
    if partitions.len() == 0 {
        Seq::empty()
    } else {
        partial_counts(partitions.drop_last()) + reduced(
            &WordCount {  },
            grouped(partitions.last()),
        )
    }
}

/// In the reduce output of one partition, the total of a key is the number of the
/// key's records in the partition.
pub proof fn lemma_count_of_partition(partition: Seq<Pair>, key: Seq<char>)
    requires
        partition.len() <= u64::MAX,
    ensures
        total_of(reduced(&WordCount {  }, grouped(partition)), key) == values_of(
            partition,
            key,
        ).len(),
{
    let keys = distinct_keys(partition);
    let rows = reduced(&WordCount {  }, grouped(partition));
    lemma_distinct_keys(partition);
    assert forall|i: int, j: int| 0 <= i < j < rows.len() implies rows[i].0 != rows[j].0 by {
        assert(rows[i].0 == keys[i] && rows[j].0 == keys[j]);
    }
    if keys.contains(key) {
        let at = choose|at: int| 0 <= at < keys.len() && keys[at] == key;
        lemma_total_of_single(rows, key, at);
        lemma_values_of_len(partition, key);
        lemma_parse_decimal_round_trip(values_of(partition, key).len() as u64);
    } else {
        lemma_values_of_absent(partition, key);
        assert forall|i: int| 0 <= i < rows.len() implies (#[trigger] rows[i]).0 != key by {
            assert(rows[i].0 == keys[i]);
        }
        lemma_total_of_none(rows, key);
    }
}

/// Counts add up: over the reduce outputs of all partitions, the total of a key is
/// the number of the key's records in all partitions together.
pub proof fn lemma_count_of_partitions(partitions: Seq<Seq<Pair>>, key: Seq<char>)
    requires
        partitions.flatten().len() <= u64::MAX,
    ensures
        total_of(partial_counts(partitions), key) == values_of(partitions.flatten(), key).len(),
    decreases partitions.len(),
{
    if partitions.len() > 0 {
        let init = partitions.drop_last();
        let last = partitions.last();
        assert(partitions =~= init.push(last));
        init.lemma_flatten_push(last);
        lemma_count_of_partitions(init, key);
        lemma_count_of_partition(last, key);
        lemma_total_of_concat(
            partial_counts(init),
            reduced(&WordCount {  }, grouped(last)),
            key,
        );
        lemma_values_of_concat(init.flatten(), last, key);
    }
}

/// The number of a key's records does not depend on the order of the records.
pub proof fn lemma_count_of_permutation(a: Seq<Pair>, b: Seq<Pair>, key: Seq<char>)
    requires
        a.to_multiset() == b.to_multiset(),
    ensures
        values_of(a, key).len() == values_of(b, key).len(),
    decreases a.len(),
{
    broadcast use vstd::seq_lib::to_multiset_len;

    assert(a.len() == b.len()) by {
        assert(a.to_multiset().len() == a.len());
        assert(b.to_multiset().len() == b.len());
    }
    if a.len() > 0 {
        let x = a.last();
        let init = a.drop_last();
        assert(a =~= init.push(x));
        vstd::seq_lib::to_multiset_build(init, x);
        assert(a.to_multiset().count(x) > 0);
        vstd::seq_lib::to_multiset_contains(b, x);
        let i = choose|i: int| 0 <= i < b.len() && b[i] == x;
        let rest = b.remove(i);
        vstd::seq_lib::to_multiset_remove(b, i);
        assert(init.to_multiset() =~= rest.to_multiset()) by {
            assert(init.to_multiset() =~= a.to_multiset().remove(x));
        }
        lemma_count_of_permutation(init, rest, key);
        let before = b.take(i);
        let after = b.skip(i + 1);
        assert(b =~= before + seq![x] + after);
        assert(rest =~= before + after);
        lemma_values_of_concat(before, after, key);
        lemma_values_of_concat(before, seq![x], key);
        lemma_values_of_concat(before + seq![x], after, key);
        assert(seq![x].drop_last() =~= Seq::<Pair>::empty());
        assert(values_of(seq![x].drop_last(), key) =~= Seq::<Seq<char>>::empty());
    }
}

/// Determinism of totals: two runs of a word count whose partitions hold the same
/// intermediate records, however the Map tasks fell to the workers and in whatever
/// order their files were read, give every key the same total.
pub proof fn lemma_word_count_totals(
    one: Seq<Seq<Pair>>,
    other: Seq<Seq<Pair>>,
    key: Seq<char>,
)
    requires
        one.flatten().to_multiset() == other.flatten().to_multiset(),
        one.flatten().len() <= u64::MAX,
    ensures
        total_of(partial_counts(one), key) == total_of(partial_counts(other), key),
{
    broadcast use vstd::seq_lib::to_multiset_len;

    assert(one.flatten().len() == other.flatten().len()) by {
        assert(one.flatten().to_multiset().len() == one.flatten().len());
        assert(other.flatten().to_multiset().len() == other.flatten().len());
    }
    lemma_count_of_partitions(one, key);
    lemma_count_of_partitions(other, key);
    lemma_count_of_permutation(one.flatten(), other.flatten(), key);
}

/// The rows of the reduce output of a word count over one partition.
pub open spec fn count_rows(partition: Seq<Pair>) -> Seq<Pair> {
    ranked(reduced(&WordCount {  }, grouped(partition)))
}

/// The rows of the reduce outputs of all partitions, output after output.
pub open spec fn all_count_rows(partitions: Seq<Seq<Pair>>) -> Seq<Pair>
    decreases partitions.len(),
{
    if partitions.len() == 0 {
        Seq::empty()
    } else {
        all_count_rows(partitions.drop_last()) + count_rows(partitions.last())
    }
}

/// The reduce outputs of all partitions as the workers write them.
pub open spec fn count_reports(partitions: Seq<Seq<Pair>>) -> Seq<Seq<char>> {
    Seq::new(partitions.len(), |i: int| records_text(count_rows(partitions[i]), ' '))
}

/// The rows of a word count's reduce output: numbers as values, and, for plain
/// records, rows that come back from the output file as they were written.
pub proof fn lemma_count_rows(partition: Seq<Pair>)
    requires
        partition.len() <= u64::MAX,
    ensures
        all_numeric(reduced(&WordCount {  }, grouped(partition))),
        all_numeric(count_rows(partition)),
        plain(partition) ==> writable(count_rows(partition), ' '),
{
    let keys = distinct_keys(partition);
    let rows = reduced(&WordCount {  }, grouped(partition));
    lemma_distinct_keys(partition);
    assert forall|i: int| 0 <= i < rows.len() implies {
        &&& parse_u64_spec((#[trigger] rows[i]).1) is Some
        &&& all_digits(rows[i].1)
        &&& rows[i].1.len() > 0
        &&& (plain(partition) ==> !rows[i].0.contains(' ') && !rows[i].0.contains('\n'))
    } by {
        let n = values_of(partition, keys[i]).len();
        lemma_values_of_len(partition, keys[i]);
        lemma_parse_decimal_round_trip(n as u64);
        lemma_decimal_digits_value(n);
        assert(rows[i].0 == keys[i]);
        assert(keys.contains(keys[i]));
        let at = choose|at: int| 0 <= at < partition.len() && #[trigger] partition[at].0 == keys[i];
        assert(partition[at].0 == rows[i].0);
    }
    let ranking = count_rows(partition);
    assert forall|j: int| 0 <= j < ranking.len() implies {
        &&& parse_u64_spec((#[trigger] ranking[j]).1) is Some
        &&& (plain(partition) ==> {
            &&& !ranking[j].0.contains(' ')
            &&& !ranking[j].0.contains('\n')
            &&& !ranking[j].1.contains('\n')
            &&& (ranking[j].1.len() > 0 ==> ranking[j].1.last() != '\r')
        })
    } by {
        let i = lemma_ranked_member(rows, j);
        let value = rows[i].1;
        assert(parse_u64_spec(rows[i].1) is Some);
        assert forall|m: int| 0 <= m < value.len() implies value[m] != '\n' && value[m]
            != '\r' by {
            assert(is_digit(value[m]));
        }
    }
}

/// A worker that reduces the partition file of plain records writes the rows of
/// `count_rows`.
pub proof fn lemma_reduce_of_written(partition: Seq<Pair>)
    requires
        writable(partition, ','),
        partition.len() <= u64::MAX,
    ensures
        reduce_text(&WordCount {  }, records_text(partition, ',')) == Ok::<Seq<char>, MrError>(
            records_text(count_rows(partition), ' '),
        ),
{
    lemma_records_round_trip(partition, ',');
    lemma_count_rows(partition);
}

/// What the merge reads from the reduce outputs of plain partitions: the rows of
/// `all_count_rows`, all numbers, whose totals are the counts over all partitions.
pub proof fn lemma_rows_of_count_reports(partitions: Seq<Seq<Pair>>)
    requires
        forall|i: int| 0 <= i < partitions.len() ==> plain(#[trigger] partitions[i]),
        partitions.flatten().len() <= u64::MAX,
    ensures
        records_of_all(count_reports(partitions), ' ') == Some(all_count_rows(partitions)),
        all_numeric(all_count_rows(partitions)),
        forall|key: Seq<char>| #[trigger]
            total_of(all_count_rows(partitions), key) == values_of(
                partitions.flatten(),
                key,
            ).len(),
    decreases partitions.len(),
{
    if partitions.len() == 0 {
        assert(count_reports(partitions) =~= Seq::<Seq<char>>::empty());
        assert forall|key: Seq<char>| #[trigger]
            total_of(all_count_rows(partitions), key) == values_of(
                partitions.flatten(),
                key,
            ).len() by {}
    } else {
        let init = partitions.drop_last();
        let last = partitions.last();
        assert(partitions =~= init.push(last));
        init.lemma_flatten_push(last);
        assert forall|i: int| 0 <= i < init.len() implies plain(#[trigger] init[i]) by {
            assert(init[i] == partitions[i]);
        }
        lemma_rows_of_count_reports(init);
        lemma_count_rows(last);
        lemma_records_round_trip(count_rows(last), ' ');
        assert(count_reports(partitions).drop_last() =~= count_reports(init));
        assert(count_reports(partitions).last() == records_text(count_rows(last), ' '));
        lemma_all_numeric_concat(all_count_rows(init), count_rows(last));
        assert forall|key: Seq<char>| #[trigger]
            total_of(all_count_rows(partitions), key) == values_of(
                partitions.flatten(),
                key,
            ).len() by {
            let rows = reduced(&WordCount {  }, grouped(last));
            lemma_ranked(rows);
            lemma_total_of_permutation(count_rows(last), rows, key);
            lemma_count_of_partition(last, key);
            lemma_total_of_concat(all_count_rows(init), count_rows(last), key);
            lemma_values_of_concat(init.flatten(), last, key);
            assert(total_of(all_count_rows(init), key) == values_of(init.flatten(), key).len());
        }
    }
}

/// The report of a word count, whatever the partitions: over plain intermediate
/// records, the merge of the workers' reduce outputs succeeds, and it gives every
/// key the number of the key's records in all partitions together. So the totals
/// are those of the records alone, not of how they were spread over the workers.
pub proof fn lemma_word_count_report(partitions: Seq<Seq<Pair>>)
    requires
        forall|i: int| 0 <= i < partitions.len() ==> plain(#[trigger] partitions[i]),
        partitions.flatten().len() <= u64::MAX,
    ensures
        merged_text(count_reports(partitions)) == Ok::<Seq<char>, MrError>(
            records_text(ranked(totals(all_count_rows(partitions))), ' '),
        ),
        forall|key: Seq<char>| #[trigger]
            total_of(all_count_rows(partitions), key) == values_of(
                partitions.flatten(),
                key,
            ).len(),
{
    lemma_rows_of_count_reports(partitions);
    assert forall|key: Seq<char>| #[trigger]
        total_of(all_count_rows(partitions), key) <= u64::MAX by {
        lemma_values_of_len(partitions.flatten(), key);
    }
}

/// The results of a word count can be merged by addition.
pub proof fn lemma_word_count_summable()
    ensures
        summable(&WordCount {  }),
{
    let app = WordCount {  };
    assert forall|key: Seq<char>, a: Seq<Seq<char>>, b: Seq<Seq<char>>|
        #![trigger app.reduce_spec(key, a + b)]
        amount_written(app.reduce_spec(key, a + b)) is Some && weight(&app, key, a + b) == weight(
            &app,
            key,
            a,
        ) + weight(&app, key, b) by {
        lemma_count_written(a.len());
        lemma_count_written(b.len());
        lemma_count_written((a + b).len());
    }
}

/// The decimal writing of a number writes that number.
pub proof fn lemma_count_written(n: nat)
    ensures
        amount_written(decimal_digits(n)) == Some(n),
{
    lemma_decimal_digits_value(n);
    assert(is_digit(decimal_digits(n)[0]));
}

} // verus!
