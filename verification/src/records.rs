//! Records as the engine stores them: one `key`, separator, `value` per line.

use vstd::prelude::*;
use crate::common::{MapReduceApp, MrError, Pair};
use crate::text::{
    amount_written, decimal_digits, decimal_string, is_digit, lemma_first_index,
    lemma_parse_decimal_round_trip, lines_of, parse_u64, parse_u64_spec, push_char, split_first,
    split_lines, split_once, without_cr,
};

verus! {

/// One record as a line: key, separator, value, line feed.
pub open spec fn record_line(pair: Pair, sep: char) -> Seq<char> {
    pair.0 + seq![sep] + pair.1 + seq!['\n']
}

/// The records as text, one line each, in order.
pub open spec fn records_text(pairs: Seq<Pair>, sep: char) -> Seq<char>
    decreases pairs.len(),
{
    if pairs.len() == 0 {
        Seq::empty()
    } else {
        records_text(pairs.drop_last(), sep) + record_line(pairs.last(), sep)
    }
}

/// Each line cut at its first separator; nothing if a line has none.
pub open spec fn fields_of(lines: Seq<Seq<char>>, sep: char) -> Option<Seq<Pair>> {
    if forall|i: int| 0 <= i < lines.len() ==> (#[trigger] split_first(lines[i], sep)) is Some {
        Some(Seq::new(lines.len(), |i: int| split_first(lines[i], sep)->0))
    } else {
        None
    }
}

/// The records that a text holds; nothing if one of its lines has no separator.
pub open spec fn records_of(text: Seq<char>, sep: char) -> Option<Seq<Pair>> {
    fields_of(lines_of(text), sep)
}

/// Writes the records one per line.
pub fn write_records(pairs: &Vec<(String, String)>, sep: char) -> (text: String)
    ensures
        text@ == records_text(pairs.deep_view(), sep),
{
    let mut text = String::new();
    let mut i: usize = 0;
    while i < pairs.len()
        invariant
            i <= pairs.len(),
            text@ == records_text(pairs.deep_view().take(i as int), sep),
        decreases pairs.len() - i,
    {
        let ghost done = pairs.deep_view().take(i as int);
        let ghost next = pairs.deep_view().take(i + 1);
        proof {
            assert(next.drop_last() =~= done);
            assert(next.last() == (pairs[i as int].0@, pairs[i as int].1@));
        }
        text.append(pairs[i].0.as_str());
        push_char(&mut text, sep);
        text.append(pairs[i].1.as_str());
        push_char(&mut text, '\n');
        assert(text@ =~= records_text(done, sep) + record_line(next.last(), sep));
        i = i + 1;
    }
    assert(pairs.deep_view().take(pairs.len() as int) =~= pairs.deep_view());
    text
}

/// Reads the records of a text. Fails on a line without separator.
pub fn read_records(text: &str, sep: char) -> (r: Result<Vec<(String, String)>, MrError>)
    ensures
        match r {
            Ok(pairs) => records_of(text@, sep) == Some(pairs.deep_view()),
            Err(e) => e == MrError::Format && records_of(text@, sep) is None,
        },
{
    let lines = split_lines(text);
    let mut pairs: Vec<(String, String)> = Vec::new();
    let mut i: usize = 0;
    while i < lines.len()
        invariant
            i <= lines.len(),
            lines.deep_view() == lines_of(text@),
            pairs.len() == i,
            forall|j: int|
                0 <= j < i ==> split_first(#[trigger] lines.deep_view()[j], sep) == Some(
                    pairs.deep_view()[j],
                ),
        decreases lines.len() - i,
    {
        match split_once(lines[i].as_str(), sep) {
            None => {
                assert(split_first(lines.deep_view()[i as int], sep) is None);
                return Err(MrError::Format);
            },
            Some((key, value)) => {
                let ghost before = pairs.deep_view();
                pairs.push((key, value));
                assert(pairs.deep_view() =~= before.push((key@, value@)));
            },
        }
        i = i + 1;
    }
    assert(pairs.deep_view() =~= Seq::new(
        lines_of(text@).len(),
        |i: int| split_first(lines_of(text@)[i], sep)->0,
    ));
    Ok(pairs)
}

/// The keys of the records, each once, in the order in which they first occur.
pub open spec fn distinct_keys(pairs: Seq<Pair>) -> Seq<Seq<char>>
    decreases pairs.len(),
{
    if pairs.len() == 0 {
        Seq::empty()
    } else {
        let keys = distinct_keys(pairs.drop_last());
        if keys.contains(pairs.last().0) {
            keys
        } else {
            keys.push(pairs.last().0)
        }
    }
}

/// The values of the records with this key, in the order of the records.
pub open spec fn values_of(pairs: Seq<Pair>, key: Seq<char>) -> Seq<Seq<char>>
    decreases pairs.len(),
{
    if pairs.len() == 0 {
        Seq::empty()
    } else if pairs.last().0 == key {
        values_of(pairs.drop_last(), key).push(pairs.last().1)
    } else {
        values_of(pairs.drop_last(), key)
    }
}

/// The records grouped by key: one group per distinct key, in order of first
/// occurrence, holding that key's values in order.
pub open spec fn grouped(pairs: Seq<Pair>) -> Seq<(Seq<char>, Seq<Seq<char>>)> {
    Seq::new(
        distinct_keys(pairs).len(),
        |i: int| (distinct_keys(pairs)[i], values_of(pairs, distinct_keys(pairs)[i])),
    )
}

/// `distinct_keys` holds exactly the keys that occur, and none twice.
pub proof fn lemma_distinct_keys(pairs: Seq<Pair>)
    ensures
        distinct_keys(pairs).no_duplicates(),
        forall|i: int| 0 <= i < pairs.len() ==> distinct_keys(pairs).contains(#[trigger] pairs[i].0),
        forall|k: Seq<char>| #[trigger]
            distinct_keys(pairs).contains(k) ==> exists|i: int|
                0 <= i < pairs.len() && #[trigger] pairs[i].0 == k,
    decreases pairs.len(),
{
    if pairs.len() > 0 {
        let init = pairs.drop_last();
        let keys = distinct_keys(init);
        lemma_distinct_keys(init);
        let last = pairs.last().0;
        assert forall|i: int| 0 <= i < pairs.len() implies distinct_keys(pairs).contains(
            #[trigger] pairs[i].0,
        ) by {
            if i < init.len() {
                assert(init[i] == pairs[i]);
                let j = choose|j: int| 0 <= j < keys.len() && keys[j] == init[i].0;
                assert(distinct_keys(pairs)[j] == pairs[i].0);
            } else if keys.contains(last) {
            } else {
                assert(keys.push(last)[keys.len() as int] == last);
            }
        }
        assert forall|k: Seq<char>| #[trigger] distinct_keys(pairs).contains(k) implies exists|
            i: int,
        |
            0 <= i < pairs.len() && #[trigger] pairs[i].0 == k by {
            if keys.contains(k) {
                let i = choose|i: int| 0 <= i < init.len() && #[trigger] init[i].0 == k;
                assert(pairs[i].0 == k);
            } else {
                assert(pairs[pairs.len() - 1].0 == k);
            }
        }
    }
}

/// A key that does not occur has no values.
pub proof fn lemma_values_of_absent(pairs: Seq<Pair>, key: Seq<char>)
    requires
        !distinct_keys(pairs).contains(key),
    ensures
        values_of(pairs, key) == Seq::<Seq<char>>::empty(),
    decreases pairs.len(),
{
    if pairs.len() > 0 {
        let init = pairs.drop_last();
        lemma_distinct_keys(pairs);
        assert(pairs[pairs.len() - 1].0 != key);
        if distinct_keys(init).contains(key) {
            let j = choose|j: int|
                0 <= j < distinct_keys(init).len() && distinct_keys(init)[j] == key;
            assert(distinct_keys(pairs)[j] == key);
        }
        lemma_values_of_absent(init, key);
    }
}

fn find_group<T>(groups: &Vec<(String, T)>, key: &String) -> (found: Option<usize>)
    ensures
        match found {
            Some(j) => j < groups.len() && groups[j as int].0@ == key@,
            None => forall|j: int| 0 <= j < groups.len() ==> (#[trigger] groups[j]).0@ != key@,
        },
{
    let mut j: usize = 0;
    while j < groups.len()
        invariant
            j <= groups.len(),
            forall|k: int| 0 <= k < j ==> (#[trigger] groups[k]).0@ != key@,
        decreases groups.len() - j,
    {
        if groups[j].0 == *key {
            return Some(j);
        }
        j = j + 1;
    }
    None
}

/// Groups the records by key.
pub fn group_by_key(pairs: Vec<(String, String)>) -> (groups: Vec<(String, Vec<String>)>)
    ensures
        groups.deep_view() == grouped(pairs.deep_view()),
{
    let ghost all = pairs.deep_view();
    let ghost items = pairs@;
    let mut groups: Vec<(String, Vec<String>)> = Vec::new();
    assert(all.take(0) =~= Seq::empty());
    assert(groups.deep_view() =~= grouped(all.take(0)));
    for pair in it: pairs
        invariant
            it.seq() == items,
            all.len() == items.len(),
            forall|j: int| 0 <= j < items.len() ==> all[j] == (items[j].0@, items[j].1@),
            groups.deep_view() == grouped(all.take(it.index() as int)),
    {
        let ghost i = it.index() as int;
        let ghost done = all.take(i);
        let ghost next = all.take(i + 1);
        let ghost before = groups.deep_view();
        let (key, value) = pair;
        proof {
            assert(next.drop_last() =~= done);
            assert(next.last() == (key@, value@));
            lemma_distinct_keys(done);
            assert(before.len() == distinct_keys(done).len());
            assert forall|j: int| 0 <= j < before.len() implies (#[trigger] groups[j]).0@
                == distinct_keys(done)[j] by {
                assert(before[j] == (groups[j].0@, groups[j].1.deep_view()));
            }
        }
        match find_group(&groups, &key) {
            Some(j) => {
                groups[j].1.push(value);
                proof {
                    assert(distinct_keys(done).contains(key@));
                    assert(distinct_keys(next) == distinct_keys(done));
                    let after = groups.deep_view();
                    assert(after.len() == grouped(next).len());
                    assert forall|m: int| 0 <= m < after.len() implies after[m] == grouped(
                        next,
                    )[m] by {
                        assert(before[m] == grouped(done)[m]);
                        if m == j {
                            assert(after[m].1 =~= before[m].1.push(value@));
                        } else {
                            assert(distinct_keys(done)[m] != distinct_keys(done)[j as int]);
                        }
                    }
                    assert(after =~= grouped(next));
                }
            },
            None => {
                proof {
                    assert forall|m: int| 0 <= m < distinct_keys(done).len() implies distinct_keys(
                        done,
                    )[m] != key@ by {
                        assert(groups[m].0@ == distinct_keys(done)[m]);
                    }
                    lemma_values_of_absent(done, key@);
                }
                let mut values: Vec<String> = Vec::new();
                values.push(value);
                groups.push((key, values));
                proof {
                    let after = groups.deep_view();
                    assert(values.deep_view() =~= seq![value@]);
                    assert(after =~~= before.push((key@, seq![value@])));
                    assert(distinct_keys(next) == distinct_keys(done).push(key@));
                    assert forall|m: int| 0 <= m < after.len() implies after[m] == grouped(
                        next,
                    )[m] by {
                        if m < before.len() {
                            assert(before[m] == grouped(done)[m]);
                            assert(distinct_keys(done).contains(distinct_keys(done)[m]));
                        } else {
                            assert(values_of(next, key@) =~= seq![value@]);
                        }
                    }
                    assert(after =~= grouped(next));
                }
            },
        }
    }
    assert(all.take(items.len() as int) =~= all);
    groups
}

/// Each group with what the application's reduce function makes of it.
pub open spec fn reduced<A: MapReduceApp>(
    app: &A,
    groups: Seq<(Seq<char>, Seq<Seq<char>>)>,
) -> Seq<Pair> {
    Seq::new(groups.len(), |i: int| (groups[i].0, app.reduce_spec(groups[i].0, groups[i].1)))
}

/// Calls the application's reduce function once per group.
pub fn reduce_groups<A: MapReduceApp>(app: &A, groups: Vec<(String, Vec<String>)>) -> (pairs:
    Vec<(String, String)>)
    ensures
        pairs.deep_view() == reduced(app, groups.deep_view()),
{
    let ghost all = groups.deep_view();
    let ghost items = groups@;
    let mut pairs: Vec<(String, String)> = Vec::new();
    for group in it: groups
        invariant
            it.seq() == items,
            all.len() == items.len(),
            forall|j: int| 0 <= j < items.len() ==> all[j] == (items[j].0@, items[j].1.deep_view()),
            pairs.len() == it.index(),
            forall|j: int| 0 <= j < it.index() ==> #[trigger] pairs.deep_view()[j] == reduced(app, all)[j],
    {
        let (key, values) = group;
        let label = key.clone();
        let value = app.reduce(key, values);
        let ghost before = pairs.deep_view();
        pairs.push((label, value));
        assert(pairs.deep_view() =~= before.push((label@, value@)));
    }
    assert(pairs.deep_view() =~= reduced(app, all));
    pairs
}

/// The number that a record's value writes; 0 where it writes none.
pub open spec fn score(pair: Pair) -> nat {
    match parse_u64_spec(pair.1) {
        Some(n) => n as nat,
        None => 0,
    }
}

/// Every value writes a number.
pub open spec fn all_numeric(pairs: Seq<Pair>) -> bool {
    forall|i: int| 0 <= i < pairs.len() ==> parse_u64_spec((#[trigger] pairs[i]).1) is Some
}

/// No record scores more than one before it.
pub open spec fn descending(pairs: Seq<Pair>) -> bool {
    forall|i: int, j: int| 0 <= i <= j < pairs.len() ==> score(pairs[i]) >= score(pairs[j])
}

/// Where a record enters a ranking: behind every record that does not score less.
pub open spec fn rank_position(ranking: Seq<Pair>, pair: Pair) -> int
    decreases ranking.len(),
{
    if ranking.len() == 0 || score(ranking[0]) < score(pair) {
        0
    } else {
        1 + rank_position(ranking.drop_first(), pair)
    }
}

/// The records by descending score; records of equal score keep their order.
pub open spec fn ranked(pairs: Seq<Pair>) -> Seq<Pair>
    decreases pairs.len(),
{
    if pairs.len() == 0 {
        Seq::empty()
    } else {
        let ranking = ranked(pairs.drop_last());
        ranking.insert(rank_position(ranking, pairs.last()), pairs.last())
    }
}

/// `rank_position` is the first position whose record scores less.
pub proof fn lemma_rank_position(ranking: Seq<Pair>, pair: Pair, p: int)
    requires
        0 <= p <= ranking.len(),
        forall|j: int| 0 <= j < p ==> score(#[trigger] ranking[j]) >= score(pair),
        p < ranking.len() ==> score(ranking[p]) < score(pair),
    ensures
        rank_position(ranking, pair) == p,
    decreases p,
{
    if p > 0 {
        let rest = ranking.drop_first();
        assert(score(ranking[0]) >= score(pair));
        assert forall|j: int| 0 <= j < p - 1 implies score(#[trigger] rest[j]) >= score(pair) by {
            assert(rest[j] == ranking[j + 1]);
        }
        lemma_rank_position(rest, pair, p - 1);
    }
}

/// The converse: what holds at the position that `rank_position` gives.
pub proof fn lemma_rank_position_bounds(ranking: Seq<Pair>, pair: Pair)
    ensures
        0 <= rank_position(ranking, pair) <= ranking.len(),
        forall|j: int|
            0 <= j < rank_position(ranking, pair) ==> score(#[trigger] ranking[j]) >= score(pair),
        rank_position(ranking, pair) < ranking.len() ==> score(
            ranking[rank_position(ranking, pair)],
        ) < score(pair),
    decreases ranking.len(),
{
    if ranking.len() == 0 || score(ranking[0]) < score(pair) {
    } else {
        let rest = ranking.drop_first();
        lemma_rank_position_bounds(rest, pair);
        assert forall|j: int| 0 <= j < rank_position(ranking, pair) implies score(
            #[trigger] ranking[j],
        ) >= score(pair) by {
            if j > 0 {
                assert(rest[j - 1] == ranking[j]);
            }
        }
    }
}

/// A ranking holds the records it was made of, each as often, by descending score.
pub proof fn lemma_ranked(pairs: Seq<Pair>)
    ensures
        ranked(pairs).len() == pairs.len(),
        ranked(pairs).to_multiset() == pairs.to_multiset(),
        descending(ranked(pairs)),
    decreases pairs.len(),
{
    broadcast use vstd::seq_lib::to_multiset_insert, vstd::seq_lib::to_multiset_build;

    if pairs.len() == 0 {
        assert(ranked(pairs) =~= pairs);
    } else {
        let init = pairs.drop_last();
        let last = pairs.last();
        let ranking = ranked(init);
        let p = rank_position(ranking, last);
        lemma_ranked(init);
        lemma_rank_position_bounds(ranking, last);
        let next = ranking.insert(p, last);
        assert(pairs =~= init.push(last));
        assert(next.to_multiset() =~= pairs.to_multiset());
        assert forall|i: int, j: int| 0 <= i <= j < next.len() implies score(next[i]) >= score(
            next[j],
        ) by {
            if j < p {
                assert(next[i] == ranking[i] && next[j] == ranking[j]);
            } else if j == p {
                if i < p {
                    assert(next[i] == ranking[i]);
                }
            } else {
                assert(next[j] == ranking[j - 1]);
                assert(score(ranking[p]) >= score(ranking[j - 1]));
                if i < p {
                    assert(next[i] == ranking[i]);
                } else if i > p {
                    assert(next[i] == ranking[i - 1]);
                }
            }
        }
    }
}

/// Orders the records by the number their value writes, largest first; records that
/// write the same number keep their order. Fails if a value writes no number.
pub fn rank_by_value(pairs: Vec<(String, String)>) -> (r: Result<Vec<(String, String)>, MrError>)
    ensures
        match r {
            Ok(ranking) => {
                &&& all_numeric(pairs.deep_view())
                &&& ranking.deep_view() == ranked(pairs.deep_view())
                &&& ranking.deep_view().to_multiset() == pairs.deep_view().to_multiset()
                &&& descending(ranking.deep_view())
            },
            Err(e) => e == MrError::Parse && !all_numeric(pairs.deep_view()),
        },
{
    let ghost all = pairs.deep_view();
    let ghost items = pairs@;
    let mut ranking: Vec<(String, String)> = Vec::new();
    let mut scores: Vec<u64> = Vec::new();
    assert(all.take(0) =~= Seq::empty());
    assert(ranking.deep_view() =~= ranked(all.take(0)));
    for pair in it: pairs
        invariant
            it.seq() == items,
            all.len() == items.len(),
            forall|j: int| 0 <= j < items.len() ==> all[j] == (items[j].0@, items[j].1@),
            all == pairs.deep_view(),
            all_numeric(all.take(it.index() as int)),
            ranking.deep_view() == ranked(all.take(it.index() as int)),
            scores.len() == ranking.len(),
            forall|j: int| 0 <= j < scores.len() ==> scores[j] == score(#[trigger] ranking.deep_view()[j]),
    {
        let ghost i = it.index() as int;
        let ghost done = all.take(i);
        let ghost next = all.take(i + 1);
        let ghost before = ranking.deep_view();
        proof {
            assert(next.drop_last() =~= done);
            assert(next.last() == all[i]);
        }
        let (key, value) = pair;
        let number = match parse_u64(value.as_str()) {
            Some(number) => number,
            None => {
                assert(parse_u64_spec(all[i].1) is None);
                return Err(MrError::Parse);
            },
        };
        let mut p: usize = 0;
        while p < scores.len() && scores[p] >= number
            invariant
                p <= scores.len() == ranking.len(),
                forall|j: int| 0 <= j < scores.len() ==> scores[j] == score(#[trigger] ranking.deep_view()[j]),
                forall|j: int| 0 <= j < p ==> score(#[trigger] ranking.deep_view()[j]) >= number,
            decreases scores.len() - p,
        {
            p = p + 1;
        }
        proof {
            assert(score(next.last()) == number);
            lemma_rank_position(before, next.last(), p as int);
        }
        ranking.insert(p, (key, value));
        scores.insert(p, number);
        proof {
            assert(ranking.deep_view() =~= before.insert(p as int, next.last()));
            assert forall|j: int| 0 <= j < next.len() implies parse_u64_spec(
                (#[trigger] next[j]).1,
            ) is Some by {
                if j < i {
                    assert(next[j] == done[j]);
                }
            }
        }
    }
    proof {
        assert(all.take(items.len() as int) =~= all);
        lemma_ranked(all);
    }
    Ok(ranking)
}

/// The sum of the numbers that the records with this key write.
pub open spec fn total_of(pairs: Seq<Pair>, key: Seq<char>) -> nat
    decreases pairs.len(),
{
    if pairs.len() == 0 {
        0
    } else if pairs.last().0 == key {
        total_of(pairs.drop_last(), key) + score(pairs.last())
    } else {
        total_of(pairs.drop_last(), key)
    }
}

/// Every key's total fits in 64 bits.
pub open spec fn totals_fit(pairs: Seq<Pair>) -> bool {
    forall|key: Seq<char>| #[trigger] total_of(pairs, key) <= u64::MAX
}

/// One record per distinct key, in order of first occurrence, whose value writes
/// the key's total.
pub open spec fn totals(pairs: Seq<Pair>) -> Seq<Pair> {
    Seq::new(
        distinct_keys(pairs).len(),
        |i: int|
            (distinct_keys(pairs)[i], decimal_digits(total_of(pairs, distinct_keys(pairs)[i]))),
    )
}

/// A key that does not occur has total 0.
pub proof fn lemma_total_of_absent(pairs: Seq<Pair>, key: Seq<char>)
    requires
        !distinct_keys(pairs).contains(key),
    ensures
        total_of(pairs, key) == 0,
    decreases pairs.len(),
{
    if pairs.len() > 0 {
        let init = pairs.drop_last();
        lemma_distinct_keys(pairs);
        assert(pairs[pairs.len() - 1].0 != key);
        if distinct_keys(init).contains(key) {
            let j = choose|j: int|
                0 <= j < distinct_keys(init).len() && distinct_keys(init)[j] == key;
            assert(distinct_keys(pairs)[j] == key);
        }
        lemma_total_of_absent(init, key);
    }
}

/// Totals only grow as records are added.
pub proof fn lemma_total_of_prefix(pairs: Seq<Pair>, k: int, key: Seq<char>)
    requires
        0 <= k <= pairs.len(),
    ensures
        total_of(pairs.take(k), key) <= total_of(pairs, key),
    decreases pairs.len(),
{
    if k == pairs.len() {
        assert(pairs.take(k) =~= pairs);
    } else {
        assert(pairs.drop_last().take(k) =~= pairs.take(k));
        lemma_total_of_prefix(pairs.drop_last(), k, key);
    }
}

/// Adds up the numbers of each key. Fails if a value writes no number or a total
/// leaves the range of 64 bits.
pub fn sum_by_key(pairs: Vec<(String, String)>) -> (r: Result<Vec<(String, String)>, MrError>)
    ensures
        match r {
            Ok(sums) => {
                &&& all_numeric(pairs.deep_view())
                &&& totals_fit(pairs.deep_view())
                &&& sums.deep_view() == totals(pairs.deep_view())
            },
            Err(e) => e == MrError::Parse && !(all_numeric(pairs.deep_view()) && totals_fit(
                pairs.deep_view(),
            )),
        },
{
    let ghost all = pairs.deep_view();
    let ghost items = pairs@;
    let mut sums: Vec<(String, u64)> = Vec::new();
    assert(all.take(0) =~= Seq::empty());
    for pair in it: pairs
        invariant
            it.seq() == items,
            all.len() == items.len(),
            forall|j: int| 0 <= j < items.len() ==> all[j] == (items[j].0@, items[j].1@),
            all == pairs.deep_view(),
            all_numeric(all.take(it.index() as int)),
            sums.len() == distinct_keys(all.take(it.index() as int)).len(),
            forall|j: int|
                0 <= j < sums.len() ==> (#[trigger] sums[j]).0@ == distinct_keys(
                    all.take(it.index() as int),
                )[j] && sums[j].1 == total_of(all.take(it.index() as int), sums[j].0@),
    {
        let ghost i = it.index() as int;
        let ghost done = all.take(i);
        let ghost next = all.take(i + 1);
        let ghost before = sums@;
        proof {
            assert(next.drop_last() =~= done);
            assert(next.last() == all[i]);
            lemma_distinct_keys(done);
        }
        let (key, value) = pair;
        let number = match parse_u64(value.as_str()) {
            Some(number) => number,
            None => {
                assert(parse_u64_spec(all[i].1) is None);
                return Err(MrError::Parse);
            },
        };
        assert(score(next.last()) == number);
        match find_group(&sums, &key) {
            Some(j) => {
                assert(distinct_keys(done)[j as int] == key@);
                assert(distinct_keys(next) == distinct_keys(done));
                match sums[j].1.checked_add(number) {
                    Some(total) => {
                        sums.set(j, (key, total));
                        assert forall|m: int| 0 <= m < sums.len() implies (#[trigger] sums[m]).0@
                            == distinct_keys(next)[m] && sums[m].1 == total_of(
                            next,
                            sums[m].0@,
                        ) by {
                            if m != j {
                                assert(sums[m] == before[m]);
                                assert(distinct_keys(done)[m] != distinct_keys(done)[j as int]);
                            }
                        }
                    },
                    None => {
                        proof {
                            assert(total_of(next, key@) > u64::MAX);
                            lemma_total_of_prefix(all, i + 1, key@);
                        }
                        return Err(MrError::Parse);
                    },
                }
            },
            None => {
                proof {
                    assert forall|m: int| 0 <= m < distinct_keys(done).len() implies distinct_keys(
                        done,
                    )[m] != key@ by {
                        assert(sums[m].0@ == distinct_keys(done)[m]);
                    }
                    lemma_total_of_absent(done, key@);
                    assert(distinct_keys(next) == distinct_keys(done).push(key@));
                }
                sums.push((key, number));
                assert forall|m: int| 0 <= m < sums.len() implies (#[trigger] sums[m]).0@
                    == distinct_keys(next)[m] && sums[m].1 == total_of(next, sums[m].0@) by {
                    if m < before.len() {
                        assert(sums[m] == before[m]);
                        assert(distinct_keys(done).contains(distinct_keys(done)[m]));
                    }
                }
            },
        }
        proof {
            assert forall|j: int| 0 <= j < next.len() implies parse_u64_spec(
                (#[trigger] next[j]).1,
            ) is Some by {
                if j < i {
                    assert(next[j] == done[j]);
                }
            }
        }
    }
    proof {
        assert(all.take(items.len() as int) =~= all);
        assert forall|key: Seq<char>| #[trigger] total_of(all, key) <= u64::MAX by {
            if distinct_keys(all).contains(key) {
                let j = choose|j: int|
                    0 <= j < distinct_keys(all).len() && distinct_keys(all)[j] == key;
                assert(sums[j].0@ == key);
            } else {
                lemma_total_of_absent(all, key);
            }
        }
    }
    let mut out: Vec<(String, String)> = Vec::new();
    let mut k: usize = 0;
    while k < sums.len()
        invariant
            k <= sums.len() == distinct_keys(all).len(),
            out.len() == k,
            forall|j: int|
                0 <= j < sums.len() ==> (#[trigger] sums[j]).0@ == distinct_keys(all)[j]
                    && sums[j].1 == total_of(all, sums[j].0@),
            forall|j: int| 0 <= j < k ==> #[trigger] out.deep_view()[j] == totals(all)[j],
        decreases sums.len() - k,
    {
        let ghost before = out.deep_view();
        let key = sums[k].0.clone();
        let total = decimal_string(sums[k].1);
        out.push((key, total));
        assert(out.deep_view() =~= before.push((key@, total@)));
        k = k + 1;
    }
    assert(out.deep_view() =~= totals(all));
    Ok(out)
}

/// The records of several texts, text after text; nothing if a line of one of them
/// has no separator.
pub open spec fn records_of_all(texts: Seq<Seq<char>>, sep: char) -> Option<Seq<Pair>>
    decreases texts.len(),
{
    if texts.len() == 0 {
        Some(Seq::empty())
    } else {
        match (records_of_all(texts.drop_last(), sep), records_of(texts.last(), sep)) {
            (Some(before), Some(last)) => Some(before + last),
            _ => None,
        }
    }
}

/// The merge of reduce outputs: every `key value` line of every output, summed by
/// key, ordered by descending total and written as `key total` lines.
pub open spec fn merged_text(reports: Seq<Seq<char>>) -> Result<Seq<char>, MrError> {
    match records_of_all(reports, ' ') {
        None => Err(MrError::Format),
        Some(rows) => if all_numeric(rows) && totals_fit(rows) {
            Ok(records_text(ranked(totals(rows)), ' '))
        } else {
            Err(MrError::Parse)
        },
    }
}

/// The values of `totals` are numbers, and the numbers are the totals.
pub proof fn lemma_totals_numeric(pairs: Seq<Pair>)
    requires
        totals_fit(pairs),
    ensures
        all_numeric(totals(pairs)),
        forall|i: int|
            0 <= i < totals(pairs).len() ==> score(#[trigger] totals(pairs)[i]) == total_of(
                pairs,
                distinct_keys(pairs)[i],
            ),
{
    assert forall|i: int| 0 <= i < totals(pairs).len() implies parse_u64_spec(
        (#[trigger] totals(pairs)[i]).1,
    ) is Some && score(totals(pairs)[i]) == total_of(pairs, distinct_keys(pairs)[i]) by {
        let total = total_of(pairs, distinct_keys(pairs)[i]);
        assert(total <= u64::MAX);
        lemma_parse_decimal_round_trip(total as u64);
    }
}

/// Merges reduce outputs into the final report. Fails with `Format` if a line has no
/// space, else with `Parse` if a value writes no number or a total leaves the range
/// of 64 bits.
pub fn merge_reports(reports: &Vec<String>) -> (r: Result<String, MrError>)
    ensures
        match r {
            Ok(text) => merged_text(reports.deep_view()) == Ok::<Seq<char>, MrError>(text@),
            Err(e) => merged_text(reports.deep_view()) == Err::<Seq<char>, MrError>(e),
        },
{
    let mut rows: Vec<(String, String)> = Vec::new();
    let mut i: usize = 0;
    assert(reports.deep_view().take(0) =~= Seq::empty());
    assert(rows.deep_view() =~= Seq::empty());
    while i < reports.len()
        invariant
            i <= reports.len(),
            records_of_all(reports.deep_view().take(i as int), ' ') == Some(rows.deep_view()),
        decreases reports.len() - i,
    {
        let ghost done = reports.deep_view().take(i as int);
        let ghost next = reports.deep_view().take(i + 1);
        proof {
            assert(next.drop_last() =~= done);
            assert(next.last() == reports[i as int]@);
        }
        match read_records(reports[i].as_str(), ' ') {
            Err(e) => {
                proof {
                    lemma_records_of_all_prefix(reports.deep_view(), i + 1, ' ');
                }
                return Err(e);
            },
            Ok(mut more) => {
                let ghost before = rows.deep_view();
                let ghost added = more.deep_view();
                rows.append(&mut more);
                assert(rows.deep_view() =~= before + added);
            },
        }
        i = i + 1;
    }
    assert(reports.deep_view().take(reports.len() as int) =~= reports.deep_view());
    let ghost all = rows.deep_view();
    let sums = sum_by_key(rows)?;
    proof {
        lemma_totals_numeric(all);
    }
    match rank_by_value(sums) {
        Ok(ranking) => Ok(write_records(&ranking, ' ')),
        Err(e) => Err(e),
    }
}

/// Once a text has a bad line, no longer list of texts has records.
pub proof fn lemma_records_of_all_prefix(texts: Seq<Seq<char>>, k: int, sep: char)
    requires
        0 <= k <= texts.len(),
        records_of_all(texts.take(k), sep) is None,
    ensures
        records_of_all(texts, sep) is None,
    decreases texts.len(),
{
    if k == texts.len() {
        assert(texts.take(k) =~= texts);
    } else {
        assert(texts.drop_last().take(k) =~= texts.take(k));
        lemma_records_of_all_prefix(texts.drop_last(), k, sep);
    }
}

/// The total over two lists of records is the sum of the totals over each.
pub proof fn lemma_total_of_concat(a: Seq<Pair>, b: Seq<Pair>, key: Seq<char>)
    ensures
        total_of(a + b, key) == total_of(a, key) + total_of(b, key),
    decreases b.len(),
{
    if b.len() == 0 {
        assert(a + b =~= a);
    } else {
        assert((a + b).drop_last() =~= a + b.drop_last());
        assert((a + b).last() == b.last());
        lemma_total_of_concat(a, b.drop_last(), key);
    }
}

/// The totals do not depend on the order of the records: two lists that hold the
/// same records, each as often, give every key the same total.
pub proof fn lemma_total_of_permutation(a: Seq<Pair>, b: Seq<Pair>, key: Seq<char>)
    requires
        a.to_multiset() == b.to_multiset(),
    ensures
        total_of(a, key) == total_of(b, key),
    decreases a.len(),
{
    broadcast use vstd::seq_lib::to_multiset_len;

    assert(a.len() == b.len()) by {
        assert(a.to_multiset().len() == a.len());
        assert(b.to_multiset().len() == b.len());
    }
    if a.len() > 0 {
        let x = a.last();
        let init = a.drop_last();
        assert(a =~= init.push(x));
        vstd::seq_lib::to_multiset_build(init, x);
        assert(a.to_multiset().count(x) > 0);
        vstd::seq_lib::to_multiset_contains(b, x);
        assert(b.contains(x));
        let i = choose|i: int| 0 <= i < b.len() && b[i] == x;
        let rest = b.remove(i);
        vstd::seq_lib::to_multiset_remove(b, i);
        assert(init.to_multiset() =~= rest.to_multiset()) by {
            assert(init.to_multiset() =~= a.to_multiset().remove(x));
        }
        lemma_total_of_permutation(init, rest, key);
        let before = b.take(i);
        let after = b.skip(i + 1);
        assert(b =~= before + seq![x] + after);
        assert(rest =~= before + after);
        lemma_total_of_concat(before, after, key);
        lemma_total_of_concat(before, seq![x], key);
        lemma_total_of_concat(before + seq![x], after, key);
        assert(seq![x].drop_last() =~= Seq::<Pair>::empty());
        assert(total_of(seq![x].drop_last(), key) == 0);
    }
}

/// The values of a key over two lists of records are its values over the first,
/// then its values over the second.
pub proof fn lemma_values_of_concat(a: Seq<Pair>, b: Seq<Pair>, key: Seq<char>)
    ensures
        values_of(a + b, key) == values_of(a, key) + values_of(b, key),
    decreases b.len(),
{
    if b.len() == 0 {
        assert(a + b =~= a);
        assert(values_of(a, key) + values_of(b, key) =~= values_of(a, key));
    } else {
        assert((a + b).drop_last() =~= a + b.drop_last());
        assert((a + b).last() == b.last());
        lemma_values_of_concat(a, b.drop_last(), key);
        if b.last().0 == key {
            assert(values_of(a + b, key) =~= values_of(a, key) + values_of(b, key));
        }
    }
}

/// A key has at most as many values as there are records.
pub proof fn lemma_values_of_len(pairs: Seq<Pair>, key: Seq<char>)
    ensures
        values_of(pairs, key).len() <= pairs.len(),
    decreases pairs.len(),
{
    if pairs.len() > 0 {
        lemma_values_of_len(pairs.drop_last(), key);
    }
}

/// Where no key occurs twice, the total of a key is the number of its one record.
pub proof fn lemma_total_of_single(rows: Seq<Pair>, key: Seq<char>, at: int)
    requires
        forall|i: int, j: int| 0 <= i < j < rows.len() ==> rows[i].0 != rows[j].0,
        0 <= at < rows.len(),
        rows[at].0 == key,
    ensures
        total_of(rows, key) == score(rows[at]),
    decreases rows.len(),
{
    let init = rows.drop_last();
    if at == rows.len() - 1 {
        lemma_total_of_none(init, key);
    } else {
        assert(rows.last().0 != key);
        lemma_total_of_single(init, key, at);
    }
}

/// A key that no record has gets total 0.
pub proof fn lemma_total_of_none(rows: Seq<Pair>, key: Seq<char>)
    requires
        forall|i: int| 0 <= i < rows.len() ==> (#[trigger] rows[i]).0 != key,
    ensures
        total_of(rows, key) == 0,
    decreases rows.len(),
{
    if rows.len() > 0 {
        assert(rows[rows.len() - 1].0 != key);
        lemma_total_of_none(rows.drop_last(), key);
    }
}

/// Records that come back as they were written: no key holds the separator, no key
/// and no value holds a line feed, and no value ends in a carriage return.
pub open spec fn writable(pairs: Seq<Pair>, sep: char) -> bool {
    forall|i: int|
        0 <= i < pairs.len() ==> {
            &&& !(#[trigger] pairs[i]).0.contains(sep)
            &&& !pairs[i].0.contains('\n')
            &&& !pairs[i].1.contains('\n')
            &&& (pairs[i].1.len() > 0 ==> pairs[i].1.last() != '\r')
        }
}

/// The text of the records begins with the line of the first record.
pub proof fn lemma_records_text_first(pairs: Seq<Pair>, sep: char)
    requires
        pairs.len() > 0,
    ensures
        records_text(pairs, sep) == record_line(pairs[0], sep) + records_text(
            pairs.drop_first(),
            sep,
        ),
    decreases pairs.len(),
{
    if pairs.len() == 1 {
        assert(pairs.drop_last() =~= Seq::<Pair>::empty());
        assert(pairs.drop_first() =~= Seq::<Pair>::empty());
        assert(records_text(pairs.drop_last(), sep) =~= Seq::<char>::empty());
        assert(records_text(pairs.drop_first(), sep) =~= Seq::<char>::empty());
        assert(pairs.last() == pairs[0]);
        assert(records_text(pairs, sep) =~= record_line(pairs[0], sep) + Seq::<char>::empty());
    } else {
        let init = pairs.drop_last();
        lemma_records_text_first(init, sep);
        assert(init.drop_first() =~= pairs.drop_first().drop_last());
        assert(pairs.drop_first().last() == pairs.last());
        assert(records_text(pairs, sep) =~= record_line(pairs[0], sep) + records_text(
            pairs.drop_first(),
            sep,
        ));
    }
}

/// Reading back what was written gives the records again.
pub proof fn lemma_records_round_trip(pairs: Seq<Pair>, sep: char)
    requires
        writable(pairs, sep),
        sep != '\n',
        sep != '\r',
    ensures
        records_of(records_text(pairs, sep), sep) == Some(pairs),
        lines_of(records_text(pairs, sep)).len() == pairs.len(),
    decreases pairs.len(),
{
    let text = records_text(pairs, sep);
    if pairs.len() == 0 {
        assert(fields_of(lines_of(text), sep)->0 =~= pairs);
    } else {
        let (key, value) = pairs[0];
        let rest = pairs.drop_first();
        let line = key + seq![sep] + value;
        lemma_records_text_first(pairs, sep);
        assert forall|i: int| 0 <= i < rest.len() implies {
            &&& !(#[trigger] rest[i]).0.contains(sep)
            &&& !rest[i].0.contains('\n')
            &&& !rest[i].1.contains('\n')
            &&& (rest[i].1.len() > 0 ==> rest[i].1.last() != '\r')
        } by {
            assert(rest[i] == pairs[i + 1]);
        }
        lemma_records_round_trip(rest, sep);
        let tail = records_text(rest, sep);
        assert(text =~= line + seq!['\n'] + tail);
        assert forall|j: int| 0 <= j < line.len() implies text[j] != '\n' by {
            if j < key.len() {
                assert(text[j] == key[j]);
            } else if j > key.len() {
                assert(text[j] == value[j - key.len() - 1]);
            }
        }
        lemma_first_index(text, '\n', line.len() as int);
        assert(text.take(line.len() as int) =~= line);
        assert(text.skip(line.len() as int + 1) =~= tail);
        assert(without_cr(line) == line) by {
            if value.len() > 0 {
                assert(line.last() == value.last());
            } else {
                assert(line.last() == sep);
            }
        }
        assert(lines_of(text) =~= seq![line] + lines_of(tail));
        assert forall|j: int| 0 <= j < key.len() implies line[j] != sep by {
            assert(line[j] == key[j]);
        }
        lemma_first_index(line, sep, key.len() as int);
        assert(line.take(key.len() as int) =~= key);
        assert(line.skip(key.len() as int + 1) =~= value);
        assert(split_first(line, sep) == Some((key, value)));
        let lines = lines_of(text);
        let others = lines_of(tail);
        assert forall|i: int| 0 <= i < lines.len() implies (#[trigger] split_first(
            lines[i],
            sep,
        )) == Some(pairs[i]) by {
            if i > 0 {
                assert(lines[i] == others[i - 1]);
                assert(split_first(others[i - 1], sep) is Some);
                assert(fields_of(others, sep)->0[i - 1] == rest[i - 1]);
            }
        }
        assert(fields_of(lines, sep)->0 =~= pairs);
    }
}

/// Line `at` is the first line that has no separator.
pub open spec fn is_first_bad_line(lines: Seq<Seq<char>>, sep: char, at: int) -> bool {
    &&& 0 <= at < lines.len()
    &&& split_first(lines[at], sep) is None
    &&& forall|j: int| 0 <= j < at ==> (#[trigger] split_first(lines[j], sep)) is Some
}

/// Record `at` is the first record whose value writes no number.
pub open spec fn is_first_bad_value(pairs: Seq<Pair>, at: int) -> bool {
    &&& 0 <= at < pairs.len()
    &&& parse_u64_spec(pairs[at].1) is None
    &&& forall|j: int| 0 <= j < at ==> parse_u64_spec((#[trigger] pairs[j]).1) is Some
}

/// Report `at` is the first report with which the merge fails: the reports before it
/// can be merged, and they cannot be merged together with it.
pub open spec fn is_first_bad_report(reports: Seq<Seq<char>>, at: int) -> bool {
    &&& 0 <= at < reports.len()
    &&& merged_text(reports.take(at + 1)) is Err
    &&& forall|k: int| 0 <= k <= at ==> merged_text(#[trigger] reports.take(k)) is Ok
}

/// Where reading the records of a text fails: the position of the first line
/// without separator. There is none exactly if the text can be read.
pub fn first_bad_line(text: &str, sep: char) -> (at: Option<usize>)
    ensures
        match at {
            Some(i) => is_first_bad_line(lines_of(text@), sep, i as int),
            None => records_of(text@, sep) is Some,
        },
        at is Some <==> records_of(text@, sep) is None,
{
    let lines = split_lines(text);
    let mut i: usize = 0;
    while i < lines.len()
        invariant
            i <= lines.len(),
            lines.deep_view() == lines_of(text@),
            forall|j: int|
                0 <= j < i ==> (#[trigger] split_first(lines.deep_view()[j], sep)) is Some,
        decreases lines.len() - i,
    {
        if split_once(lines[i].as_str(), sep).is_none() {
            assert(split_first(lines.deep_view()[i as int], sep) is None);
            return Some(i);
        }
        i = i + 1;
    }
    None
}

/// Where ranking or summing the records fails for want of a number: the position
/// of the first record whose value writes none. There is none exactly if every
/// value writes a number.
pub fn first_bad_value(pairs: &Vec<(String, String)>) -> (at: Option<usize>)
    ensures
        match at {
            Some(i) => is_first_bad_value(pairs.deep_view(), i as int),
            None => all_numeric(pairs.deep_view()),
        },
        at is Some <==> !all_numeric(pairs.deep_view()),
{
    let mut i: usize = 0;
    while i < pairs.len()
        invariant
            i <= pairs.len(),
            forall|j: int| 0 <= j < i ==> parse_u64_spec((#[trigger] pairs.deep_view()[j]).1) is Some,
        decreases pairs.len() - i,
    {
        assert(pairs.deep_view()[i as int] == (pairs[i as int].0@, pairs[i as int].1@));
        if parse_u64(pairs[i].1.as_str()).is_none() {
            return Some(i);
        }
        i = i + 1;
    }
    None
}

/// The records of the first texts are the first records of all texts.
pub proof fn lemma_records_of_all_take(texts: Seq<Seq<char>>, k: int, sep: char)
    requires
        0 <= k <= texts.len(),
        records_of_all(texts, sep) is Some,
    ensures
        records_of_all(texts.take(k), sep) is Some,
        records_of_all(texts.take(k), sep)->0.len() <= records_of_all(texts, sep)->0.len(),
        records_of_all(texts.take(k), sep)->0 == records_of_all(texts, sep)->0.take(
            records_of_all(texts.take(k), sep)->0.len() as int,
        ),
    decreases texts.len(),
{
    let all = records_of_all(texts, sep)->0;
    if k == texts.len() {
        assert(texts.take(k) =~= texts);
        assert(all.take(all.len() as int) =~= all);
    } else {
        let init = texts.drop_last();
        assert(init.take(k) =~= texts.take(k));
        lemma_records_of_all_take(init, k, sep);
        let most = records_of_all(init, sep)->0;
        let some = records_of_all(texts.take(k), sep)->0;
        assert(all.take(some.len() as int) =~= most.take(some.len() as int));
    }
}

/// A merge that fails on the first reports fails on all of them.
pub proof fn lemma_merge_fails_on(reports: Seq<Seq<char>>, k: int)
    requires
        0 <= k <= reports.len(),
        merged_text(reports.take(k)) is Err,
    ensures
        merged_text(reports) is Err,
{
    if records_of_all(reports, ' ') is Some {
        lemma_records_of_all_take(reports, k, ' ');
        let all = records_of_all(reports, ' ')->0;
        let some = records_of_all(reports.take(k), ' ')->0;
        if !all_numeric(some) {
            let i = choose|i: int| 0 <= i < some.len() && parse_u64_spec((#[trigger] some[i]).1) is None;
            assert(all[i] == some[i]);
        } else {
            let key = choose|key: Seq<char>| #[trigger] total_of(some, key) > u64::MAX;
            lemma_total_of_prefix(all, some.len() as int, key);
        }
    }
}

/// Where the merge of reduce outputs fails: the position of the first report with
/// which it fails, and how it fails there. There is none exactly if the reports can
/// be merged.
pub fn first_bad_report(reports: &Vec<String>) -> (at: Option<(usize, MrError)>)
    ensures
        match at {
            Some((i, e)) => {
                &&& is_first_bad_report(reports.deep_view(), i as int)
                &&& merged_text(reports.deep_view().take(i + 1)) == Err::<Seq<char>, MrError>(e)
            },
            None => merged_text(reports.deep_view()) is Ok,
        },
        at is Some <==> merged_text(reports.deep_view()) is Err,
{
    let ghost all = reports.deep_view();
    let mut first: Vec<String> = Vec::new();
    let mut i: usize = 0;
    proof {
        assert(first.deep_view() =~= all.take(0));
        assert(records_of_all(all.take(0), ' ') == Some(Seq::<Pair>::empty()));
        assert forall|key: Seq<char>| #[trigger] total_of(Seq::<Pair>::empty(), key) <= u64::MAX by {}
        assert(merged_text(all.take(0)) is Ok);
    }
    while i < reports.len()
        invariant
            i <= reports.len(),
            all == reports.deep_view(),
            first.deep_view() == all.take(i as int),
            forall|k: int| 0 <= k <= i ==> merged_text(#[trigger] all.take(k)) is Ok,
        decreases reports.len() - i,
    {
        let ghost before = first.deep_view();
        first.push(reports[i].clone());
        assert(first.deep_view() =~= all.take(i + 1)) by {
            assert(first.deep_view() =~= before.push(reports[i as int]@));
        }
        match merge_reports(&first) {
            Err(e) => {
                proof {
                    lemma_merge_fails_on(all, i + 1);
                }
                return Some((i, e));
            },
            Ok(_) => {},
        }
        i = i + 1;
    }
    assert(all.take(reports.len() as int) =~= all);
    None
}

/// The number that the application's result for these values writes, however
/// large; 0 where it writes none.
pub open spec fn weight<A: MapReduceApp>(app: &A, key: Seq<char>, values: Seq<Seq<char>>) -> nat {
    match amount_written(app.reduce_spec(key, values)) {
        Some(n) => n,
        None => 0,
    }
}

/// The application's results can be merged by addition: the result for any values
/// writes a number, and the result for two lists of values joined writes the sum of
/// the numbers for each.
pub open spec fn summable<A: MapReduceApp>(app: &A) -> bool {
    forall|key: Seq<char>, a: Seq<Seq<char>>, b: Seq<Seq<char>>|
        #![trigger app.reduce_spec(key, a + b)]
        {
            &&& amount_written(app.reduce_spec(key, a + b)) is Some
            &&& weight(app, key, a + b) == weight(app, key, a) + weight(app, key, b)
        }
}

/// What the records of a key are worth to a summable application: the sum of the
/// numbers of its results for each of the key's values alone.
pub open spec fn worth<A: MapReduceApp>(app: &A, pairs: Seq<Pair>, key: Seq<char>) -> nat
    decreases pairs.len(),
{
    if pairs.len() == 0 {
        0
    } else if pairs.last().0 == key {
        worth(app, pairs.drop_last(), key) + weight(app, key, seq![pairs.last().1])
    } else {
        worth(app, pairs.drop_last(), key)
    }
}

/// The rows of the reduce outputs of all partitions, partition after partition, as
/// the application reduces them.
pub open spec fn partial_rows<A: MapReduceApp>(app: &A, partitions: Seq<Seq<Pair>>) -> Seq<Pair>
    decreases partitions.len(),
{
    if partitions.len() == 0 {
        Seq::empty()
    } else {
        partial_rows(app, partitions.drop_last()) + reduced(app, grouped(partitions.last()))
    }
}

/// The result of a summable application for given values writes a number, and for
/// no values it writes 0.
pub proof fn lemma_summable_results<A: MapReduceApp>(
    app: &A,
    key: Seq<char>,
    values: Seq<Seq<char>>,
)
    requires
        summable(app),
    ensures
        amount_written(app.reduce_spec(key, values)) is Some,
        weight(app, key, Seq::<Seq<char>>::empty()) == 0,
{
    let none = Seq::<Seq<char>>::empty();
    assert(values + none =~= values);
    assert(amount_written(app.reduce_spec(key, values + none)) is Some);
    assert(none + none =~= none);
    assert(weight(app, key, none + none) == weight(app, key, none) + weight(app, key, none));
}

/// To a summable application, the values of a key are worth what its result for
/// them writes.
pub proof fn lemma_weight_is_worth<A: MapReduceApp>(app: &A, pairs: Seq<Pair>, key: Seq<char>)
    requires
        summable(app),
    ensures
        weight(app, key, values_of(pairs, key)) == worth(app, pairs, key),
    decreases pairs.len(),
{
    if pairs.len() == 0 {
        lemma_summable_results(app, key, Seq::empty());
    } else {
        let init = pairs.drop_last();
        lemma_weight_is_worth(app, init, key);
        if pairs.last().0 == key {
            let a = values_of(init, key);
            let b = seq![pairs.last().1];
            assert(values_of(pairs, key) =~= a + b);
            assert(weight(app, key, a + b) == weight(app, key, a) + weight(app, key, b));
        }
    }
}

/// The worth over two lists of records is the sum of the worths over each.
pub proof fn lemma_worth_concat<A: MapReduceApp>(
    app: &A,
    a: Seq<Pair>,
    b: Seq<Pair>,
    key: Seq<char>,
)
    ensures
        worth(app, a + b, key) == worth(app, a, key) + worth(app, b, key),
    decreases b.len(),
{
    if b.len() == 0 {
        assert(a + b =~= a);
    } else {
        assert((a + b).drop_last() =~= a + b.drop_last());
        assert((a + b).last() == b.last());
        lemma_worth_concat(app, a, b.drop_last(), key);
    }
}

/// The worth does not depend on the order of the records.
pub proof fn lemma_worth_permutation<A: MapReduceApp>(
    app: &A,
    a: Seq<Pair>,
    b: Seq<Pair>,
    key: Seq<char>,
)
    requires
        a.to_multiset() == b.to_multiset(),
    ensures
        worth(app, a, key) == worth(app, b, key),
    decreases a.len(),
{
    broadcast use vstd::seq_lib::to_multiset_len;

    assert(a.len() == b.len()) by {
        assert(a.to_multiset().len() == a.len());
        assert(b.to_multiset().len() == b.len());
    }
    if a.len() > 0 {
        let x = a.last();
        let init = a.drop_last();
        assert(a =~= init.push(x));
        vstd::seq_lib::to_multiset_build(init, x);
        assert(a.to_multiset().count(x) > 0);
        vstd::seq_lib::to_multiset_contains(b, x);
        let i = choose|i: int| 0 <= i < b.len() && b[i] == x;
        let rest = b.remove(i);
        vstd::seq_lib::to_multiset_remove(b, i);
        assert(init.to_multiset() =~= rest.to_multiset()) by {
            assert(init.to_multiset() =~= a.to_multiset().remove(x));
        }
        lemma_worth_permutation(app, init, rest, key);
        let before = b.take(i);
        let after = b.skip(i + 1);
        assert(b =~= before + seq![x] + after);
        assert(rest =~= before + after);
        lemma_worth_concat(app, before, after, key);
        lemma_worth_concat(app, before, seq![x], key);
        lemma_worth_concat(app, before + seq![x], after, key);
        assert(seq![x].drop_last() =~= Seq::<Pair>::empty());
        assert(worth(app, seq![x].drop_last(), key) == 0);
    }
}

/// In the reduce output of one partition, the total of a key is what the key's
/// records in the partition are worth.
pub proof fn lemma_total_of_partition<A: MapReduceApp>(
    app: &A,
    partition: Seq<Pair>,
    key: Seq<char>,
)
    requires
        summable(app),
        worth(app, partition, key) <= u64::MAX,
    ensures
        total_of(reduced(app, grouped(partition)), key) == worth(app, partition, key),
{
    let keys = distinct_keys(partition);
    let rows = reduced(app, grouped(partition));
    lemma_distinct_keys(partition);
    lemma_weight_is_worth(app, partition, key);
    lemma_summable_results(app, key, values_of(partition, key));
    assert forall|i: int, j: int| 0 <= i < j < rows.len() implies rows[i].0 != rows[j].0 by {
        assert(rows[i].0 == keys[i] && rows[j].0 == keys[j]);
    }
    if keys.contains(key) {
        let at = choose|at: int| 0 <= at < keys.len() && keys[at] == key;
        lemma_total_of_single(rows, key, at);
        assert(rows[at].1 == app.reduce_spec(key, values_of(partition, key)));
    } else {
        lemma_values_of_absent(partition, key);
        assert forall|i: int| 0 <= i < rows.len() implies (#[trigger] rows[i]).0 != key by {
            assert(rows[i].0 == keys[i]);
        }
        lemma_total_of_none(rows, key);
    }
}

/// Results add up: over the reduce outputs of all partitions, the total of a key is
/// what the key's records in all partitions together are worth.
pub proof fn lemma_total_of_partitions<A: MapReduceApp>(
    app: &A,
    partitions: Seq<Seq<Pair>>,
    key: Seq<char>,
)
    requires
        summable(app),
        worth(app, partitions.flatten(), key) <= u64::MAX,
    ensures
        total_of(partial_rows(app, partitions), key) == worth(app, partitions.flatten(), key),
    decreases partitions.len(),
{
    if partitions.len() > 0 {
        let init = partitions.drop_last();
        let last = partitions.last();
        assert(partitions =~= init.push(last));
        init.lemma_flatten_push(last);
        lemma_worth_concat(app, init.flatten(), last, key);
        lemma_total_of_partitions(app, init, key);
        lemma_total_of_partition(app, last, key);
        lemma_total_of_concat(partial_rows(app, init), reduced(app, grouped(last)), key);
    }
}

/// Determinism of totals: two runs of a summable application whose partitions hold
/// the same intermediate records, however the Map tasks fell to the workers and in
/// whatever order their files were read, give every key the same total, as long as
/// the total fits in 64 bits.
pub proof fn lemma_totals_deterministic<A: MapReduceApp>(
    app: &A,
    one: Seq<Seq<Pair>>,
    other: Seq<Seq<Pair>>,
    key: Seq<char>,
)
    requires
        summable(app),
        one.flatten().to_multiset() == other.flatten().to_multiset(),
        worth(app, one.flatten(), key) <= u64::MAX,
    ensures
        total_of(partial_rows(app, one), key) == total_of(partial_rows(app, other), key),
        total_of(partial_rows(app, one), key) == worth(app, one.flatten(), key),
{
    lemma_worth_permutation(app, one.flatten(), other.flatten(), key);
    lemma_total_of_partitions(app, one, key);
    lemma_total_of_partitions(app, other, key);
}

/// The numbers that the records write, in the order of the records.
pub open spec fn scores_of(pairs: Seq<Pair>) -> Seq<nat> {
    pairs.map_values(|pair: Pair| score(pair))
}

/// Two lists that hold the same things, each as often, still do so after the same
/// function is applied to every one of them.
pub proof fn lemma_map_permutation<T, U>(a: Seq<T>, b: Seq<T>, f: spec_fn(T) -> U)
    requires
        a.to_multiset() == b.to_multiset(),
    ensures
        a.map_values(f).to_multiset() == b.map_values(f).to_multiset(),
    decreases a.len(),
{
    broadcast use vstd::seq_lib::to_multiset_len;

    assert(a.len() == b.len()) by {
        assert(a.to_multiset().len() == a.len());
        assert(b.to_multiset().len() == b.len());
    }
    if a.len() == 0 {
        assert(a.map_values(f) =~= b.map_values(f));
    } else {
        let x = a.last();
        let init = a.drop_last();
        assert(a =~= init.push(x));
        vstd::seq_lib::to_multiset_build(init, x);
        assert(a.to_multiset().count(x) > 0);
        vstd::seq_lib::to_multiset_contains(b, x);
        let i = choose|i: int| 0 <= i < b.len() && b[i] == x;
        let rest = b.remove(i);
        vstd::seq_lib::to_multiset_remove(b, i);
        assert(init.to_multiset() =~= rest.to_multiset()) by {
            assert(init.to_multiset() =~= a.to_multiset().remove(x));
        }
        lemma_map_permutation(init, rest, f);
        assert(a.map_values(f) =~= init.map_values(f).push(f(x)));
        assert(b.map_values(f) =~= rest.map_values(f).insert(i, f(x)));
        vstd::seq_lib::to_multiset_build(init.map_values(f), f(x));
        vstd::seq_lib::to_multiset_insert(rest.map_values(f), i, f(x));
    }
}

/// Two lists without repetition that hold the same things hold them as often.
pub proof fn lemma_same_members<T>(a: Seq<T>, b: Seq<T>)
    requires
        a.no_duplicates(),
        b.no_duplicates(),
        forall|x: T| a.contains(x) <==> b.contains(x),
    ensures
        a.to_multiset() == b.to_multiset(),
{
    a.lemma_multiset_has_no_duplicates();
    b.lemma_multiset_has_no_duplicates();
    assert forall|x: T| a.to_multiset().count(x) == b.to_multiset().count(x) by {
        vstd::seq_lib::to_multiset_contains(a, x);
        vstd::seq_lib::to_multiset_contains(b, x);
        if a.contains(x) {
            assert(a.to_multiset().contains(x));
            assert(b.to_multiset().contains(x));
        }
    }
    assert(a.to_multiset() =~= b.to_multiset());
}

/// Two reports of the same totals differ only in the order of lines with the same
/// total: where the merge of two runs reads rows with the same keys and the same
/// total for every key, the two reports hold the same lines, each once, and the
/// totals read from top to bottom are the same in both and never grow.
pub proof fn lemma_reports_agree(one: Seq<Pair>, other: Seq<Pair>)
    requires
        forall|key: Seq<char>| distinct_keys(one).contains(key) <==> distinct_keys(other).contains(key),
        forall|key: Seq<char>| total_of(one, key) == total_of(other, key),
    ensures
        ranked(totals(one)).to_multiset() == ranked(totals(other)).to_multiset(),
        scores_of(ranked(totals(one))) == scores_of(ranked(totals(other))),
        descending(ranked(totals(one))),
        descending(ranked(totals(other))),
{
    let line = |key: Seq<char>| (key, decimal_digits(total_of(one, key)));
    let number = |pair: Pair| score(pair);
    let at_least = |a: nat, b: nat| a >= b;
    lemma_distinct_keys(one);
    lemma_distinct_keys(other);
    lemma_same_members(distinct_keys(one), distinct_keys(other));
    lemma_map_permutation(distinct_keys(one), distinct_keys(other), line);
    assert(totals(one) =~= distinct_keys(one).map_values(line));
    assert(totals(other) =~= distinct_keys(other).map_values(line));
    lemma_ranked(totals(one));
    lemma_ranked(totals(other));
    let first = ranked(totals(one));
    let second = ranked(totals(other));
    lemma_map_permutation(first, second, number);
    assert(vstd::relations::sorted_by(scores_of(first), at_least)) by {
        assert forall|i: int, j: int| 0 <= i < j < scores_of(first).len() implies #[trigger] at_least(
            scores_of(first)[i],
            scores_of(first)[j],
        ) by {
            assert(score(first[i]) >= score(first[j]));
        }
    }
    assert(vstd::relations::sorted_by(scores_of(second), at_least)) by {
        assert forall|i: int, j: int|
            0 <= i < j < scores_of(second).len() implies #[trigger] at_least(
            scores_of(second)[i],
            scores_of(second)[j],
        ) by {
            assert(score(second[i]) >= score(second[j]));
        }
    }
    assert(vstd::relations::total_ordering(at_least)) by {
        assert(vstd::relations::reflexive(at_least));
        assert(vstd::relations::antisymmetric(at_least));
        assert(vstd::relations::transitive(at_least));
        assert(vstd::relations::strongly_connected(at_least));
    }
    vstd::seq_lib::lemma_sorted_unique(scores_of(first), scores_of(second), at_least);
}

/// Some record has this key.
pub open spec fn has_key(pairs: Seq<Pair>, key: Seq<char>) -> bool {
    exists|i: int| 0 <= i < pairs.len() && (#[trigger] pairs[i]).0 == key
}

/// The distinct keys are the keys that some record has.
pub proof fn lemma_distinct_keys_has_key(pairs: Seq<Pair>, key: Seq<char>)
    ensures
        distinct_keys(pairs).contains(key) <==> has_key(pairs, key),
{
    lemma_distinct_keys(pairs);
    if has_key(pairs, key) {
        let i = choose|i: int| 0 <= i < pairs.len() && (#[trigger] pairs[i]).0 == key;
        assert(distinct_keys(pairs).contains(pairs[i].0));
    }
}

/// A key is in two lists joined exactly if it is in one of them.
pub proof fn lemma_has_key_concat(a: Seq<Pair>, b: Seq<Pair>, key: Seq<char>)
    ensures
        has_key(a + b, key) <==> has_key(a, key) || has_key(b, key),
{
    if has_key(a + b, key) {
        let i = choose|i: int| 0 <= i < (a + b).len() && (#[trigger] (a + b)[i]).0 == key;
        if i < a.len() {
            assert(a[i].0 == key);
        } else {
            assert(b[i - a.len()].0 == key);
        }
    }
    if has_key(a, key) {
        let i = choose|i: int| 0 <= i < a.len() && (#[trigger] a[i]).0 == key;
        assert((a + b)[i].0 == key);
    }
    if has_key(b, key) {
        let i = choose|i: int| 0 <= i < b.len() && (#[trigger] b[i]).0 == key;
        assert((a + b)[i + a.len()].0 == key);
    }
}

/// The reduce outputs of the partitions hold exactly the keys of their records.
pub proof fn lemma_has_key_partitions<A: MapReduceApp>(
    app: &A,
    partitions: Seq<Seq<Pair>>,
    key: Seq<char>,
)
    ensures
        has_key(partial_rows(app, partitions), key) <==> has_key(partitions.flatten(), key),
    decreases partitions.len(),
{
    if partitions.len() == 0 {
    } else {
        let init = partitions.drop_last();
        let last = partitions.last();
        let rows = reduced(app, grouped(last));
        assert(partitions =~= init.push(last));
        init.lemma_flatten_push(last);
        lemma_has_key_partitions(app, init, key);
        lemma_has_key_concat(partial_rows(app, init), rows, key);
        lemma_has_key_concat(init.flatten(), last, key);
        lemma_distinct_keys_has_key(last, key);
        if has_key(rows, key) {
            let i = choose|i: int| 0 <= i < rows.len() && (#[trigger] rows[i]).0 == key;
            assert(distinct_keys(last)[i] == key);
        }
        if distinct_keys(last).contains(key) {
            let i = choose|i: int| 0 <= i < distinct_keys(last).len() && distinct_keys(last)[i] == key;
            assert(rows[i].0 == key);
        }
    }
}

/// Two lists that hold the same records hold the same keys.
pub proof fn lemma_has_key_permutation(a: Seq<Pair>, b: Seq<Pair>, key: Seq<char>)
    requires
        a.to_multiset() == b.to_multiset(),
    ensures
        has_key(a, key) <==> has_key(b, key),
{
    if has_key(a, key) {
        let i = choose|i: int| 0 <= i < a.len() && (#[trigger] a[i]).0 == key;
        vstd::seq_lib::to_multiset_contains(a, a[i]);
        vstd::seq_lib::to_multiset_contains(b, a[i]);
        assert(a.contains(a[i]));
        let j = choose|j: int| 0 <= j < b.len() && b[j] == a[i];
        assert(b[j].0 == key);
    }
    if has_key(b, key) {
        let i = choose|i: int| 0 <= i < b.len() && (#[trigger] b[i]).0 == key;
        vstd::seq_lib::to_multiset_contains(a, b[i]);
        vstd::seq_lib::to_multiset_contains(b, b[i]);
        assert(b.contains(b[i]));
        let j = choose|j: int| 0 <= j < a.len() && a[j] == b[i];
        assert(a[j].0 == key);
    }
}

/// Two runs of a summable application over the same intermediate records, however
/// the records were spread over the partitions, end in reports that differ only in
/// the order of lines with the same total: both hold the same lines, each once, and
/// the totals read from top to bottom are the same in both and never grow.
pub proof fn lemma_runs_agree<A: MapReduceApp>(
    app: &A,
    one: Seq<Seq<Pair>>,
    other: Seq<Seq<Pair>>,
)
    requires
        summable(app),
        one.flatten().to_multiset() == other.flatten().to_multiset(),
        forall|key: Seq<char>| #[trigger] worth(app, one.flatten(), key) <= u64::MAX,
    ensures
        forall|key: Seq<char>|
            #[trigger] total_of(partial_rows(app, one), key) == worth(app, one.flatten(), key),
        forall|key: Seq<char>|
            total_of(partial_rows(app, one), key) == total_of(partial_rows(app, other), key),
        ranked(totals(partial_rows(app, one))).to_multiset() == ranked(
            totals(partial_rows(app, other)),
        ).to_multiset(),
        scores_of(ranked(totals(partial_rows(app, one)))) == scores_of(
            ranked(totals(partial_rows(app, other))),
        ),
        descending(ranked(totals(partial_rows(app, one)))),
{
    let first = partial_rows(app, one);
    let second = partial_rows(app, other);
    assert forall|key: Seq<char>|
        total_of(first, key) == total_of(second, key) && #[trigger] total_of(first, key) == worth(
            app,
            one.flatten(),
            key,
        ) by {
        assert(worth(app, one.flatten(), key) <= u64::MAX);
        lemma_totals_deterministic(app, one, other, key);
    }
    assert forall|key: Seq<char>|
        distinct_keys(first).contains(key) <==> distinct_keys(second).contains(key) by {
        lemma_distinct_keys_has_key(first, key);
        lemma_distinct_keys_has_key(second, key);
        lemma_has_key_partitions(app, one, key);
        lemma_has_key_partitions(app, other, key);
        lemma_has_key_permutation(one.flatten(), other.flatten(), key);
    }
    lemma_reports_agree(first, second);
}

/// Records that the engine can carry through its files: they come back from a
/// partition file as they were written, and no key holds a space.
pub open spec fn plain(pairs: Seq<Pair>) -> bool {
    &&& writable(pairs, ',')
    &&& forall|i: int| 0 <= i < pairs.len() ==> !(#[trigger] pairs[i]).0.contains(' ')
}

/// Every record of a ranking is one of the records that were ranked.
pub proof fn lemma_ranked_member(pairs: Seq<Pair>, j: int) -> (i: int)
    requires
        0 <= j < ranked(pairs).len(),
    ensures
        0 <= i < pairs.len(),
        pairs[i] == ranked(pairs)[j],
{
    lemma_ranked(pairs);
    let row = ranked(pairs)[j];
    vstd::seq_lib::to_multiset_contains(ranked(pairs), row);
    vstd::seq_lib::to_multiset_contains(pairs, row);
    assert(ranked(pairs).contains(row));
    choose|i: int| 0 <= i < pairs.len() && pairs[i] == row
}

/// Numbers stay numbers when two lists of rows are joined.
pub proof fn lemma_all_numeric_concat(a: Seq<Pair>, b: Seq<Pair>)
    requires
        all_numeric(a),
        all_numeric(b),
    ensures
        all_numeric(a + b),
{
    assert forall|i: int| 0 <= i < (a + b).len() implies parse_u64_spec(
        (#[trigger] (a + b)[i]).1,
    ) is Some by {
        if i < a.len() {
            assert((a + b)[i] == a[i]);
        } else {
            assert((a + b)[i] == b[i - a.len()]);
        }
    }
}

/// A text that writes a number is not empty, holds no line feed, and does not end
/// in a carriage return.
pub proof fn lemma_number_text(s: Seq<char>)
    requires
        amount_written(s) is Some,
    ensures
        s.len() > 0,
        !s.contains('\n'),
        s.last() != '\r',
{
    let digits = if s.len() > 0 && s[0] == '+' {
        s.drop_first()
    } else {
        s
    };
    assert forall|i: int| 0 <= i < s.len() implies s[i] != '\n' && s[i] != '\r' by {
        if s[0] == '+' {
            if i > 0 {
                assert(is_digit(digits[i - 1]));
            }
        } else {
            assert(is_digit(digits[i]));
        }
    }
}

/// The rows of a summable application's reduce output write numbers, as long as
/// what the keys are worth fits in 64 bits; for plain records the rows come back
/// from the output file as they were written.
pub proof fn lemma_reduced_rows<A: MapReduceApp>(app: &A, partition: Seq<Pair>)
    requires
        summable(app),
        forall|key: Seq<char>| #[trigger] worth(app, partition, key) <= u64::MAX,
    ensures
        all_numeric(reduced(app, grouped(partition))),
        all_numeric(ranked(reduced(app, grouped(partition)))),
        plain(partition) ==> writable(ranked(reduced(app, grouped(partition))), ' '),
{
    let keys = distinct_keys(partition);
    let rows = reduced(app, grouped(partition));
    lemma_distinct_keys(partition);
    assert forall|i: int| 0 <= i < rows.len() implies {
        &&& parse_u64_spec((#[trigger] rows[i]).1) is Some
        &&& amount_written(rows[i].1) is Some
        &&& (plain(partition) ==> !rows[i].0.contains(' ') && !rows[i].0.contains('\n'))
    } by {
        let values = values_of(partition, keys[i]);
        lemma_summable_results(app, keys[i], values);
        lemma_weight_is_worth(app, partition, keys[i]);
        assert(worth(app, partition, keys[i]) <= u64::MAX);
        assert(rows[i].1 == app.reduce_spec(keys[i], values));
        assert(keys.contains(keys[i]));
        let at = choose|at: int| 0 <= at < partition.len() && #[trigger] partition[at].0 == keys[i];
        assert(partition[at].0 == rows[i].0);
    }
    let ranking = ranked(rows);
    assert forall|j: int| 0 <= j < ranking.len() implies {
        &&& parse_u64_spec((#[trigger] ranking[j]).1) is Some
        &&& (plain(partition) ==> {
            &&& !ranking[j].0.contains(' ')
            &&& !ranking[j].0.contains('\n')
            &&& !ranking[j].1.contains('\n')
            &&& (ranking[j].1.len() > 0 ==> ranking[j].1.last() != '\r')
        })
    } by {
        let i = lemma_ranked_member(rows, j);
        assert(parse_u64_spec(rows[i].1) is Some);
        lemma_number_text(rows[i].1);
    }
}

/// The rows of the reduce outputs of all partitions, output after output, each
/// output by descending number.
pub open spec fn ranked_rows<A: MapReduceApp>(app: &A, partitions: Seq<Seq<Pair>>) -> Seq<Pair>
    decreases partitions.len(),
{
    if partitions.len() == 0 {
        Seq::empty()
    } else {
        ranked_rows(app, partitions.drop_last()) + ranked(
            reduced(app, grouped(partitions.last())),
        )
    }
}

/// The reduce outputs of all partitions as the workers write them.
pub open spec fn reports_of<A: MapReduceApp>(app: &A, partitions: Seq<Seq<Pair>>) -> Seq<
    Seq<char>,
> {
    Seq::new(
        partitions.len(),
        |i: int| records_text(ranked(reduced(app, grouped(partitions[i]))), ' '),
    )
}

/// What the merge reads from the reduce outputs of a summable application over
/// plain partitions: the rows of `ranked_rows`, all numbers, whose totals are what
/// the records of all partitions together are worth.
pub proof fn lemma_rows_of_reports<A: MapReduceApp>(app: &A, partitions: Seq<Seq<Pair>>)
    requires
        summable(app),
        forall|i: int| 0 <= i < partitions.len() ==> plain(#[trigger] partitions[i]),
        forall|key: Seq<char>| #[trigger] worth(app, partitions.flatten(), key) <= u64::MAX,
    ensures
        records_of_all(reports_of(app, partitions), ' ') == Some(ranked_rows(app, partitions)),
        all_numeric(ranked_rows(app, partitions)),
        forall|key: Seq<char>| #[trigger]
            total_of(ranked_rows(app, partitions), key) == worth(
                app,
                partitions.flatten(),
                key,
            ),
    decreases partitions.len(),
{
    if partitions.len() == 0 {
        assert(reports_of(app, partitions) =~= Seq::<Seq<char>>::empty());
        assert forall|key: Seq<char>| #[trigger]
            total_of(ranked_rows(app, partitions), key) == worth(
                app,
                partitions.flatten(),
                key,
            ) by {}
    } else {
        let init = partitions.drop_last();
        let last = partitions.last();
        let rows = reduced(app, grouped(last));
        assert(partitions =~= init.push(last));
        init.lemma_flatten_push(last);
        assert forall|i: int| 0 <= i < init.len() implies plain(#[trigger] init[i]) by {
            assert(init[i] == partitions[i]);
        }
        assert forall|key: Seq<char>| #[trigger] worth(app, init.flatten(), key) <= u64::MAX by {
            lemma_worth_concat(app, init.flatten(), last, key);
            assert(worth(app, partitions.flatten(), key) <= u64::MAX);
        }
        assert forall|key: Seq<char>| #[trigger] worth(app, last, key) <= u64::MAX by {
            lemma_worth_concat(app, init.flatten(), last, key);
            assert(worth(app, partitions.flatten(), key) <= u64::MAX);
        }
        lemma_rows_of_reports(app, init);
        lemma_reduced_rows(app, last);
        lemma_records_round_trip(ranked(rows), ' ');
        assert(reports_of(app, partitions).drop_last() =~= reports_of(app, init));
        assert(reports_of(app, partitions).last() == records_text(ranked(rows), ' '));
        lemma_all_numeric_concat(ranked_rows(app, init), ranked(rows));
        assert forall|key: Seq<char>| #[trigger]
            total_of(ranked_rows(app, partitions), key) == worth(
                app,
                partitions.flatten(),
                key,
            ) by {
            lemma_ranked(rows);
            lemma_total_of_permutation(ranked(rows), rows, key);
            assert(worth(app, last, key) <= u64::MAX);
            lemma_total_of_partition(app, last, key);
            lemma_total_of_concat(ranked_rows(app, init), ranked(rows), key);
            lemma_worth_concat(app, init.flatten(), last, key);
            assert(total_of(ranked_rows(app, init), key) == worth(app, init.flatten(), key));
        }
    }
}

/// The report of a summable application, whatever the partitions: over plain
/// intermediate records, the merge of the workers' reduce outputs succeeds, and it
/// gives every key what the key's records in all partitions together are worth,
/// which is the number that the application's result for all the key's values
/// writes.
pub proof fn lemma_merge_of_reports<A: MapReduceApp>(app: &A, partitions: Seq<Seq<Pair>>)
    requires
        summable(app),
        forall|i: int| 0 <= i < partitions.len() ==> plain(#[trigger] partitions[i]),
        forall|key: Seq<char>| #[trigger] worth(app, partitions.flatten(), key) <= u64::MAX,
    ensures
        merged_text(reports_of(app, partitions)) == Ok::<Seq<char>, MrError>(
            records_text(ranked(totals(ranked_rows(app, partitions))), ' '),
        ),
        forall|key: Seq<char>| #[trigger]
            total_of(ranked_rows(app, partitions), key) == weight(
                app,
                key,
                values_of(partitions.flatten(), key),
            ),
{
    lemma_rows_of_reports(app, partitions);
    assert forall|key: Seq<char>| #[trigger]
        total_of(ranked_rows(app, partitions), key) <= u64::MAX && total_of(
            ranked_rows(app, partitions),
            key,
        ) == weight(app, key, values_of(partitions.flatten(), key)) by {
        assert(worth(app, partitions.flatten(), key) <= u64::MAX);
        lemma_weight_is_worth(app, partitions.flatten(), key);
    }
}

/// The text of two lists of records joined is the text of the first, then the text
/// of the second.
pub proof fn lemma_records_text_concat(a: Seq<Pair>, b: Seq<Pair>, sep: char)
    ensures
        records_text(a + b, sep) == records_text(a, sep) + records_text(b, sep),
    decreases b.len(),
{
    if b.len() == 0 {
        assert(a + b =~= a);
        assert(records_text(a, sep) + records_text(b, sep) =~= records_text(a, sep));
    } else {
        assert((a + b).drop_last() =~= a + b.drop_last());
        assert((a + b).last() == b.last());
        lemma_records_text_concat(a, b.drop_last(), sep);
        assert(records_text(a + b, sep) =~= records_text(a, sep) + records_text(b, sep));
    }
}

/// Plain records joined to plain records are plain.
pub proof fn lemma_plain_concat(a: Seq<Pair>, b: Seq<Pair>)
    requires
        plain(a),
        plain(b),
    ensures
        plain(a + b),
{
    assert forall|i: int| 0 <= i < (a + b).len() implies {
        &&& !(#[trigger] (a + b)[i]).0.contains(',')
        &&& !(a + b)[i].0.contains(' ')
        &&& !(a + b)[i].0.contains('\n')
        &&& !(a + b)[i].1.contains('\n')
        &&& ((a + b)[i].1.len() > 0 ==> (a + b)[i].1.last() != '\r')
    } by {
        if i < a.len() {
            assert((a + b)[i] == a[i]);
        } else {
            assert((a + b)[i] == b[i - a.len()]);
        }
    }
}

} // verus!
