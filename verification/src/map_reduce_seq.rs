//! The engine without workers: every document is mapped, the pairs are grouped and
//! each group is reduced, one after the other. A baseline for the parallel engine.

use vstd::prelude::*;
use crate::common::{MapReduce, MapReduceApp, MrError, Pair};
use crate::records::{
    all_numeric, group_by_key, grouped, rank_by_value, ranked, records_text, reduce_groups,
    reduced, write_records,
};

verus! {

/// The pairs that the application maps from the documents, document after document.
pub open spec fn mapped<A: MapReduceApp>(app: &A, input: Seq<Pair>) -> Seq<Pair>
    decreases input.len(),
{
    if input.len() == 0 {
        Seq::empty()
    } else {
        mapped(app, input.drop_last()) + app.map_spec(input.last().0, input.last().1)
    }
}

/// One pair per distinct key, in order of first occurrence: the key and what the
/// application reduces its values to.
pub open spec fn output_of<A: MapReduceApp>(app: &A, input: Seq<Pair>) -> Seq<Pair> {
    reduced(app, grouped(mapped(app, input)))
}

/// The output as a report: ordered by descending number, one `key value` line each.
pub open spec fn report_of(output: Seq<Pair>) -> Result<Seq<char>, MrError> {
    if all_numeric(output) {
        Ok(records_text(ranked(output), ' '))
    } else {
        Err(MrError::Parse)
    }
}

/// An application and the documents to run it on, each a file name and its contents.
pub struct SequentialMapReduce<A: MapReduceApp> {
    input: Vec<(String, String)>,
    mr_app: A,
}

impl<A: MapReduceApp> SequentialMapReduce<A> {
    /// The documents, each a file name and its contents.
    pub closed spec fn input(&self) -> Seq<Pair> {
        self.input.deep_view()
    }

    /// The application.
    pub closed spec fn app(&self) -> A {
        self.mr_app
    }

    /// An engine for these documents and this application.
    pub fn new(input: Vec<(String, String)>, mr_app: A) -> (engine: Self)
        ensures
            engine.input() == input.deep_view(),
            engine.app() == mr_app,
    {
        Self { input, mr_app }
    }

    /// Maps every document, groups the pairs by key and reduces each group.
    pub fn run(self) -> (output: Vec<(String, String)>)
        ensures
            output.deep_view() == output_of(&self.app(), self.input()),
    {
        let SequentialMapReduce { input, mr_app } = self;
        let ghost all = input.deep_view();
        let ghost items = input@;
        let mut pairs: Vec<(String, String)> = Vec::new();
        assert(all.take(0) =~= Seq::empty());
        assert(pairs.deep_view() =~= Seq::empty());
        for document in it: input
            invariant
                it.seq() == items,
                all.len() == items.len(),
                forall|j: int| 0 <= j < items.len() ==> all[j] == (items[j].0@, items[j].1@),
                pairs.deep_view() == mapped(&mr_app, all.take(it.index() as int)),
        {
            let ghost i = it.index() as int;
            let ghost before = pairs.deep_view();
            proof {
                assert(all.take(i + 1).drop_last() =~= all.take(i));
                assert(all.take(i + 1).last() == all[i]);
            }
            let (filename, contents) = document;
            let mut more = mr_app.map(filename, contents);
            let ghost added = more.deep_view();
            pairs.append(&mut more);
            assert(pairs.deep_view() =~= before + added);
        }
        assert(all.take(items.len() as int) =~= all);
        reduce_groups(&mr_app, group_by_key(pairs))
    }

    /// The output of the engine over its documents, once their contents are read:
    /// one pair per distinct key, whatever the application's results are.
    pub fn run_sync(self) -> (output: Vec<(String, String)>)
        ensures
            output.deep_view() == output_of(&self.app(), self.input()),
    {
        self.run()
    }
}

impl<A: MapReduceApp> MapReduce<A> for SequentialMapReduce<A> {
    type Outcome = Result<String, MrError>;

    open spec fn made_of(&self, input: Seq<Pair>, mr_app: A) -> bool {
        self.input() == input && self.app() == mr_app
    }

    /// The report of the engine's output, or `Parse` where a result of the
    /// application writes no number.
    open spec fn hands_back(&self, outcome: Result<String, MrError>) -> bool {
        match outcome {
            Ok(text) => report_of(output_of(&self.app(), self.input())) == Ok::<
                Seq<char>,
                MrError,
            >(text@),
            Err(e) => report_of(output_of(&self.app(), self.input())) == Err::<
                Seq<char>,
                MrError,
            >(e),
        }
    }

    fn new(input: Vec<(String, String)>, mr_app: A) -> (engine: Self) {
        Self { input, mr_app }
    }

    /// Runs the engine and writes the report of its output, ordered by descending
    /// number.
    fn run(self) -> (outcome: Result<String, MrError>) {
        report(self.run_sync())
    }
}

/// The output as a report: ordered by descending number, one `key value` line each.
/// Fails if a value writes no number.
pub fn report(output: Vec<(String, String)>) -> (r: Result<String, MrError>)
    ensures
        match r {
            Ok(text) => report_of(output.deep_view()) == Ok::<Seq<char>, MrError>(text@),
            Err(e) => report_of(output.deep_view()) == Err::<Seq<char>, MrError>(e),
        },
{
    let ranking = rank_by_value(output)?;
    Ok(write_records(&ranking, ' '))
}

} // verus!
