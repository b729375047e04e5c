//! The parallel engine: a pool of workers fed through a bounded queue, and the
//! coordinator that drives the Map phase, the Reduce phase and the final merge.

pub mod channel;
pub mod coordinator;
pub mod worker_pool;

use vstd::prelude::*;
use crate::common::{MapReduce, MapReduceApp, Pair};
use crate::mr_parallel::coordinator::{Coordinator, Phase, Run};
use crate::mr_parallel::worker_pool::{is_draw, PoolEvent};

verus! {

/// An application and the documents to run it on in parallel, each a file name and
/// the path it is read from.
pub struct ParallelMapReduce<A: MapReduceApp> {
    input: Vec<(String, String)>,
    mr_app: A,
}

impl<A: MapReduceApp> ParallelMapReduce<A> {
    /// The documents, each a file name and a path.
    pub closed spec fn input(&self) -> Seq<Pair> {
        self.input.deep_view()
    }

    /// The application.
    pub closed spec fn app(&self) -> A {
        self.mr_app
    }
}

impl<A: MapReduceApp> MapReduce<A> for ParallelMapReduce<A> {
    type Outcome = Option<(Run, A)>;

    open spec fn made_of(&self, input: Seq<Pair>, mr_app: A) -> bool {
        self.input() == input && self.app() == mr_app
    }

    /// A run in the Map phase over the engine's documents, with nothing submitted, on
    /// a pool of two workers whose identifiers were drawn and differ. Of no run
    /// nothing is said: whether there is one is left to the draw.
    open spec fn hands_back(&self, started: Option<(Run, A)>) -> bool {
        started matches Some((run, app)) ==> {
            &&& app == self.app()
            &&& run.wf()
            &&& run.files() == self.input()
            &&& is_draw(run.pool_view().ids(), 2)
            &&& run.pool_view().members().len() == 2
            &&& run.pool_view().capacity() == 2
            &&& run.phase_view() == Phase::Mapping
            &&& run.position() == 0
            &&& run.origin() == Seq::<PoolEvent>::empty()
            &&& run.pool_view().history() == Seq::<PoolEvent>::empty()
            &&& run.pool_view().outstanding() == 0
        }
    }

    fn new(input: Vec<(String, String)>, mr_app: A) -> (engine: Self) {
        Self { input, mr_app }
    }

    /// Begins a run over the documents with a pool of two workers, and hands it back
    /// with the application that the workers are to share. Nothing is submitted yet.
    /// Whether there is a run is left to the draw of the two workers' identifiers,
    /// as in `Coordinator::start_pool`.
    fn run(self) -> (started: Option<(Run, A)>) {
        let coord = Coordinator {  };
        match coord.start_pool(self.input, 2) {
            Some(run) => Some((run, self.mr_app)),
            None => None,
        }
    }
}

} // verus!
