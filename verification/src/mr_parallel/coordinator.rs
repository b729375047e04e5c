//! The coordinator: submits one Map task per document, waits until the pool has
//! drained, submits one Reduce task per worker, waits again, and merges.

use vstd::prelude::*;
use crate::common::{MapReduceApp, MrError, Pair, Task, TaskView};
use crate::mr_parallel::worker_pool::{
    is_draw, reduce_partition, reduce_text, PoolEvent, Submit, WorkerPool,
};
use crate::map_reduce_seq::{mapped, output_of};
use crate::records::{
    distinct_keys, first_bad_report, grouped, has_key, is_first_bad_report, lemma_distinct_keys,
    lemma_distinct_keys_has_key, lemma_has_key_partitions, lemma_has_key_permutation,
    lemma_merge_of_reports, lemma_plain_concat, lemma_ranked, lemma_records_round_trip,
    lemma_records_text_concat, lemma_reduced_rows, lemma_worth_permutation,
    lemma_summable_results, lemma_weight_is_worth, lemma_worth_concat, merge_reports,
    merged_text, partial_rows, plain, ranked, ranked_rows, records_text, reduced, reports_of,
    score, summable, total_of, totals, values_of, weight, worth, write_records,
};

verus! {

/// Where a run stands.
#[derive(Clone, Copy, Debug, PartialEq, Eq, Structural)]
pub enum Phase {
    /// Map tasks are being submitted, or are under way.
    Mapping,
    /// Reduce tasks are being submitted, or are under way.
    Reducing,
    /// Every task is finished; the reduce outputs can be merged.
    Combining,
}

impl Phase {
    /// The phase that follows once the pool has drained.
    pub open spec fn following(self) -> Phase {
        match self {
            Phase::Mapping => Phase::Reducing,
            _ => Phase::Combining,
        }
    }

    /// The phase that follows once the pool has drained.
    pub fn next_phase(self) -> (phase: Phase)
        ensures
            phase == self.following(),
    {
        match self {
            Phase::Mapping => Phase::Reducing,
            _ => Phase::Combining,
        }
    }
}

/// What one step of a run did.
#[derive(Clone, Copy, Debug, PartialEq, Eq, Structural)]
pub enum Step {
    /// The queue took the next task of the phase.
    Submitted,
    /// The queue is full; the same task is offered again at the next step.
    QueueFull,
    /// Every task of the phase was submitted and finished; the next phase began.
    Drained,
    /// Every task of the phase was submitted; some are not finished.
    Pending,
    /// Nothing is left to do.
    Finished,
}

/// Everything a run does with its pool, in order: a Map task for each document, the
/// barrier, a Reduce task for each worker, the barrier.
pub open spec fn plan(files: Seq<Pair>, ids: Seq<Seq<char>>) -> Seq<PoolEvent> {
    Seq::new(files.len(), |i: int| PoolEvent::Submitted(TaskView::MapFile(files[i].0, files[i].1)))
        + seq![PoolEvent::Drained] + Seq::new(
        ids.len(),
        |i: int| PoolEvent::Submitted(TaskView::Reduce(ids[i])),
    ) + seq![PoolEvent::Drained]
}

/// How much of the plan is done in a phase of which `next` tasks are submitted.
pub open spec fn position_of(phase: Phase, next: nat, files: nat, workers: nat) -> nat {
    match phase {
        Phase::Mapping => next,
        Phase::Reducing => files + 1 + next,
        Phase::Combining => files + workers + 2,
    }
}

/// The reduce outputs of a run in which every document is a partition of its own,
/// in the order of the documents; the failure of the first partition that cannot be
/// reduced, if there is one.
pub open spec fn single_reports<A: MapReduceApp>(app: &A, documents: Seq<Pair>) -> Result<
    Seq<Seq<char>>,
    MrError,
>
    decreases documents.len(),
{
    if documents.len() == 0 {
        Ok(Seq::empty())
    } else {
        let partition = records_text(app.map_spec(documents.last().0, documents.last().1), ',');
        match (single_reports(app, documents.drop_last()), reduce_text(app, partition)) {
            (Err(e), _) => Err(e),
            (Ok(_), Err(e)) => Err(e),
            (Ok(reports), Ok(report)) => Ok(reports.push(report)),
        }
    }
}

/// The final report of such a run.
pub open spec fn naive_report<A: MapReduceApp>(app: &A, documents: Seq<Pair>) -> Result<
    Seq<char>,
    MrError,
> {
    match single_reports(app, documents) {
        Err(e) => Err(e),
        Ok(reports) => merged_text(reports),
    }
}

/// The partition of one worker when the documents are dealt to `workers` workers in
/// turn: what the application maps from every document that falls to the worker,
/// document after document.
pub open spec fn share_of<A: MapReduceApp>(
    app: &A,
    documents: Seq<Pair>,
    workers: int,
    worker: int,
) -> Seq<char>
    decreases documents.len(),
{
    if documents.len() == 0 {
        Seq::empty()
    } else {
        let before = share_of(app, documents.drop_last(), workers, worker);
        if workers > 0 && (documents.len() - 1) % workers == worker {
            before + records_text(app.map_spec(documents.last().0, documents.last().1), ',')
        } else {
            before
        }
    }
}

/// The reduce outputs of the first `upto` workers over their shares, in order; the
/// failure of the first share that cannot be reduced, if there is one.
pub open spec fn dealt_reports<A: MapReduceApp>(
    app: &A,
    documents: Seq<Pair>,
    workers: int,
    upto: int,
) -> Result<Seq<Seq<char>>, MrError>
    decreases upto,
{
    if upto <= 0 {
        Ok(Seq::empty())
    } else {
        match (
            dealt_reports(app, documents, workers, upto - 1),
            reduce_text(app, share_of(app, documents, workers, upto - 1)),
        ) {
            (Err(e), _) => Err(e),
            (Ok(_), Err(e)) => Err(e),
            (Ok(reports), Ok(report)) => Ok(reports.push(report)),
        }
    }
}

/// The final report of a run in which the documents are dealt to the workers in
/// turn.
pub open spec fn channels_report<A: MapReduceApp>(
    app: &A,
    documents: Seq<Pair>,
    workers: int,
) -> Result<Seq<char>, MrError> {
    match dealt_reports(app, documents, workers, workers) {
        Err(e) => Err(e),
        Ok(reports) => merged_text(reports),
    }
}

/// The first share that cannot be reduced decides how the run fails.
pub proof fn lemma_dealt_reports_prefix<A: MapReduceApp>(
    app: &A,
    documents: Seq<Pair>,
    workers: int,
    k: int,
    upto: int,
)
    requires
        0 <= k <= upto,
        dealt_reports(app, documents, workers, k) is Err,
    ensures
        dealt_reports(app, documents, workers, upto) == dealt_reports(app, documents, workers, k),
    decreases upto,
{
    if k < upto {
        lemma_dealt_reports_prefix(app, documents, workers, k, upto - 1);
    }
}

/// Drives a run: starts it, and merges its outputs at the end.
pub struct Coordinator {}

/// A run of the engine over a list of documents, each a file name and a path.
pub struct Run {
    pool: WorkerPool,
    files: Vec<(String, String)>,
    phase: Phase,
    next: usize,
    origin: Ghost<Seq<PoolEvent>>,
}

impl Run {
    /// The pool of the run.
    pub closed spec fn pool_view(&self) -> WorkerPool {
        self.pool
    }

    /// The documents of the run, each a file name and a path.
    pub closed spec fn files(&self) -> Seq<Pair> {
        self.files.deep_view()
    }

    /// The phase the run is in.
    pub closed spec fn phase_view(&self) -> Phase {
        self.phase
    }

    /// How many tasks of the current phase the queue has taken.
    pub closed spec fn submitted(&self) -> nat {
        self.next as nat
    }

    /// What the pool had done before the run began.
    pub closed spec fn origin(&self) -> Seq<PoolEvent> {
        self.origin@
    }

    /// What the run is to do, from beginning to end.
    pub open spec fn plan(&self) -> Seq<PoolEvent> {
        plan(self.files(), self.pool_view().ids())
    }

    /// How many events of the plan have happened.
    pub open spec fn position(&self) -> nat {
        position_of(
            self.phase_view(),
            self.submitted(),
            self.files().len(),
            self.pool_view().ids().len(),
        )
    }

    /// The next thing of the plan is the submission of a task.
    pub open spec fn next_is_task(&self) -> bool {
        self.position() < self.plan().len() && self.plan()[self.position() as int]
            is Submitted
    }

    /// The next thing of the plan is a barrier: every task of the phase is submitted.
    pub open spec fn next_is_barrier(&self) -> bool {
        self.position() < self.plan().len() && self.plan()[self.position() as int]
            is Drained
    }

    /// Neither the queue nor the workers have a say in how the run goes on: it is
    /// finished, or only its last barrier is left and no task is outstanding.
    pub open spec fn is_settled(&self) -> bool {
        ||| self.phase_view() == Phase::Combining
        ||| self.phase_view() == Phase::Reducing && self.next_is_barrier()
            && self.pool_view().outstanding() == 0
    }

    /// The run cannot go on by itself: its next task waits for the queue to take it,
    /// or a task that was submitted is not finished.
    pub open spec fn is_held(&self) -> bool {
        self.next_is_task() || self.pool_view().outstanding() > 0
    }

    /// What the run has done so far.
    pub open spec fn events(&self) -> Seq<PoolEvent> {
        self.plan().take(self.position() as int)
    }

    /// The run has done the first `position()` events of its plan, in the order of the
    /// plan, and nothing else. This holds of every run there is.
    #[verifier::type_invariant]
    pub open spec fn wf(&self) -> bool {
        &&& self.pool_view().wf()
        &&& match self.phase_view() {
            Phase::Mapping => self.submitted() <= self.files().len(),
            Phase::Reducing => self.submitted() <= self.pool_view().ids().len(),
            Phase::Combining => true,
        }
        &&& self.pool_view().history() == self.origin() + self.events()
    }

    /// The pool of the run: its workers, and the channels for their threads.
    pub fn pool(&self) -> (pool: &WorkerPool)
        ensures
            *pool == self.pool_view(),
    {
        &self.pool
    }

    /// The phase the run is in.
    pub fn phase(&self) -> (phase: Phase)
        ensures
            phase == self.phase_view(),
    {
        self.phase
    }

    /// Begins a run on a pool. There is none on a pool whose workers cannot form
    /// one.
    pub fn begin(pool: WorkerPool, files: Vec<(String, String)>) -> (made: Option<Run>)
        ensures
            made is Some <==> pool.wf(),
            made matches Some(run) ==> {
                &&& run.wf()
                &&& run.pool_view() == pool
                &&& run.files() == files.deep_view()
                &&& run.phase_view() == Phase::Mapping
                &&& run.submitted() == 0
                &&& run.origin() == pool.history()
            },
    {
        if !pool.is_well_formed() {
            return None;
        }
        let ghost origin = pool.history();
        proof {
            let events = plan(files.deep_view(), pool.ids()).take(0);
            assert(events =~= Seq::empty());
            assert(origin + events =~= origin);
        }
        Some(Run { pool, files, phase: Phase::Mapping, next: 0, origin: Ghost(origin) })
    }

    /// Does the next thing of the plan if it can be done without waiting: offers the
    /// next task to the queue, or, when every task of the phase is submitted, looks
    /// whether all are finished and moves on to the next phase. A Reduce task is
    /// submitted only after the pool has drained of all Map tasks.
    pub fn step(self) -> (out: (Run, Result<Step, MrError>))
        ensures
            out.0.wf(),
            out.0.files() == self.files(),
            out.0.origin() == self.origin(),
            out.0.pool_view().members() == self.pool_view().members(),
            out.0.pool_view().capacity() == self.pool_view().capacity(),
            out.0.pool_view().job_queue() == self.pool_view().job_queue(),
            out.0.pool_view().done_channel() == self.pool_view().done_channel(),
            match out.1 {
                Ok(Step::Submitted) => {
                    &&& self.next_is_task()
                    &&& out.0.position() == self.position() + 1
                    &&& out.0.pool_view().outstanding() == self.pool_view().outstanding() + 1
                },
                Ok(Step::QueueFull) => {
                    &&& self.next_is_task()
                    &&& out.0.position() == self.position()
                    &&& out.0.pool_view().outstanding() == self.pool_view().outstanding()
                },
                Ok(Step::Drained) => {
                    &&& self.next_is_barrier()
                    &&& out.0.position() == self.position() + 1
                    &&& out.0.pool_view().outstanding() == 0
                },
                Ok(Step::Pending) => {
                    &&& self.next_is_barrier()
                    &&& out.0.position() == self.position()
                    &&& 0 < out.0.pool_view().outstanding() <= self.pool_view().outstanding()
                },
                Ok(Step::Finished) => {
                    &&& self.phase_view() == Phase::Combining
                    &&& out.0.position() == self.position()
                    &&& out.0.pool_view().outstanding() == self.pool_view().outstanding()
                },
                Err(e) => {
                    &&& e == MrError::QueueClosed
                    &&& self.phase_view() != Phase::Combining
                    &&& out.0.position() == self.position()
                    &&& out.0.phase_view() == self.phase_view()
                    &&& out.0.is_held()
                },
            },
            self.phase_view() == Phase::Combining ==> out.1 == Ok::<Step, MrError>(Step::Finished),
            self.next_is_barrier() && self.pool_view().outstanding() == 0 ==> out.1 == Ok::<
                Step,
                MrError,
            >(Step::Drained),
    {
        proof {
            use_type_invariant(&self);
        }
        let ghost before = self;
        let ghost at = self.position() as int;
        let ghost whole = self.plan();
        let Run { mut pool, files, phase, next, origin } = self;
        let task = match phase {
            Phase::Combining => {
                return (Run { pool, files, phase, next, origin }, Ok(Step::Finished));
            },
            Phase::Mapping => {
                if next < files.len() {
                    let file = &files[next];
                    assert(files.deep_view()[next as int] == (file.0@, file.1@));
                    Some(Task::MapFile(file.0.clone(), file.1.clone()))
                } else {
                    None
                }
            },
            Phase::Reducing => {
                let workers = pool.workers();
                if next < workers.len() {
                    Some(Task::Reduce(workers[next].id.clone()))
                } else {
                    None
                }
            },
        };
        match task {
            Some(task) => {
                assert(whole[at] == PoolEvent::Submitted(task@));
                let outcome = pool.run_task(task);
                Run::after_offer(pool, files, phase, next, origin, outcome, Ghost(before))
            },
            None => {
                assert(whole[at] == PoolEvent::Drained);
                let drained = pool.wait();
                Run::after_wait(pool, files, phase, next, origin, drained, Ghost(before))
            },
        }
    }

    /// The run after the queue has answered the offer of the next task of `before`: a
    /// task that was sent is the next event of the plan; after one that was not, the
    /// run stands where it stood, and a closed queue ends it.
    fn after_offer(
        pool: WorkerPool,
        files: Vec<(String, String)>,
        phase: Phase,
        next: usize,
        origin: Ghost<Seq<PoolEvent>>,
        outcome: Submit,
        Ghost(before): Ghost<Run>,
    ) -> (out: (Run, Result<Step, MrError>))
        requires
            before.wf(),
            before.next_is_task(),
            files.deep_view() == before.files(),
            phase == before.phase_view(),
            next == before.submitted(),
            origin@ == before.origin(),
            pool.members() == before.pool_view().members(),
            match outcome {
                Submit::Sent => {
                    &&& pool.outstanding() == before.pool_view().outstanding() + 1
                    &&& pool.history() == before.pool_view().history().push(
                        before.plan()[before.position() as int],
                    )
                },
                _ => {
                    &&& pool.outstanding() == before.pool_view().outstanding()
                    &&& pool.history() == before.pool_view().history()
                },
            },
        ensures
            out.0.wf(),
            out.0.pool_view() == pool,
            out.0.files() == before.files(),
            out.0.origin() == before.origin(),
            match outcome {
                Submit::Sent => {
                    &&& out.1 == Ok::<Step, MrError>(Step::Submitted)
                    &&& out.0.position() == before.position() + 1
                },
                Submit::Full(_) => {
                    &&& out.1 == Ok::<Step, MrError>(Step::QueueFull)
                    &&& out.0.position() == before.position()
                },
                Submit::Closed(_) => {
                    &&& out.1 == Err::<Step, MrError>(MrError::QueueClosed)
                    &&& out.0.position() == before.position()
                },
            },
    {
        let ghost at = before.position() as int;
        let ghost whole = before.plan();
        let ghost events = before.events();
        let workers = pool.workers().len();
        assert(next < files.len() || next < workers);
        match outcome {
            Submit::Sent => {
                assert(whole.take(at + 1) =~= events.push(whole[at]));
                assert(origin@ + events.push(whole[at]) =~= (origin@ + events).push(whole[at]));
                (Run { pool, files, phase, next: next + 1, origin }, Ok(Step::Submitted))
            },
            Submit::Full(_) => (Run { pool, files, phase, next, origin }, Ok(Step::QueueFull)),
            Submit::Closed(_) => (
                Run { pool, files, phase, next, origin },
                Err(MrError::QueueClosed),
            ),
        }
    }

    /// The run after the pool has looked for the notices of the phase of `before`, of
    /// which every task is submitted: a drained pool opens the next phase; with a
    /// task still outstanding the run stands where it stood, and a closed channel
    /// ends it.
    fn after_wait(
        pool: WorkerPool,
        files: Vec<(String, String)>,
        phase: Phase,
        next: usize,
        origin: Ghost<Seq<PoolEvent>>,
        drained: Result<bool, MrError>,
        Ghost(before): Ghost<Run>,
    ) -> (out: (Run, Result<Step, MrError>))
        requires
            before.wf(),
            before.next_is_barrier(),
            files.deep_view() == before.files(),
            phase == before.phase_view(),
            next == before.submitted(),
            origin@ == before.origin(),
            pool.members() == before.pool_view().members(),
            pool.history() == if drained == Ok::<bool, MrError>(true) {
                before.pool_view().history().push(PoolEvent::Drained)
            } else {
                before.pool_view().history()
            },
        ensures
            out.0.wf(),
            out.0.pool_view() == pool,
            out.0.files() == before.files(),
            out.0.origin() == before.origin(),
            match drained {
                Ok(true) => {
                    &&& out.1 == Ok::<Step, MrError>(Step::Drained)
                    &&& out.0.position() == before.position() + 1
                    &&& out.0.phase_view() == before.phase_view().following()
                    &&& out.0.submitted() == 0
                },
                Ok(false) => {
                    &&& out.1 == Ok::<Step, MrError>(Step::Pending)
                    &&& out.0.position() == before.position()
                },
                Err(e) => {
                    &&& out.1 == Err::<Step, MrError>(e)
                    &&& out.0.position() == before.position()
                },
            },
    {
        let ghost at = before.position() as int;
        let ghost whole = before.plan();
        let ghost events = before.events();
        match drained {
            Ok(true) => {
                assert(whole.take(at + 1) =~= events.push(whole[at]));
                assert(origin@ + events.push(whole[at]) =~= (origin@ + events).push(whole[at]));
                (Run { pool, files, phase: phase.next_phase(), next: 0, origin }, Ok(Step::Drained))
            },
            Ok(false) => (Run { pool, files, phase, next, origin }, Ok(Step::Pending)),
            Err(e) => (Run { pool, files, phase, next, origin }, Err(e)),
        }
    }

    /// What a step's outcome means for `advance`: after a submission or a passed
    /// barrier it takes another step (`None`); else it hands back the phase the run
    /// is in, or the failure.
    pub fn verdict(&self, outcome: Result<Step, MrError>) -> (r: Option<Result<Phase, MrError>>)
        ensures
            r == match outcome {
                Ok(Step::Submitted) | Ok(Step::Drained) => None::<Result<Phase, MrError>>,
                Ok(_) => Some(Ok::<Phase, MrError>(self.phase_view())),
                Err(e) => Some(Err::<Phase, MrError>(e)),
            },
    {
        match outcome {
            Ok(Step::Submitted) | Ok(Step::Drained) => None,
            Ok(_) => Some(Ok(self.phase)),
            Err(e) => Some(Err(e)),
        }
    }

    /// Takes steps until the run is finished or cannot go on without waiting, and
    /// says in which phase it then is. While the phase is not `Combining`, the
    /// caller lets the workers work and calls again.
    ///
    /// A run in which neither the queue nor the workers have a say any more is
    /// brought to its end: the answer is `Combining`. A finished run is handed back
    /// as it is. Every barrier that is due with no task outstanding is passed. The
    /// run is finished exactly if the answer is `Combining`; with any other answer,
    /// a failure too, the run is held by the queue or by an unfinished task.
    pub fn advance(self) -> (out: (Run, Result<Phase, MrError>))
        ensures
            out.0.wf(),
            out.0.files() == self.files(),
            out.0.origin() == self.origin(),
            out.0.pool_view().members() == self.pool_view().members(),
            out.0.pool_view().capacity() == self.pool_view().capacity(),
            out.0.pool_view().job_queue() == self.pool_view().job_queue(),
            out.0.pool_view().done_channel() == self.pool_view().done_channel(),
            self.position() <= out.0.position(),
            self.is_settled() ==> out.1 == Ok::<Phase, MrError>(Phase::Combining),
            self.phase_view() == Phase::Combining ==> {
                &&& out.0.position() == self.position()
                &&& out.0.pool_view().outstanding() == self.pool_view().outstanding()
            },
            self.next_is_barrier() && self.pool_view().outstanding() == 0 ==> out.0.position()
                > self.position(),
            out.0.phase_view() == Phase::Combining <==> out.1 == Ok::<Phase, MrError>(
                Phase::Combining,
            ),
            match out.1 {
                Ok(phase) => {
                    &&& phase == out.0.phase_view()
                    &&& phase != Phase::Combining ==> out.0.is_held()
                },
                Err(e) => {
                    &&& e == MrError::QueueClosed
                    &&& out.0.phase_view() != Phase::Combining
                    &&& out.0.is_held()
                },
            },
    {
        proof {
            use_type_invariant(&self);
        }
        let mut run = self;
        loop
            invariant
                self.wf(),
                run.files() == self.files(),
                run.origin() == self.origin(),
                run.pool_view().members() == self.pool_view().members(),
                run.pool_view().capacity() == self.pool_view().capacity(),
                run.pool_view().job_queue() == self.pool_view().job_queue(),
                run.pool_view().done_channel() == self.pool_view().done_channel(),
                self.position() <= run.position(),
                self.is_settled() ==> run.is_settled(),
                run.position() == self.position() ==> {
                    &&& run.phase_view() == self.phase_view()
                    &&& run.pool_view().outstanding() == self.pool_view().outstanding()
                },
            decreases run.plan().len() - run.position(),
        {
            proof {
                use_type_invariant(&run);
            }
            let (next, outcome) = run.step();
            run = next;
            proof {
                use_type_invariant(&run);
            }
            match run.verdict(outcome) {
                None => {},
                Some(r) => {
                    return (run, r);
                },
            }
        }
    }
}

impl Coordinator {
    /// Makes a pool of `workers_count` workers and begins a run over `files`, each a
    /// file name and the path of a regular file of the input directory. The caller
    /// starts a thread for each worker of the pool and then calls `advance` until
    /// the phase is `Combining`. The run begins with nothing submitted. Whether there
    /// is a run is left to the draw of the workers' identifiers, which `WorkerPool::new`
    /// makes; with a single worker there always is one.
    pub fn start_pool(&self, files: Vec<(String, String)>, workers_count: usize) -> (made: Option<
        Run,
    >)
        requires
            workers_count > 0,
        ensures
            made matches Some(run) ==> {
                &&& run.wf()
                &&& run.files() == files.deep_view()
                &&& is_draw(run.pool_view().ids(), workers_count as nat)
                &&& run.pool_view().members().len() == workers_count
                &&& run.pool_view().capacity() == workers_count
                &&& run.phase_view() == Phase::Mapping
                &&& run.submitted() == 0
                &&& run.position() == 0
                &&& run.origin() == Seq::<PoolEvent>::empty()
                &&& run.pool_view().history() == Seq::<PoolEvent>::empty()
                &&& run.pool_view().outstanding() == 0
            },
            workers_count == 1 ==> made is Some,
    {
        match WorkerPool::new(workers_count) {
            Some(pool) => Run::begin(pool, files),
            None => None,
        }
    }

    /// Runs the engine without a pool, on documents given as file name and contents:
    /// each document is mapped into a partition of its own, the partitions are
    /// reduced one after the other, and the outputs are merged.
    pub fn start_naive<A: MapReduceApp>(&self, documents: Vec<(String, String)>, mr_app: &A) -> (r:
        Result<String, MrError>)
        ensures
            match r {
                Ok(text) => naive_report(mr_app, documents.deep_view()) == Ok::<
                    Seq<char>,
                    MrError,
                >(text@),
                Err(e) => naive_report(mr_app, documents.deep_view()) == Err::<
                    Seq<char>,
                    MrError,
                >(e),
            },
    {
        let ghost all = documents.deep_view();
        let ghost items = documents@;
        let mut partitions: Vec<String> = Vec::new();
        for document in it: documents
            invariant
                it.seq() == items,
                all.len() == items.len(),
                forall|j: int| 0 <= j < items.len() ==> all[j] == (items[j].0@, items[j].1@),
                partitions.len() == it.index(),
                forall|j: int|
                    0 <= j < it.index() ==> (#[trigger] partitions[j])@ == records_text(
                        mr_app.map_spec(all[j].0, all[j].1),
                        ',',
                    ),
        {
            let (filename, contents) = document;
            let pairs = mr_app.map(filename, contents);
            partitions.push(write_records(&pairs, ','));
        }
        let mut reports: Vec<String> = Vec::new();
        let mut i: usize = 0;
        assert(all.take(0) =~= Seq::empty());
        assert(reports.deep_view() =~= Seq::empty());
        while i < partitions.len()
            invariant
                i <= partitions.len() == all.len(),
                all == documents.deep_view(),
                forall|j: int|
                    0 <= j < partitions.len() ==> (#[trigger] partitions[j])@ == records_text(
                        mr_app.map_spec(all[j].0, all[j].1),
                        ',',
                    ),
                single_reports(mr_app, all.take(i as int)) == Ok::<Seq<Seq<char>>, MrError>(
                    reports.deep_view(),
                ),
            decreases partitions.len() - i,
        {
            proof {
                assert(all.take(i + 1).drop_last() =~= all.take(i as int));
                assert(all.take(i + 1).last() == all[i as int]);
            }
            match reduce_partition(mr_app, partitions[i].as_str()) {
                Ok(report) => {
                    let ghost before = reports.deep_view();
                    reports.push(report);
                    assert(reports.deep_view() =~= before.push(report@));
                },
                Err(e) => {
                    proof {
                        assert(partitions[i as int]@ == records_text(
                            mr_app.map_spec(all[i as int].0, all[i as int].1),
                            ',',
                        ));
                        assert(single_reports(mr_app, all.take(i + 1)) == Err::<
                            Seq<Seq<char>>,
                            MrError,
                        >(e));
                        lemma_single_reports_prefix(mr_app, all, i + 1);
                    }
                    return Err(e);
                },
            }
            i = i + 1;
        }
        assert(all.take(all.len() as int) =~= all);
        merge_reports(&reports)
    }

    /// Runs the engine with `workers_count` workers and no queue between them, on
    /// documents given as file name and contents: the documents are dealt to the
    /// workers in turn, every worker maps its documents into its partition, the
    /// partitions are reduced worker after worker, and the outputs are merged.
    /// Without a worker nothing is mapped, and the report is empty.
    pub fn start_channels<A: MapReduceApp>(
        &self,
        documents: Vec<(String, String)>,
        workers_count: usize,
        mr_app: &A,
    ) -> (r: Result<String, MrError>)
        ensures
            match r {
                Ok(text) => channels_report(mr_app, documents.deep_view(), workers_count as int)
                    == Ok::<Seq<char>, MrError>(text@),
                Err(e) => channels_report(mr_app, documents.deep_view(), workers_count as int)
                    == Err::<Seq<char>, MrError>(e),
            },
    {
        let ghost all = documents.deep_view();
        let ghost items = documents@;
        let ghost workers = workers_count as int;
        let mut partitions: Vec<String> = Vec::new();
        let mut w: usize = 0;
        assert(all.take(0) =~= Seq::empty());
        while w < workers_count
            invariant
                w <= workers_count,
                partitions.len() == w,
                forall|j: int| 0 <= j < w ==> (#[trigger] partitions[j])@ == Seq::<char>::empty(),
            decreases workers_count - w,
        {
            partitions.push(String::new());
            w = w + 1;
        }
        let count = documents.len();
        let mut i: usize = 0;
        for document in it: documents
            invariant
                it.seq() == items,
                all.len() == items.len(),
                items.len() == count,
                forall|j: int| 0 <= j < items.len() ==> all[j] == (items[j].0@, items[j].1@),
                i == it.index(),
                partitions.len() == workers_count,
                workers == workers_count,
                forall|j: int|
                    0 <= j < workers ==> (#[trigger] partitions[j])@ == share_of(
                        mr_app,
                        all.take(i as int),
                        workers,
                        j,
                    ),
        {
            let ghost before = partitions@;
            proof {
                assert(i < count);
                assert(all.take(i + 1).drop_last() =~= all.take(i as int));
                assert(all.take(i + 1).last() == all[i as int]);
            }
            let (filename, contents) = document;
            if workers_count > 0 {
                let pairs = mr_app.map(filename, contents);
                let text = write_records(&pairs, ',');
                let turn = i % workers_count;
                partitions[turn].append(text.as_str());
                assert forall|j: int| 0 <= j < workers implies (#[trigger] partitions[j])@
                    == share_of(mr_app, all.take(i + 1), workers, j) by {
                    if j != turn {
                        assert(partitions[j] == before[j]);
                    }
                }
            }
            i = i + 1;
        }
        assert(all.take(items.len() as int) =~= all);
        let mut reports: Vec<String> = Vec::new();
        let mut k: usize = 0;
        assert(reports.deep_view() =~= Seq::empty());
        while k < partitions.len()
            invariant
                k <= partitions.len() == workers,
                workers == workers_count,
                forall|j: int|
                    0 <= j < workers ==> (#[trigger] partitions[j])@ == share_of(
                        mr_app,
                        all,
                        workers,
                        j,
                    ),
                all == documents.deep_view(),
                dealt_reports(mr_app, all, workers, k as int) == Ok::<Seq<Seq<char>>, MrError>(
                    reports.deep_view(),
                ),
            decreases partitions.len() - k,
        {
            assert(partitions[k as int]@ == share_of(mr_app, all, workers, k as int));
            match reduce_partition(mr_app, partitions[k].as_str()) {
                Ok(report) => {
                    let ghost before = reports.deep_view();
                    reports.push(report);
                    assert(reports.deep_view() =~= before.push(report@));
                },
                Err(e) => {
                    proof {
                        assert(dealt_reports(mr_app, all, workers, k + 1) == Err::<
                            Seq<Seq<char>>,
                            MrError,
                        >(e));
                        lemma_dealt_reports_prefix(mr_app, all, workers, k + 1, workers);
                    }
                    return Err(e);
                },
            }
            k = k + 1;
        }
        merge_reports(&reports)
    }

    /// Says where the merge of these reduce outputs fails: the position of the first
    /// report with which it fails, and how. There is none exactly if
    /// `combine_all_out_files` succeeds on them.
    pub fn failing_report(&self, reports: &Vec<String>) -> (at: Option<(usize, MrError)>)
        ensures
            at is Some <==> merged_text(reports.deep_view()) is Err,
            at matches Some((i, e)) ==> {
                &&& is_first_bad_report(reports.deep_view(), i as int)
                &&& merged_text(reports.deep_view().take(i + 1)) == Err::<Seq<char>, MrError>(e)
            },
    {
        first_bad_report(reports)
    }

    /// Merges the reduce outputs, given the contents of every file of the shared
    /// output directory, into the final report.
    pub fn combine_all_out_files(&self, reports: Vec<String>) -> (r: Result<String, MrError>)
        ensures
            match r {
                Ok(text) => merged_text(reports.deep_view()) == Ok::<Seq<char>, MrError>(text@),
                Err(e) => merged_text(reports.deep_view()) == Err::<Seq<char>, MrError>(e),
            },
    {
        merge_reports(&reports)
    }
}

/// The first partition that cannot be reduced decides how the run fails.
pub proof fn lemma_single_reports_prefix<A: MapReduceApp>(app: &A, documents: Seq<Pair>, k: int)
    requires
        0 <= k <= documents.len(),
        single_reports(app, documents.take(k)) is Err,
    ensures
        single_reports(app, documents) == single_reports(app, documents.take(k)),
    decreases documents.len(),
{
    if k == documents.len() {
        assert(documents.take(k) =~= documents);
    } else {
        assert(documents.drop_last().take(k) =~= documents.take(k));
        lemma_single_reports_prefix(app, documents.drop_last(), k);
    }
}

/// The partitions of a run in which every document is a partition of its own: what
/// the application maps from each document.
pub open spec fn mapped_parts<A: MapReduceApp>(app: &A, documents: Seq<Pair>) -> Seq<Seq<Pair>> {
    Seq::new(documents.len(), |i: int| app.map_spec(documents[i].0, documents[i].1))
}

/// All those partitions together hold what the sequential engine maps.
pub proof fn lemma_mapped_parts<A: MapReduceApp>(app: &A, documents: Seq<Pair>)
    ensures
        mapped_parts(app, documents).flatten() == mapped(app, documents),
    decreases documents.len(),
{
    let parts = mapped_parts(app, documents);
    if documents.len() == 0 {
        assert(parts =~= Seq::<Seq<Pair>>::empty());
    } else {
        let init = documents.drop_last();
        let last = app.map_spec(documents.last().0, documents.last().1);
        lemma_mapped_parts(app, init);
        assert(parts =~= mapped_parts(app, init).push(last));
        mapped_parts(app, init).lemma_flatten_push(last);
    }
}

/// In a run of a summable application in which every document is a partition of its
/// own, over plain records, every partition can be reduced, and the outputs are
/// those of `reports_of`.
pub proof fn lemma_single_reports<A: MapReduceApp>(app: &A, documents: Seq<Pair>)
    requires
        summable(app),
        forall|i: int|
            0 <= i < documents.len() ==> plain(#[trigger] mapped_parts(app, documents)[i]),
        forall|key: Seq<char>| #[trigger] worth(app, mapped(app, documents), key) <= u64::MAX,
    ensures
        single_reports(app, documents) == Ok::<Seq<Seq<char>>, MrError>(
            reports_of(app, mapped_parts(app, documents)),
        ),
    decreases documents.len(),
{
    let parts = mapped_parts(app, documents);
    if documents.len() == 0 {
        assert(reports_of(app, parts) =~= Seq::<Seq<char>>::empty());
    } else {
        let init = documents.drop_last();
        let last = app.map_spec(documents.last().0, documents.last().1);
        assert(parts[documents.len() - 1] == last);
        assert(plain(last));
        assert forall|i: int| 0 <= i < init.len() implies plain(
            #[trigger] mapped_parts(app, init)[i],
        ) by {
            assert(mapped_parts(app, init)[i] == parts[i]);
        }
        assert forall|key: Seq<char>| #[trigger] worth(app, mapped(app, init), key) <= u64::MAX by {
            lemma_worth_concat(app, mapped(app, init), last, key);
            assert(worth(app, mapped(app, documents), key) <= u64::MAX);
        }
        assert forall|key: Seq<char>| #[trigger] worth(app, last, key) <= u64::MAX by {
            lemma_worth_concat(app, mapped(app, init), last, key);
            assert(worth(app, mapped(app, documents), key) <= u64::MAX);
        }
        lemma_single_reports(app, init);
        lemma_records_round_trip(last, ',');
        lemma_reduced_rows(app, last);
        assert(reports_of(app, parts) =~= reports_of(app, mapped_parts(app, init)).push(
            records_text(ranked(reduced(app, grouped(last))), ' '),
        ));
    }
}

/// A run without a pool agrees with the sequential engine: for a summable
/// application over plain records, the run succeeds, its report holds the keys of
/// the sequential engine's output, and it gives every key the number that the
/// sequential engine's output writes for it.
pub proof fn lemma_naive_agrees_with_sequential<A: MapReduceApp>(app: &A, documents: Seq<Pair>)
    requires
        summable(app),
        forall|i: int|
            0 <= i < documents.len() ==> plain(#[trigger] mapped_parts(app, documents)[i]),
        forall|key: Seq<char>| #[trigger] worth(app, mapped(app, documents), key) <= u64::MAX,
    ensures
        naive_report(app, documents) == Ok::<Seq<char>, MrError>(
            records_text(
                ranked(totals(ranked_rows(app, mapped_parts(app, documents)))),
                ' ',
            ),
        ),
        forall|key: Seq<char>|
            has_key(#[trigger] totals(ranked_rows(app, mapped_parts(app, documents))), key)
                <==> has_key(output_of(app, documents), key),
        forall|i: int|
            0 <= i < output_of(app, documents).len() ==> total_of(
                ranked_rows(app, mapped_parts(app, documents)),
                (#[trigger] output_of(app, documents)[i]).0,
            ) == score(output_of(app, documents)[i]),
{
    let parts = mapped_parts(app, documents);
    lemma_mapped_parts(app, documents);
    lemma_single_reports(app, documents);
    lemma_merge_of_reports(app, parts);
    lemma_report_agrees_with_sequential(app, documents, parts);
}

/// The ranked reduce outputs of the partitions hold exactly the keys of their
/// records.
pub proof fn lemma_keys_of_ranked_rows<A: MapReduceApp>(
    app: &A,
    partitions: Seq<Seq<Pair>>,
    key: Seq<char>,
)
    ensures
        has_key(ranked_rows(app, partitions), key) <==> has_key(partitions.flatten(), key),
    decreases partitions.len(),
{
    lemma_has_key_partitions(app, partitions, key);
    lemma_ranked_rows_permutation(app, partitions);
    lemma_has_key_permutation(ranked_rows(app, partitions), partial_rows(app, partitions), key);
}

/// Ranking each output moves its rows and changes none.
pub proof fn lemma_ranked_rows_permutation<A: MapReduceApp>(app: &A, partitions: Seq<Seq<Pair>>)
    ensures
        ranked_rows(app, partitions).to_multiset() == partial_rows(app, partitions).to_multiset(),
    decreases partitions.len(),
{
    broadcast use vstd::seq_lib::lemma_multiset_commutative;

    if partitions.len() > 0 {
        let init = partitions.drop_last();
        let rows = reduced(app, grouped(partitions.last()));
        lemma_ranked_rows_permutation(app, init);
        lemma_ranked(rows);
        assert((ranked_rows(app, init) + ranked(rows)).to_multiset() =~= (partial_rows(app, init)
            + rows).to_multiset());
    }
}

/// The records of one worker's share when the documents are dealt to `workers`
/// workers in turn.
pub open spec fn share_records<A: MapReduceApp>(
    app: &A,
    documents: Seq<Pair>,
    workers: int,
    worker: int,
) -> Seq<Pair>
    decreases documents.len(),
{
    if documents.len() == 0 {
        Seq::empty()
    } else {
        let before = share_records(app, documents.drop_last(), workers, worker);
        if workers > 0 && (documents.len() - 1) % workers == worker {
            before + app.map_spec(documents.last().0, documents.last().1)
        } else {
            before
        }
    }
}

/// The shares of the first `upto` workers.
pub open spec fn shares<A: MapReduceApp>(
    app: &A,
    documents: Seq<Pair>,
    workers: int,
    upto: int,
) -> Seq<Seq<Pair>> {
    Seq::new(upto as nat, |worker: int| share_records(app, documents, workers, worker))
}

/// A share as the worker's partition holds it, and what holds of its records: the
/// partition is their text, they are plain where every document maps to plain
/// records, and they are worth no more than all records together.
pub proof fn lemma_share<A: MapReduceApp>(
    app: &A,
    documents: Seq<Pair>,
    workers: int,
    worker: int,
    key: Seq<char>,
)
    ensures
        share_of(app, documents, workers, worker) == records_text(
            share_records(app, documents, workers, worker),
            ',',
        ),
        worth(app, share_records(app, documents, workers, worker), key) <= worth(
            app,
            mapped(app, documents),
            key,
        ),
        (forall|i: int|
            0 <= i < documents.len() ==> plain(#[trigger] mapped_parts(app, documents)[i]))
            ==> plain(share_records(app, documents, workers, worker)),
    decreases documents.len(),
{
    if documents.len() > 0 {
        let init = documents.drop_last();
        let last = app.map_spec(documents.last().0, documents.last().1);
        let before = share_records(app, init, workers, worker);
        lemma_share(app, init, workers, worker, key);
        lemma_records_text_concat(before, last, ',');
        lemma_worth_concat(app, before, last, key);
        lemma_worth_concat(app, mapped(app, init), last, key);
        if forall|i: int|
            0 <= i < documents.len() ==> plain(#[trigger] mapped_parts(app, documents)[i]) {
            assert(mapped_parts(app, documents)[documents.len() - 1] == last);
            assert forall|i: int| 0 <= i < init.len() implies plain(
                #[trigger] mapped_parts(app, init)[i],
            ) by {
                assert(mapped_parts(app, init)[i] == mapped_parts(app, documents)[i]);
            }
            lemma_plain_concat(before, last);
        }
    }
}

/// Dealing one more document adds its records to the share of the worker whose turn
/// it is, and to no other.
pub proof fn lemma_shares_step<A: MapReduceApp>(
    app: &A,
    documents: Seq<Pair>,
    workers: int,
    upto: int,
)
    requires
        documents.len() > 0,
        workers > 0,
        0 <= upto <= workers,
    ensures
        shares(app, documents, workers, upto).flatten().to_multiset() == shares(
            app,
            documents.drop_last(),
            workers,
            upto,
        ).flatten().to_multiset().add(
            if (documents.len() - 1) % workers < upto {
                app.map_spec(documents.last().0, documents.last().1).to_multiset()
            } else {
                vstd::multiset::Multiset::empty()
            },
        ),
    decreases upto,
{
    broadcast use vstd::seq_lib::lemma_multiset_commutative;

    let init = documents.drop_last();
    let last = app.map_spec(documents.last().0, documents.last().1);
    if upto == 0 {
        assert(shares(app, documents, workers, upto) =~= shares(app, init, workers, upto));
        assert(shares(app, init, workers, upto).flatten().to_multiset().add(
            vstd::multiset::Multiset::<Pair>::empty(),
        ) =~= shares(app, init, workers, upto).flatten().to_multiset());
    } else {
        let w = upto - 1;
        lemma_shares_step(app, documents, workers, w);
        let now = shares(app, documents, workers, w);
        let then = shares(app, init, workers, w);
        assert(shares(app, documents, workers, upto) =~= now.push(
            share_records(app, documents, workers, w),
        ));
        assert(shares(app, init, workers, upto) =~= then.push(
            share_records(app, init, workers, w),
        ));
        now.lemma_flatten_push(share_records(app, documents, workers, w));
        then.lemma_flatten_push(share_records(app, init, workers, w));
        let turn = (documents.len() - 1) % workers;
        if turn == w {
            assert(share_records(app, documents, workers, w) == share_records(
                app,
                init,
                workers,
                w,
            ) + last);
        }
        assert(shares(app, documents, workers, upto).flatten().to_multiset() =~= shares(
            app,
            init,
            workers,
            upto,
        ).flatten().to_multiset().add(
            if turn < upto {
                last.to_multiset()
            } else {
                vstd::multiset::Multiset::empty()
            },
        ));
    }
}

/// The shares of all workers together hold the records that the sequential engine
/// maps, each as often.
pub proof fn lemma_shares_permutation<A: MapReduceApp>(
    app: &A,
    documents: Seq<Pair>,
    workers: int,
)
    requires
        workers > 0,
    ensures
        shares(app, documents, workers, workers).flatten().to_multiset() == mapped(
            app,
            documents,
        ).to_multiset(),
    decreases documents.len(),
{
    broadcast use vstd::seq_lib::lemma_multiset_commutative;

    if documents.len() == 0 {
        lemma_shares_of_nothing(app, documents, workers, workers);
    } else {
        lemma_shares_permutation(app, documents.drop_last(), workers);
        lemma_shares_step(app, documents, workers, workers);
        assert(shares(app, documents, workers, workers).flatten().to_multiset() =~= mapped(
            app,
            documents,
        ).to_multiset());
    }
}

/// Without documents every share is empty.
pub proof fn lemma_shares_of_nothing<A: MapReduceApp>(
    app: &A,
    documents: Seq<Pair>,
    workers: int,
    upto: int,
)
    requires
        documents.len() == 0,
        0 <= upto,
    ensures
        shares(app, documents, workers, upto).flatten() == Seq::<Pair>::empty(),
    decreases upto,
{
    if upto > 0 {
        lemma_shares_of_nothing(app, documents, workers, upto - 1);
        let fewer = shares(app, documents, workers, upto - 1);
        assert(shares(app, documents, workers, upto) =~= fewer.push(Seq::<Pair>::empty()));
        fewer.lemma_flatten_push(Seq::<Pair>::empty());
        assert(fewer.flatten() + Seq::<Pair>::empty() =~= fewer.flatten());
    } else {
        assert(shares(app, documents, workers, upto) =~= Seq::<Seq<Pair>>::empty());
    }
}

/// In a run of a summable application in which the documents are dealt to the
/// workers, over plain records, every share can be reduced, and the outputs are
/// those of `reports_of`.
pub proof fn lemma_dealt_reports<A: MapReduceApp>(
    app: &A,
    documents: Seq<Pair>,
    workers: int,
    upto: int,
)
    requires
        summable(app),
        0 <= upto <= workers,
        forall|i: int|
            0 <= i < documents.len() ==> plain(#[trigger] mapped_parts(app, documents)[i]),
        forall|key: Seq<char>| #[trigger] worth(app, mapped(app, documents), key) <= u64::MAX,
    ensures
        dealt_reports(app, documents, workers, upto) == Ok::<Seq<Seq<char>>, MrError>(
            reports_of(app, shares(app, documents, workers, upto)),
        ),
    decreases upto,
{
    if upto == 0 {
        assert(reports_of(app, shares(app, documents, workers, upto)) =~= Seq::<
            Seq<char>,
        >::empty());
    } else {
        let w = upto - 1;
        let share = share_records(app, documents, workers, w);
        lemma_dealt_reports(app, documents, workers, w);
        lemma_share(app, documents, workers, w, Seq::empty());
        assert forall|key: Seq<char>| #[trigger] worth(app, share, key) <= u64::MAX by {
            lemma_share(app, documents, workers, w, key);
            assert(worth(app, mapped(app, documents), key) <= u64::MAX);
        }
        lemma_records_round_trip(share, ',');
        lemma_reduced_rows(app, share);
        assert(reports_of(app, shares(app, documents, workers, upto)) =~= reports_of(
            app,
            shares(app, documents, workers, w),
        ).push(records_text(ranked(reduced(app, grouped(share))), ' ')));
    }
}

/// A run in which the documents are dealt to the workers agrees with the sequential
/// engine, however many workers there are: for a summable application over plain
/// records, the run succeeds, its report holds the keys of the sequential engine's
/// output, and it gives every key the number that the sequential engine's output
/// writes for it.
pub proof fn lemma_channels_agrees_with_sequential<A: MapReduceApp>(
    app: &A,
    documents: Seq<Pair>,
    workers: int,
)
    requires
        workers > 0,
        summable(app),
        forall|i: int|
            0 <= i < documents.len() ==> plain(#[trigger] mapped_parts(app, documents)[i]),
        forall|key: Seq<char>| #[trigger] worth(app, mapped(app, documents), key) <= u64::MAX,
    ensures
        channels_report(app, documents, workers) == Ok::<Seq<char>, MrError>(
            records_text(
                ranked(totals(ranked_rows(app, shares(app, documents, workers, workers)))),
                ' ',
            ),
        ),
        forall|key: Seq<char>|
            has_key(
                #[trigger] totals(ranked_rows(app, shares(app, documents, workers, workers))),
                key,
            ) <==> has_key(output_of(app, documents), key),
        forall|i: int|
            0 <= i < output_of(app, documents).len() ==> total_of(
                ranked_rows(app, shares(app, documents, workers, workers)),
                (#[trigger] output_of(app, documents)[i]).0,
            ) == score(output_of(app, documents)[i]),
{
    let parts = shares(app, documents, workers, workers);
    let all = mapped(app, documents);
    lemma_shares_permutation(app, documents, workers);
    lemma_dealt_reports(app, documents, workers, workers);
    assert forall|w: int| 0 <= w < parts.len() implies plain(#[trigger] parts[w]) by {
        lemma_share(app, documents, workers, w, Seq::empty());
    }
    assert forall|key: Seq<char>| #[trigger] worth(app, parts.flatten(), key) <= u64::MAX by {
        lemma_worth_permutation(app, parts.flatten(), all, key);
        assert(worth(app, all, key) <= u64::MAX);
    }
    lemma_merge_of_reports(app, parts);
    lemma_report_agrees_with_sequential(app, documents, parts);
}

/// What the two laws above share: partitions that hold the records the sequential
/// engine maps, each as often, give the keys and the numbers of its output.
pub proof fn lemma_report_agrees_with_sequential<A: MapReduceApp>(
    app: &A,
    documents: Seq<Pair>,
    parts: Seq<Seq<Pair>>,
)
    requires
        summable(app),
        parts.flatten().to_multiset() == mapped(app, documents).to_multiset(),
        forall|key: Seq<char>| #[trigger] worth(app, mapped(app, documents), key) <= u64::MAX,
        forall|key: Seq<char>| #[trigger]
            total_of(ranked_rows(app, parts), key) == weight(
                app,
                key,
                values_of(parts.flatten(), key),
            ),
    ensures
        forall|key: Seq<char>|
            has_key(#[trigger] totals(ranked_rows(app, parts)), key) <==> has_key(
                output_of(app, documents),
                key,
            ),
        forall|i: int|
            0 <= i < output_of(app, documents).len() ==> total_of(
                ranked_rows(app, parts),
                (#[trigger] output_of(app, documents)[i]).0,
            ) == score(output_of(app, documents)[i]),
{
    let all = mapped(app, documents);
    let rows = ranked_rows(app, parts);
    let output = output_of(app, documents);
    lemma_distinct_keys(all);
    assert forall|i: int| 0 <= i < output.len() implies total_of(rows, (#[trigger] output[i]).0)
        == score(output[i]) by {
        let key = distinct_keys(all)[i];
        assert(output[i] == (key, app.reduce_spec(key, values_of(all, key))));
        lemma_summable_results(app, key, values_of(all, key));
        lemma_weight_is_worth(app, all, key);
        lemma_weight_is_worth(app, parts.flatten(), key);
        lemma_worth_permutation(app, parts.flatten(), all, key);
        assert(worth(app, all, key) <= u64::MAX);
        assert(total_of(rows, key) == weight(app, key, values_of(parts.flatten(), key)));
    }
    assert forall|key: Seq<char>| has_key(#[trigger] totals(rows), key) <==> has_key(
        output,
        key,
    ) by {
        lemma_keys_of_ranked_rows(app, parts, key);
        lemma_has_key_permutation(parts.flatten(), all, key);
        lemma_distinct_keys_has_key(rows, key);
        lemma_distinct_keys_has_key(all, key);
        if has_key(totals(rows), key) {
            let i = choose|i: int| 0 <= i < totals(rows).len() && (#[trigger] totals(rows)[i]).0 == key;
            assert(distinct_keys(rows)[i] == key);
        }
        if distinct_keys(rows).contains(key) {
            let i = choose|i: int| 0 <= i < distinct_keys(rows).len() && distinct_keys(rows)[i] == key;
            assert(totals(rows)[i].0 == key);
        }
        if has_key(output, key) {
            let i = choose|i: int| 0 <= i < output.len() && (#[trigger] output[i]).0 == key;
            assert(distinct_keys(all)[i] == key);
        }
        if distinct_keys(all).contains(key) {
            let i = choose|i: int| 0 <= i < distinct_keys(all).len() && distinct_keys(all)[i] == key;
            assert(output[i].0 == key);
        }
    }
}

/// Strict phase order: in every run, a Reduce task is submitted only after each
/// document has had its Map task submitted, once and in order, and the pool has
/// drained of them.
pub proof fn lemma_phase_order(run: Run, i: int)
    requires
        run.wf(),
        0 <= i < run.events().len(),
        run.events()[i] matches PoolEvent::Submitted(TaskView::Reduce(_)),
    ensures
        run.files().len() < i,
        run.events()[run.files().len() as int] == PoolEvent::Drained,
        forall|j: int|
            0 <= j < run.files().len() ==> #[trigger] run.events()[j] == PoolEvent::Submitted(
                TaskView::MapFile(run.files()[j].0, run.files()[j].1),
            ),
        run.events()[i] == PoolEvent::Submitted(
            TaskView::Reduce(run.pool_view().ids()[i - run.files().len() - 1]),
        ),
{
}

/// The barrier: a run that has left the Map phase has passed the point at which a
/// completion notice had come in for every Map task.
pub proof fn lemma_barrier_passed(run: Run)
    requires
        run.wf(),
        run.phase_view() != Phase::Mapping,
    ensures
        run.files().len() < run.events().len(),
        run.events()[run.files().len() as int] == PoolEvent::Drained,
{
}

/// A finished run has submitted exactly one Map task per document and exactly one
/// Reduce task per worker, each addressed to that worker's own partition.
pub proof fn lemma_finished_run(run: Run)
    requires
        run.wf(),
        run.phase_view() == Phase::Combining,
    ensures
        run.pool_view().history() == run.origin() + plan(run.files(), run.pool_view().ids()),
        plan(run.files(), run.pool_view().ids()).len() == run.files().len()
            + run.pool_view().ids().len() + 2,
{
    assert(run.plan().take(run.plan().len() as int) =~= run.plan());
}

} // verus!
