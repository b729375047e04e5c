//! Workers, their partitions, and what a worker makes of a task.

use vstd::prelude::*;
use async_channel::{Receiver, Sender};
use crate::common::{MapReduceApp, MrError, Task, TaskView};
use crate::mr_parallel::channel::{bounded, try_recv, try_send, unbounded, Dequeued, Enqueued};
use crate::text::{chars_of, lemma_first_index};
use crate::records::{
    all_numeric, first_bad_line, first_bad_value, group_by_key, grouped, is_first_bad_line,
    is_first_bad_value, rank_by_value, ranked, read_records, records_of, records_text,
    reduce_groups, reduced, write_records,
};
use crate::text::lines_of;

verus! {

/// A name that stays inside the directory it is put in: it holds no `/`.
pub open spec fn is_name(s: Seq<char>) -> bool {
    !s.contains('/')
}

/// The partition directory of a worker.
pub open spec fn worker_dir(worker_id: Seq<char>) -> Seq<char> {
    "output/worker-"@ + worker_id
}

/// Where a worker keeps what it mapped from the document `filename`.
pub open spec fn i_file_path(filename: Seq<char>, worker_id: Seq<char>) -> Seq<char> {
    worker_dir(worker_id) + "/"@ + filename
}

/// The directory that all reduce outputs share.
pub open spec fn output_dir() -> Seq<char> {
    "output/output"@
}

/// Where the reduce output with the name `id` is written.
pub open spec fn o_file_path(id: Seq<char>) -> Seq<char> {
    "output/output/"@ + id
}

/// The partition directory of a worker.
pub fn construct_worker_dir(worker_id: String) -> (dir: String)
    ensures
        dir@ == worker_dir(worker_id@),
{
    let mut dir = "output/worker-".to_owned();
    dir.append(worker_id.as_str());
    dir
}

/// Where a worker keeps what it mapped from the document `filename`.
pub fn construct_i_file_path(filename: String, worker_id: String) -> (path: String)
    ensures
        path@ == i_file_path(filename@, worker_id@),
{
    let mut path = construct_worker_dir(worker_id);
    path.append("/");
    path.append(filename.as_str());
    path
}

/// Where the reduce output with the name `id` is written.
pub fn construct_o_file_path(id: String) -> (path: String)
    ensures
        path@ == o_file_path(id@),
{
    let mut path = "output/output/".to_owned();
    path.append(id.as_str());
    path
}

/// What a task reads before it can run.
#[derive(Debug, PartialEq, Eq)]
pub enum Source {
    /// The whole of one file.
    File(String),
    /// Every regular file directly under a directory.
    Dir(String),
}

/// A source as plain text.
pub enum SourceView {
    File(Seq<char>),
    Dir(Seq<char>),
}

impl View for Source {
    type V = SourceView;

    open spec fn view(&self) -> SourceView {
        match self {
            Source::File(path) => SourceView::File(path@),
            Source::Dir(dir) => SourceView::Dir(dir@),
        }
    }
}

/// What a task leaves behind: a file, and the directory that has to exist for it.
#[derive(Debug, PartialEq, Eq)]
pub struct FileWrite {
    pub dir: String,
    pub path: String,
    pub contents: String,
}

/// A file to write, as plain text.
pub struct FileWriteView {
    pub dir: Seq<char>,
    pub path: Seq<char>,
    pub contents: Seq<char>,
}

impl View for FileWrite {
    type V = FileWriteView;

    open spec fn view(&self) -> FileWriteView {
        FileWriteView { dir: self.dir@, path: self.path@, contents: self.contents@ }
    }
}

/// A Map task reads the document at its path; a Reduce task reads the partition
/// directory of the worker it names, and nothing else.
pub open spec fn source_of(task: TaskView) -> SourceView {
    match task {
        TaskView::MapFile(_, path) => SourceView::File(path),
        TaskView::Reduce(worker_id) => SourceView::Dir(worker_dir(worker_id)),
    }
}

impl Task {
    /// What the task reads.
    pub fn source(&self) -> (source: Source)
        ensures
            source@ == source_of(self@),
    {
        match self {
            Task::MapFile(_, path) => Source::File(path.clone()),
            Task::Reduce(worker_id) => Source::Dir(construct_worker_dir(worker_id.clone())),
        }
    }
}

/// The partition file that mapping a document on a worker gives: the pairs of the
/// application's map function, one `key,value` line each.
pub open spec fn map_write<A: MapReduceApp>(
    worker_id: Seq<char>,
    filename: Seq<char>,
    app: &A,
    contents: Seq<char>,
) -> FileWriteView {
    FileWriteView {
        dir: worker_dir(worker_id),
        path: i_file_path(filename, worker_id),
        contents: records_text(app.map_spec(filename, contents), ','),
    }
}

/// The reduce output of a partition with these contents: its `key,value` lines
/// grouped by key, each group reduced by the application, the results ordered by
/// descending number and written as `key value` lines.
pub open spec fn reduce_text<A: MapReduceApp>(app: &A, contents: Seq<char>) -> Result<
    Seq<char>,
    MrError,
> {
    match records_of(contents, ',') {
        None => Err(MrError::Format),
        Some(pairs) => {
            let values = reduced(app, grouped(pairs));
            if all_numeric(values) {
                Ok(records_text(ranked(values), ' '))
            } else {
                Err(MrError::Parse)
            }
        },
    }
}

/// What a worker makes of a task, given the contents of the files the task reads
/// and a name drawn for the run. A Map task writes into the worker's own
/// partition, under the name of the document. A Reduce task writes into the shared
/// output directory, under the name drawn: every run leaves a file of its own.
pub open spec fn run_spec<A: MapReduceApp>(
    worker_id: Seq<char>,
    task: TaskView,
    app: &A,
    inputs: Seq<Seq<char>>,
    drawn: Seq<char>,
) -> Result<FileWriteView, MrError> {
    match task {
        TaskView::MapFile(filename, _) => Ok(map_write(worker_id, filename, app, inputs.flatten())),
        TaskView::Reduce(_) => match reduce_text(app, inputs.flatten()) {
            Ok(text) => Ok(
                FileWriteView { dir: output_dir(), path: o_file_path(drawn), contents: text },
            ),
            Err(e) => Err(e),
        },
    }
}

/// Partition isolation: what a Map task wrote on the worker `writer` lies directly
/// in the directory that the Reduce task for `reader` reads only if `reader` is
/// `writer`. So no file of another partition is among the inputs of a Reduce task.
pub proof fn lemma_partition_isolation(
    writer: Seq<char>,
    filename: Seq<char>,
    reader: Seq<char>,
    name: Seq<char>,
)
    requires
        is_name(writer),
        is_name(reader),
        is_name(filename),
        i_file_path(filename, writer) == worker_dir(reader) + "/"@ + name,
    ensures
        writer == reader,
        filename == name,
{
    reveal_strlit("/");
    let prefix = "output/worker-"@;
    let written = writer + seq!['/'] + filename;
    let read = reader + seq!['/'] + name;
    assert("/"@ =~= seq!['/']);
    assert(written =~= read) by {
        assert(written =~= (prefix + writer + seq!['/'] + filename).skip(prefix.len() as int));
        assert(read =~= (prefix + reader + seq!['/'] + name).skip(prefix.len() as int));
    }
    assert(written[writer.len() as int] == '/');
    assert(read[reader.len() as int] == '/');
    assert forall|j: int| 0 <= j < writer.len() implies written[j] != '/' by {
        assert(written[j] == writer[j]);
    }
    assert forall|j: int| 0 <= j < reader.len() implies read[j] != '/' by {
        assert(read[j] == reader[j]);
    }
    lemma_first_index(written, '/', writer.len() as int);
    lemma_first_index(read, '/', reader.len() as int);
    assert(writer =~= written.take(writer.len() as int));
    assert(reader =~= read.take(reader.len() as int));
    assert(filename =~= written.skip(writer.len() as int + 1));
    assert(name =~= read.skip(reader.len() as int + 1));
}

/// Every worker has a partition directory of its own, and every name drawn gives an
/// output file of its own: two identifiers that name the same directory, or the
/// same output file, are the same.
pub proof fn lemma_paths_distinct(a: Seq<char>, b: Seq<char>)
    ensures
        worker_dir(a) == worker_dir(b) ==> a == b,
        o_file_path(a) == o_file_path(b) ==> a == b,
{
    let dir = "output/worker-"@;
    let out = "output/output/"@;
    assert(a =~= (dir + a).skip(dir.len() as int));
    assert(b =~= (dir + b).skip(dir.len() as int));
    assert(a =~= (out + a).skip(out.len() as int));
    assert(b =~= (out + b).skip(out.len() as int));
}

/// The texts one after another.
pub fn join_texts(texts: &Vec<String>) -> (all: String)
    ensures
        all@ == texts.deep_view().flatten(),
{
    let mut all = String::new();
    let mut i: usize = 0;
    assert(texts.deep_view().take(0) =~= Seq::empty());
    while i < texts.len()
        invariant
            i <= texts.len(),
            all@ == texts.deep_view().take(i as int).flatten(),
        decreases texts.len() - i,
    {
        proof {
            let done = texts.deep_view().take(i as int);
            assert(texts.deep_view().take(i + 1) =~= done.push(texts[i as int]@));
            done.lemma_flatten_push(texts[i as int]@);
        }
        all.append(texts[i].as_str());
        i = i + 1;
    }
    assert(texts.deep_view().take(texts.len() as int) =~= texts.deep_view());
    all
}

/// Reduces the contents of one partition.
pub fn reduce_partition<A: MapReduceApp>(app: &A, contents: &str) -> (r: Result<String, MrError>)
    ensures
        match r {
            Ok(text) => reduce_text(app, contents@) == Ok::<Seq<char>, MrError>(text@),
            Err(e) => reduce_text(app, contents@) == Err::<Seq<char>, MrError>(e),
        },
{
    let pairs = read_records(contents, ',')?;
    let groups = group_by_key(pairs);
    let values = reduce_groups(app, groups);
    let ranking = rank_by_value(values)?;
    Ok(write_records(&ranking, ' '))
}

/// Where the reduction of a partition fails.
#[derive(Debug, PartialEq, Eq)]
pub enum Fault {
    /// The line at this position of the partition, counted from 0, has no comma.
    Line(usize),
    /// The application's result for this key writes no number.
    Key(String),
}

/// `fault` is the first thing that keeps the partition with these contents from
/// being reduced: the first line without comma or, where every line has one, the
/// first key, in order of first occurrence, whose result writes no number.
pub open spec fn is_reduce_fault<A: MapReduceApp>(app: &A, contents: Seq<char>, fault: Fault) -> bool {
    match fault {
        Fault::Line(at) => is_first_bad_line(lines_of(contents), ',', at as int),
        Fault::Key(key) => {
            &&& records_of(contents, ',') matches Some(pairs)
            &&& exists|at: int|
                #![trigger reduced(app, grouped(pairs))[at]]
                is_first_bad_value(reduced(app, grouped(pairs)), at) && reduced(
                    app,
                    grouped(pairs),
                )[at].0 == key@
        },
    }
}

/// Says where the reduction of a partition fails: which line or which key is the
/// first at fault. There is no fault exactly if the partition can be reduced; a
/// line at fault is a failure of `Format`, a key at fault one of `Parse`.
pub fn reduce_fault<A: MapReduceApp>(app: &A, contents: &str) -> (fault: Option<Fault>)
    ensures
        fault is Some <==> reduce_text(app, contents@) is Err,
        fault matches Some(f) ==> is_reduce_fault(app, contents@, f),
        fault matches Some(Fault::Line(_)) ==> reduce_text(app, contents@) == Err::<
            Seq<char>,
            MrError,
        >(MrError::Format),
        fault matches Some(Fault::Key(_)) ==> reduce_text(app, contents@) == Err::<
            Seq<char>,
            MrError,
        >(MrError::Parse),
{
    match first_bad_line(contents, ',') {
        Some(at) => {
            return Some(Fault::Line(at));
        },
        None => {},
    }
    match read_records(contents, ',') {
        Ok(pairs) => {
            let values = reduce_groups(app, group_by_key(pairs));
            match first_bad_value(&values) {
                Some(at) => {
                    let key = values[at].0.clone();
                    assert(values.deep_view()[at as int].0 == key@);
                    Some(Fault::Key(key))
                },
                None => None,
            }
        },
        Err(_) => None,
    }
}

/// A worker of the pool. Its identifier names its partition directory too.
#[derive(Debug, PartialEq, Eq)]
pub struct Worker {
    pub id: String,
}

impl Worker {
    /// A worker can have a partition of its own only if its identifier is a name.
    pub open spec fn wf(&self) -> bool {
        is_name(self.id@)
    }

    /// Runs a task on this worker. `inputs` holds the contents of what
    /// `task.source()` names: of the one file, or of each file of the directory.
    /// `drawn` is an identifier drawn for this run; it names the output of a Reduce
    /// task. A Map task writes into this worker's own partition, whoever submitted
    /// it.
    pub fn run<A: MapReduceApp>(
        &self,
        task: Task,
        mr_app: &A,
        inputs: Vec<String>,
        drawn: String,
    ) -> (r: Result<FileWrite, MrError>)
        ensures
            match r {
                Ok(write) => run_spec(self.id@, task@, mr_app, inputs.deep_view(), drawn@)
                    == Ok::<FileWriteView, MrError>(write@),
                Err(e) => run_spec(self.id@, task@, mr_app, inputs.deep_view(), drawn@) == Err::<
                    FileWriteView,
                    MrError,
                >(e),
            },
    {
        let contents = join_texts(&inputs);
        match task {
            Task::MapFile(filename, _) => {
                let path = construct_i_file_path(filename.clone(), self.id.clone());
                let pairs = mr_app.map(filename, contents);
                Ok(
                    FileWrite {
                        dir: construct_worker_dir(self.id.clone()),
                        path,
                        contents: write_records(&pairs, ','),
                    },
                )
            },
            Task::Reduce(_) => {
                let text = reduce_partition(mr_app, contents.as_str())?;
                Ok(
                    FileWrite {
                        dir: "output/output".to_owned(),
                        path: construct_o_file_path(drawn),
                        contents: text,
                    },
                )
            },
        }
    }
}

/// A hexadecimal digit in lower case.
pub open spec fn is_hex_digit(c: char) -> bool {
    ('0' <= c <= '9') || ('a' <= c <= 'f')
}

/// The hyphenated lower-case writing of a UUID: 36 characters, hyphens at
/// positions 8, 13, 18 and 23, hexadecimal digits elsewhere.
pub open spec fn is_uuid_text(s: Seq<char>) -> bool {
    &&& s.len() == 36
    &&& forall|i: int|
        0 <= i < 36 ==> if i == 8 || i == 13 || i == 18 || i == 23 {
            s[i] == '-'
        } else {
            is_hex_digit(#[trigger] s[i])
        }
}

/// `uuid::Uuid::new_v4`, written out by `to_string`: a random identifier in the
/// hyphenated lower-case form. Which one is left open.
#[verifier::external_body]
fn fresh_id() -> (id: String)
    ensures
        is_uuid_text(id@),
{
    uuid::Uuid::new_v4().to_string()
}

/// Identifiers as a pool draws them for its workers: `size` of them, each the text
/// of a UUID.
pub open spec fn is_draw(ids: Seq<Seq<char>>, size: nat) -> bool {
    &&& ids.len() == size
    &&& forall|i: int| 0 <= i < ids.len() ==> is_uuid_text(#[trigger] ids[i])
}

/// Whether `s` holds no `/`.
pub fn check_name(s: &str) -> (ok: bool)
    ensures
        ok == is_name(s@),
{
    let chars = chars_of(s);
    let mut i: usize = 0;
    while i < chars.len()
        invariant
            i <= chars.len(),
            chars@ == s@,
            forall|j: int| 0 <= j < i ==> chars@[j] != '/',
        decreases chars.len() - i,
    {
        if chars[i] == '/' {
            return false;
        }
        i = i + 1;
    }
    true
}

impl Worker {
    /// Says where a task fails on the contents it is given: nothing for a Map task,
    /// which cannot fail, and the fault of the partition for a Reduce task. There is a
    /// fault exactly if `run` fails, whatever name is drawn.
    pub fn fault<A: MapReduceApp>(&self, task: &Task, mr_app: &A, inputs: &Vec<String>) -> (fault:
        Option<Fault>)
        ensures
            forall|drawn: Seq<char>|
                fault is Some <==> (#[trigger] run_spec(
                    self.id@,
                    task@,
                    mr_app,
                    inputs.deep_view(),
                    drawn,
                )) is Err,
            task@ is MapFile ==> fault is None,
            fault matches Some(f) ==> is_reduce_fault(mr_app, inputs.deep_view().flatten(), f),
    {
        match task {
            Task::MapFile(..) => None,
            Task::Reduce(_) => {
                let contents = join_texts(inputs);
                reduce_fault(mr_app, contents.as_str())
            },
        }
    }

    /// Draws a name for the run and runs the task with it: what `run` gives for
    /// some name that is the text of a UUID.
    pub fn execute<A: MapReduceApp>(&self, task: Task, mr_app: &A, inputs: Vec<String>) -> (r:
        Result<FileWrite, MrError>)
        ensures
            exists|drawn: Seq<char>|
                #![trigger run_spec(self.id@, task@, mr_app, inputs.deep_view(), drawn)]
                is_uuid_text(drawn) && match r {
                    Ok(write) => run_spec(self.id@, task@, mr_app, inputs.deep_view(), drawn)
                        == Ok::<FileWriteView, MrError>(write@),
                    Err(e) => run_spec(self.id@, task@, mr_app, inputs.deep_view(), drawn)
                        == Err::<FileWriteView, MrError>(e),
                },
    {
        let drawn = fresh_id();
        self.run(task, mr_app, inputs, drawn)
    }

    /// A worker with a fresh random identifier.
    pub fn new() -> (worker: Worker)
        ensures
            worker.wf(),
            is_uuid_text(worker.id@),
    {
        let id = fresh_id();
        assert forall|i: int| 0 <= i < id@.len() implies id@[i] != '/' by {
            if i == 8 || i == 13 || i == 18 || i == 23 {
            } else {
                assert(is_hex_digit(id@[i]));
            }
        }
        Worker { id }
    }
}

/// What has just happened to a worker thread.
#[derive(Debug, PartialEq, Eq)]
pub enum WorkerEvent {
    /// The thread has started.
    Started,
    /// The queue gave a task.
    Took(Task),
    /// The queue is closed and empty.
    QueueClosed,
    /// The task in hand has ended, all its writes included; `true` if it succeeded.
    Finished(bool),
    /// The notice for the task in hand was given; `false` if the channel for
    /// notices is closed.
    Noticed(bool),
}

/// What a worker thread does next.
#[derive(Debug, PartialEq, Eq)]
pub enum WorkerAction {
    /// Wait for a task from the queue.
    Take,
    /// Read what the task names, run it and write what it leaves behind.
    Execute(Task),
    /// Give notice that the task in hand has ended.
    Notify,
    /// End the thread.
    Stop,
}

/// The life of a worker: take a task, execute it to its end, give notice, again. The
/// notice is given only after the task has ended, and after every task, failed or
/// not: a failure does not end the worker. A closed queue, or a closed channel for
/// notices, does.
pub open spec fn worker_step_spec(event: WorkerEvent) -> WorkerAction {
    match event {
        WorkerEvent::Started => WorkerAction::Take,
        WorkerEvent::Took(task) => WorkerAction::Execute(task),
        WorkerEvent::QueueClosed => WorkerAction::Stop,
        WorkerEvent::Finished(_) => WorkerAction::Notify,
        WorkerEvent::Noticed(given) => if given {
            WorkerAction::Take
        } else {
            WorkerAction::Stop
        },
    }
}

/// A worker gives notice exactly after a task has ended, and never while it holds a
/// task that has not: the barrier can count on it that a notice follows the writes
/// of the task.
pub proof fn lemma_notice_follows_the_end(event: WorkerEvent)
    ensures
        worker_step_spec(event) == WorkerAction::Notify <==> event is Finished,
        event is Took ==> worker_step_spec(event) is Execute,
{
}

/// What a worker thread does after `event`.
pub fn worker_step(event: WorkerEvent) -> (action: WorkerAction)
    ensures
        action == worker_step_spec(event),
{
    match event {
        WorkerEvent::Started => WorkerAction::Take,
        WorkerEvent::Took(task) => WorkerAction::Execute(task),
        WorkerEvent::QueueClosed => WorkerAction::Stop,
        WorkerEvent::Finished(_) => WorkerAction::Notify,
        WorkerEvent::Noticed(given) => if given {
            WorkerAction::Take
        } else {
            WorkerAction::Stop
        },
    }
}

/// What a pool has done, in order.
pub enum PoolEvent {
    /// The queue took the task.
    Submitted(TaskView),
    /// A completion notice had come in for every task the queue had taken.
    Drained,
}

/// How a submission ended.
#[derive(Debug, PartialEq, Eq)]
pub enum Submit {
    /// The queue took the task.
    Sent,
    /// The queue is full: nothing changed, and the task comes back to be
    /// submitted again once a worker has made room.
    Full(Task),
    /// The queue is closed: nothing changed.
    Closed(Task),
}

/// A fixed set of workers, the bounded queue that feeds them, and the count of the
/// tasks that are under way. Each worker takes tasks from `job_receiver()` and
/// sends one notice through `done_sender()` after it has finished one, its
/// writes included.
pub struct WorkerPool {
    pub workers: Vec<Worker>,
    sender: Sender<Task>,
    receiver: Receiver<Task>,
    done_sender: Sender<String>,
    done_receiver: Receiver<String>,
    capacity: usize,
    outstanding: u64,
    history: Ghost<Seq<PoolEvent>>,
}

/// The identifiers of these workers, in order.
pub open spec fn ids_of(workers: Seq<Worker>) -> Seq<Seq<char>> {
    Seq::new(workers.len(), |i: int| workers[i].id@)
}

/// Workers that can form a pool: at least one, each identifier a name, no two
/// alike. Then every worker has a partition directory of its own.
pub open spec fn can_form_pool(workers: Seq<Worker>) -> bool {
    &&& workers.len() > 0
    &&& forall|i: int| 0 <= i < workers.len() ==> (#[trigger] workers[i]).wf()
    &&& ids_of(workers).no_duplicates()
}

fn check_workers(workers: &Vec<Worker>) -> (ok: bool)
    ensures
        ok == can_form_pool(workers@),
{
    if workers.len() == 0 {
        return false;
    }
    let mut i: usize = 0;
    while i < workers.len()
        invariant
            i <= workers.len(),
            forall|j: int| 0 <= j < i ==> (#[trigger] workers[j]).wf(),
            forall|a: int, b: int|
                0 <= a < b < i ==> (#[trigger] ids_of(workers@)[a]) != (#[trigger] ids_of(
                    workers@,
                )[b]),
        decreases workers.len() - i,
    {
        if !check_name(workers[i].id.as_str()) {
            assert(!workers[i as int].wf());
            return false;
        }
        let mut k: usize = 0;
        while k < i
            invariant
                k <= i < workers.len(),
                forall|a: int| 0 <= a < k ==> (#[trigger] ids_of(workers@)[a]) != ids_of(workers@)[i as int],
            decreases i - k,
        {
            if workers[k].id == workers[i].id {
                assert(ids_of(workers@)[k as int] == ids_of(workers@)[i as int]);
                return false;
            }
            k = k + 1;
        }
        i = i + 1;
    }
    assert forall|a: int, b: int|
        0 <= a < ids_of(workers@).len() && 0 <= b < ids_of(workers@).len() && a != b implies ids_of(
        workers@,
    )[a] != ids_of(workers@)[b] by {
        if a < b {
            assert(ids_of(workers@)[a] != ids_of(workers@)[b]);
        } else {
            assert(ids_of(workers@)[b] != ids_of(workers@)[a]);
        }
    }
    true
}

impl WorkerPool {
    /// How many tasks the queue has taken without a completion notice having come
    /// back.
    pub closed spec fn outstanding(&self) -> nat {
        self.outstanding as nat
    }

    /// How many tasks the queue was made to hold.
    pub closed spec fn capacity(&self) -> nat {
        self.capacity as nat
    }

    /// What the pool has done since it was made.
    pub closed spec fn history(&self) -> Seq<PoolEvent> {
        self.history@
    }

    /// The workers of the pool, in order.
    pub closed spec fn members(&self) -> Seq<Worker> {
        self.workers@
    }

    /// The receiving end of the job queue: where the tasks that `run_task` sent come
    /// out.
    pub closed spec fn job_queue(&self) -> Receiver<Task> {
        self.receiver
    }

    /// The sending end of the channel whose notices `wait` counts.
    pub closed spec fn done_channel(&self) -> Sender<String> {
        self.done_sender
    }

    /// The identifiers of the workers, in order.
    pub open spec fn ids(&self) -> Seq<Seq<char>> {
        ids_of(self.members())
    }

    /// The workers can form a pool.
    pub open spec fn wf(&self) -> bool {
        can_form_pool(self.members())
    }

    /// The workers of the pool, in order.
    pub fn workers(&self) -> (workers: &Vec<Worker>)
        ensures
            workers@ == self.members(),
    {
        &self.workers
    }

    /// A pool of these workers, with a queue that holds as many tasks as there are
    /// workers. There is none for workers that cannot form a pool.
    pub fn with_workers(workers: Vec<Worker>) -> (made: Option<WorkerPool>)
        ensures
            made is Some <==> can_form_pool(workers@),
            made matches Some(pool) ==> {
                &&& pool.members() == workers@
                &&& pool.capacity() == workers.len()
                &&& pool.outstanding() == 0
                &&& pool.history() == Seq::<PoolEvent>::empty()
            },
    {
        if !check_workers(&workers) {
            return None;
        }
        let capacity = workers.len();
        let (sender, receiver) = bounded::<Task>(capacity);
        let (done_sender, done_receiver) = unbounded::<String>();
        Some(
            WorkerPool {
                workers,
                sender,
                receiver,
                done_sender,
                done_receiver,
                capacity,
                outstanding: 0,
                history: Ghost(Seq::empty()),
            },
        )
    }

    /// A pool of `size` workers, each with a freshly drawn identifier, and a queue
    /// that holds `size` tasks. The workers drawn are handed to `with_workers`, which
    /// makes no pool of workers with a repeated identifier: whether there is a pool
    /// is left to the draw, except that a single worker always gets its pool.
    pub fn new(size: usize) -> (made: Option<WorkerPool>)
        requires
            size > 0,
        ensures
            made matches Some(pool) ==> {
                &&& pool.wf()
                &&& is_draw(pool.ids(), size as nat)
                &&& pool.members().len() == size
                &&& pool.capacity() == size
                &&& pool.outstanding() == 0
                &&& pool.history() == Seq::<PoolEvent>::empty()
            },
            size == 1 ==> made is Some,
    {
        let mut workers: Vec<Worker> = Vec::new();
        let mut i: usize = 0;
        while i < size
            invariant
                i <= size,
                workers.len() == i,
                forall|j: int| 0 <= j < i ==> (#[trigger] workers[j]).wf(),
                forall|j: int| 0 <= j < i ==> is_uuid_text((#[trigger] workers[j]).id@),
            decreases size - i,
        {
            workers.push(Worker::new());
            i = i + 1;
        }
        let ghost drawn = ids_of(workers@);
        assert(is_draw(drawn, size as nat)) by {
            assert forall|j: int| 0 <= j < drawn.len() implies is_uuid_text(#[trigger] drawn[j]) by {
                assert(drawn[j] == workers[j].id@);
            }
        }
        WorkerPool::with_workers(workers)
    }

    /// Whether the workers can form a pool. A pool that `with_workers` made can,
    /// unless its list of workers was changed since.
    pub fn is_well_formed(&self) -> (ok: bool)
        ensures
            ok == self.wf(),
    {
        check_workers(&self.workers)
    }

    /// The end of the queue from which the workers take their tasks. Each worker
    /// thread gets a clone of it. It is the same end for as long as the pool lives.
    pub fn job_receiver(&self) -> (queue: &Receiver<Task>)
        ensures
            *queue == self.job_queue(),
    {
        &self.receiver
    }

    /// The channel through which a worker says, with its identifier, that it has
    /// finished a task. Each worker thread gets a clone of it. It is the same
    /// channel for as long as the pool lives.
    pub fn done_sender(&self) -> (channel: &Sender<String>)
        ensures
            *channel == self.done_channel(),
    {
        &self.done_sender
    }

    /// How many tasks the queue holds at most.
    pub fn queue_capacity(&self) -> (capacity: usize)
        ensures
            capacity == self.capacity(),
    {
        self.capacity
    }

    /// Offers a task to the queue without waiting. Only a task that the queue took
    /// counts as submitted; a task that it did not take comes back.
    pub fn run_task(&mut self, task: Task) -> (r: Submit)
        ensures
            final(self).members() == old(self).members(),
            final(self).capacity() == old(self).capacity(),
            final(self).job_queue() == old(self).job_queue(),
            final(self).done_channel() == old(self).done_channel(),
            old(self).outstanding() == u64::MAX ==> r matches Submit::Full(_),
            match r {
                Submit::Sent => {
                    &&& final(self).outstanding() == old(self).outstanding() + 1
                    &&& final(self).history() == old(self).history().push(
                        PoolEvent::Submitted(task@),
                    )
                },
                Submit::Full(back) | Submit::Closed(back) => {
                    &&& back@ == task@
                    &&& final(self).outstanding() == old(self).outstanding()
                    &&& final(self).history() == old(self).history()
                },
            },
    {
        if self.outstanding == u64::MAX {
            // No further task can be counted: refused like a task that finds the
            // queue full, without asking the queue.
            return Submit::Full(task);
        }
        let ghost offered = task@;
        let answer = try_send(&self.sender, task);
        self.settle(answer, Ghost(offered))
    }

    /// What the queue's answer to the offer of a task means for the pool: a task
    /// that was taken is counted and recorded; one that was not comes back, and
    /// nothing changes.
    fn settle(&mut self, answer: Enqueued<Task>, Ghost(offered): Ghost<TaskView>) -> (r: Submit)
        requires
            old(self).outstanding() < u64::MAX,
        ensures
            final(self).members() == old(self).members(),
            final(self).capacity() == old(self).capacity(),
            final(self).job_queue() == old(self).job_queue(),
            final(self).done_channel() == old(self).done_channel(),
            match answer {
                Enqueued::Taken => {
                    &&& r == Submit::Sent
                    &&& final(self).outstanding() == old(self).outstanding() + 1
                    &&& final(self).history() == old(self).history().push(
                        PoolEvent::Submitted(offered),
                    )
                },
                Enqueued::Full(back) => {
                    &&& r == Submit::Full(back)
                    &&& final(self).outstanding() == old(self).outstanding()
                    &&& final(self).history() == old(self).history()
                },
                Enqueued::Closed(back) => {
                    &&& r == Submit::Closed(back)
                    &&& final(self).outstanding() == old(self).outstanding()
                    &&& final(self).history() == old(self).history()
                },
            },
    {
        match answer {
            Enqueued::Taken => {
                self.outstanding = self.outstanding + 1;
                self.history = Ghost(self.history@.push(PoolEvent::Submitted(offered)));
                Submit::Sent
            },
            Enqueued::Full(back) => Submit::Full(back),
            Enqueued::Closed(back) => Submit::Closed(back),
        }
    }

    /// What the notice channel's answer means while tasks are outstanding: a notice
    /// makes one task fewer outstanding, and the pool looks again (`None`); an empty
    /// channel means that some task is not finished; a closed one, that no notice
    /// can come any more.
    fn note(&mut self, answer: Dequeued<String>) -> (r: Option<Result<bool, MrError>>)
        requires
            old(self).outstanding() > 0,
        ensures
            final(self).members() == old(self).members(),
            final(self).capacity() == old(self).capacity(),
            final(self).job_queue() == old(self).job_queue(),
            final(self).done_channel() == old(self).done_channel(),
            final(self).history() == old(self).history(),
            match answer {
                Dequeued::Message(_) => {
                    &&& r is None
                    &&& final(self).outstanding() == old(self).outstanding() - 1
                },
                Dequeued::Empty => {
                    &&& r == Some(Ok::<bool, MrError>(false))
                    &&& final(self).outstanding() == old(self).outstanding()
                },
                Dequeued::Closed => {
                    &&& r == Some(Err::<bool, MrError>(MrError::QueueClosed))
                    &&& final(self).outstanding() == old(self).outstanding()
                },
            },
    {
        match answer {
            Dequeued::Message(_) => {
                self.outstanding = self.outstanding - 1;
                None
            },
            Dequeued::Empty => Some(Ok(false)),
            Dequeued::Closed => Some(Err(MrError::QueueClosed)),
        }
    }

    /// Takes in the completion notices that have arrived, without waiting, and says
    /// whether every submitted task is now finished. The answer rests on the count of
    /// notices, not on the queue being empty: a task that a worker has taken and not
    /// finished is still outstanding.
    pub fn wait(&mut self) -> (r: Result<bool, MrError>)
        ensures
            final(self).members() == old(self).members(),
            final(self).capacity() == old(self).capacity(),
            final(self).job_queue() == old(self).job_queue(),
            final(self).done_channel() == old(self).done_channel(),
            final(self).outstanding() <= old(self).outstanding(),
            old(self).outstanding() == 0 ==> r == Ok::<bool, MrError>(true),
            match r {
                Ok(drained) => {
                    &&& drained <==> final(self).outstanding() == 0
                    &&& final(self).history() == if drained {
                        old(self).history().push(PoolEvent::Drained)
                    } else {
                        old(self).history()
                    }
                },
                Err(e) => {
                    &&& e == MrError::QueueClosed
                    &&& final(self).outstanding() > 0
                    &&& final(self).history() == old(self).history()
                },
            },
    {
        while self.outstanding > 0
            invariant
                self.members() == old(self).members(),
                self.capacity() == old(self).capacity(),
                self.job_queue() == old(self).job_queue(),
                self.done_channel() == old(self).done_channel(),
                self.outstanding() <= old(self).outstanding(),
                self.history() == old(self).history(),
            decreases self.outstanding(),
        {
            let answer = try_recv(&self.done_receiver);
            match self.note(answer) {
                Some(r) => {
                    return r;
                },
                None => {},
            }
        }
        self.history = Ghost(self.history@.push(PoolEvent::Drained));
        Ok(true)
    }
}

} // verus!
