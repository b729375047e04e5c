//! What every part of the engine shares: tasks, the application's two functions,
//! and the ways a run can fail.

use vstd::prelude::*;

verus! {

/// An intermediate or final record: a key and a value.
pub type Pair = (Seq<char>, Seq<char>);

/// A unit of work for a worker.
#[derive(Debug, PartialEq, Eq)]
pub enum Task {
    /// Map one document: its file name, and the path it is read from.
    MapFile(String, String),
    /// Reduce the partition of the worker with this identifier.
    Reduce(String),
}

/// A task as plain text.
pub enum TaskView {
    MapFile(Seq<char>, Seq<char>),
    Reduce(Seq<char>),
}

impl View for Task {
    type V = TaskView;

    open spec fn view(&self) -> TaskView {
        match self {
            Task::MapFile(filename, path) => TaskView::MapFile(filename@, path@),
            Task::Reduce(worker_id) => TaskView::Reduce(worker_id@),
        }
    }
}

impl Clone for Task {
    fn clone(&self) -> (copy: Self)
        ensures
            copy@ == self@,
    {
        match self {
            Task::MapFile(filename, path) => Task::MapFile(filename.clone(), path.clone()),
            Task::Reduce(worker_id) => Task::Reduce(worker_id.clone()),
        }
    }
}

/// Why a run stopped.
#[derive(Clone, Copy, Debug, PartialEq, Eq, Structural)]
pub enum MrError {
    /// A directory or a file could not be read or written.
    Io,
    /// A line of a partition or of a reduce output lacks its separator.
    Format,
    /// A value that has to be merged as a number is not one, or a sum leaves the
    /// range of 64 bits.
    Parse,
    /// The job queue was closed while the coordinator still had work for it.
    QueueClosed,
}

impl MrError {
    /// What went wrong, in words.
    pub fn message(&self) -> (text: &'static str)
        ensures
            text@ == match self {
                MrError::Io => "a file or a directory could not be read or written"@,
                MrError::Format => "a line lacks its separator"@,
                MrError::Parse => "a value is not a number that can be merged"@,
                MrError::QueueClosed => "the job queue is closed"@,
            },
    {
        match self {
            MrError::Io => "a file or a directory could not be read or written",
            MrError::Format => "a line lacks its separator",
            MrError::Parse => "a value is not a number that can be merged",
            MrError::QueueClosed => "the job queue is closed",
        }
    }
}

/// The application that the engine runs: a map function and a reduce function. Both
/// are functions of their arguments alone, which `map_spec` and `reduce_spec` name.
pub trait MapReduceApp: Send + Sync {
    /// The pairs that `map` makes of a document.
    spec fn map_spec(&self, filename: Seq<char>, contents: Seq<char>) -> Seq<Pair>;

    /// What `reduce` makes of the values of one key.
    spec fn reduce_spec(&self, key: Seq<char>, values: Seq<Seq<char>>) -> Seq<char>;

    fn map(&self, filename: String, contents: String) -> (pairs: Vec<(String, String)>)
        ensures
            pairs.deep_view() == self.map_spec(filename@, contents@),
    ;

    fn reduce(&self, key: String, values: Vec<String>) -> (value: String)
        ensures
            value@ == self.reduce_spec(key@, values.deep_view()),
    ;
}

/// An engine: made of documents and an application, then run.
pub trait MapReduce<A: MapReduceApp>: Sized {
    /// What a run hands back.
    type Outcome;

    /// The engine holds these documents and this application.
    spec fn made_of(&self, input: Seq<Pair>, mr_app: A) -> bool;

    /// A run of the engine may hand this back.
    spec fn hands_back(&self, outcome: Self::Outcome) -> bool;

    fn new(input: Vec<(String, String)>, mr_app: A) -> (engine: Self)
        ensures
            engine.made_of(input.deep_view(), mr_app),
    ;

    fn run(self) -> (outcome: Self::Outcome)
        ensures
            self.hands_back(outcome),
    ;
}

} // verus!
