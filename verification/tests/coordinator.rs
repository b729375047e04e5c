use mapreduce::common::{MapReduce, MrError, Task};
use mapreduce::map_reduce_apps::WordCount;
use mapreduce::mr_parallel::coordinator::{Coordinator, Phase, Run, Step};
use mapreduce::mr_parallel::worker_pool::{Source, Worker, WorkerPool};
use mapreduce::mr_parallel::ParallelMapReduce;
use std::collections::BTreeMap;

/// Files by path, in place of a disk.
type Disk = BTreeMap<String, String>;

fn disk(files: &[(&str, &str)]) -> Disk {
    files.iter().map(|(p, c)| (p.to_string(), c.to_string())).collect()
}

fn listing(names: &[&str]) -> Vec<(String, String)> {
    names.iter().map(|n| (n.to_string(), format!("in/{}", n))).collect()
}

fn workers(ids: &[&str]) -> Vec<Worker> {
    ids.iter().map(|id| Worker { id: id.to_string() }).collect()
}

fn begin(ids: &[&str], names: &[&str]) -> Run {
    Run::begin(WorkerPool::with_workers(workers(ids)).unwrap(), listing(names)).unwrap()
}

/// The contents of the regular files directly under `dir`.
fn files_under(disk: &Disk, dir: &str) -> Vec<String> {
    let prefix = format!("{}/", dir);
    disk.iter()
        .filter(|(path, _)| path.starts_with(&prefix) && !path[prefix.len()..].contains('/'))
        .map(|(_, contents)| contents.clone())
        .collect()
}

/// What a worker thread does with one task: read, run, write, give notice. In place
/// of a name drawn for a reduce output, the tests take one that tells the partition.
fn serve(run: &Run, worker: usize, task: Task, disk: &mut Disk) -> Result<(), MrError> {
    let name = match &task {
        Task::Reduce(id) => format!("of-{}", id),
        Task::MapFile(..) => String::new(),
    };
    let inputs = match task.source() {
        Source::File(path) => vec![disk.get(&path).cloned().ok_or(MrError::Io)?],
        Source::Dir(dir) => files_under(disk, &dir),
    };
    let worker = &run.pool().workers()[worker];
    let write = worker.run(task, &WordCount {}, inputs, name)?;
    disk.insert(write.path, write.contents);
    run.pool().done_sender().try_send(worker.id.clone()).unwrap();
    Ok(())
}

/// Runs to the end on one thread. Whenever the run cannot go on, the tasks in the
/// queue are served; `pick` says which worker takes the n-th task.
fn play(mut run: Run, disk: &mut Disk, pick: &dyn Fn(usize) -> usize) -> (Run, Vec<Task>) {
    let mut served = Vec::new();
    loop {
        let (next, phase) = run.advance();
        run = next;
        if phase == Ok(Phase::Combining) {
            return (run, served);
        }
        assert!(phase.is_ok());
        let queue = run.pool().job_receiver().clone();
        assert!(!queue.is_empty());
        while let Ok(task) = queue.try_recv() {
            served.push(task.clone());
            serve(&run, pick(served.len() - 1), task, disk).unwrap();
        }
    }
}

fn report(disk: &Disk) -> Result<String, MrError> {
    Coordinator {}.combine_all_out_files(files_under(disk, "output/output"))
}

fn sorted_lines(text: &str) -> Vec<String> {
    let mut lines: Vec<String> = text.lines().map(|l| l.to_string()).collect();
    lines.sort();
    lines
}

#[test]
fn word_count_with_one_worker() {
    let mut disk = disk(&[("in/a.txt", "the cat the dog")]);
    let (_, served) = play(begin(&["w1"], &["a.txt"]), &mut disk, &|_| 0);
    assert_eq!(
        served,
        vec![
            Task::MapFile("a.txt".to_string(), "in/a.txt".to_string()),
            Task::Reduce("w1".to_string()),
        ]
    );
    assert_eq!(disk["output/worker-w1/a.txt"], "the,1\ncat,1\nthe,1\ndog,1\n");
    assert_eq!(disk["output/output/of-w1"], "the 2\ncat 1\ndog 1\n");
    let report = report(&disk).unwrap();
    assert_eq!(report.lines().next(), Some("the 2"));
    assert_eq!(sorted_lines(&report), vec!["cat 1", "dog 1", "the 2"]);
}

#[test]
fn start_pool_begins_in_the_map_phase() {
    let run = Coordinator {}.start_pool(listing(&["a.txt", "b.txt"]), 3).unwrap();
    assert_eq!(run.phase(), Phase::Mapping);
    assert_eq!(run.pool().workers().len(), 3);
    assert!(run.pool().job_receiver().is_empty());
}

#[test]
fn parallel_engine_starts_with_two_workers() {
    let engine = ParallelMapReduce::new(listing(&["a.txt"]), WordCount {});
    let (run, _app) = engine.run().unwrap();
    assert_eq!(run.pool().workers().len(), 2);
    assert_eq!(run.phase(), Phase::Mapping);
}

#[test]
fn begin_refuses_a_pool_whose_workers_were_changed() {
    let mut pool = WorkerPool::with_workers(workers(&["w1"])).unwrap();
    pool.workers.push(Worker { id: "w1".to_string() });
    assert!(Run::begin(pool, listing(&["a.txt"])).is_none());
}

#[test]
fn one_map_task_per_file_then_one_reduce_task_per_worker() {
    let names = ["a.txt", "b.txt", "c.txt", "d.txt", "e.txt"];
    let mut disk = disk(&[
        ("in/a.txt", "x"),
        ("in/b.txt", "y"),
        ("in/c.txt", "x y"),
        ("in/d.txt", ""),
        ("in/e.txt", "z"),
    ]);
    let (_, served) = play(begin(&["w1", "w2"], &names), &mut disk, &|n| n % 2);
    let mut expected: Vec<Task> =
        names.iter().map(|n| Task::MapFile(n.to_string(), format!("in/{}", n))).collect();
    expected.push(Task::Reduce("w1".to_string()));
    expected.push(Task::Reduce("w2".to_string()));
    assert_eq!(served, expected);
}

#[test]
fn no_reduce_task_before_every_map_task_is_finished() {
    let mut disk = disk(&[("in/a.txt", "x"), ("in/b.txt", "y")]);
    let mut run = begin(&["w1", "w2"], &["a.txt", "b.txt"]);
    let mut step;
    (run, step) = run.step();
    assert_eq!(step, Ok(Step::Submitted));
    (run, step) = run.step();
    assert_eq!(step, Ok(Step::Submitted));
    // Both Map tasks are in the queue; the barrier holds.
    (run, step) = run.step();
    assert_eq!(step, Ok(Step::Pending));
    assert_eq!(run.phase(), Phase::Mapping);
    let queue = run.pool().job_receiver().clone();
    let first = queue.try_recv().unwrap();
    serve(&run, 0, first, &mut disk).unwrap();
    (run, step) = run.step();
    assert_eq!(step, Ok(Step::Pending));
    assert_eq!(run.phase(), Phase::Mapping);
    let second = queue.try_recv().unwrap();
    serve(&run, 1, second, &mut disk).unwrap();
    assert!(queue.is_empty());
    (run, step) = run.step();
    assert_eq!(step, Ok(Step::Drained));
    assert_eq!(run.phase(), Phase::Reducing);
    assert!(queue.is_empty());
    (run, step) = run.step();
    assert_eq!(step, Ok(Step::Submitted));
    assert_eq!(queue.try_recv().ok(), Some(Task::Reduce("w1".to_string())));
    assert_eq!(run.phase(), Phase::Reducing);
}

#[test]
fn an_empty_queue_is_no_barrier() {
    let mut run = begin(&["w1"], &["a.txt"]);
    let mut step;
    (run, step) = run.step();
    assert_eq!(step, Ok(Step::Submitted));
    // A worker takes the task and is still at work on it: the queue is empty.
    let queue = run.pool().job_receiver().clone();
    let task = queue.try_recv().unwrap();
    assert!(queue.is_empty());
    (run, step) = run.step();
    assert_eq!(step, Ok(Step::Pending));
    assert_eq!(run.phase(), Phase::Mapping);
    let (next, phase) = run.advance();
    run = next;
    assert_eq!(phase, Ok(Phase::Mapping));
    assert!(queue.is_empty());
    // Only the notice that follows the write lets the run go on.
    let mut disk = disk(&[("in/a.txt", "x")]);
    serve(&run, 0, task, &mut disk).unwrap();
    (run, step) = run.step();
    assert_eq!(step, Ok(Step::Drained));
    assert_eq!(run.phase(), Phase::Reducing);
}

#[test]
fn a_full_queue_loses_no_task() {
    let names = ["a.txt", "b.txt", "c.txt", "d.txt", "e.txt", "f.txt"];
    let mut disk: Disk = names.iter().map(|n| (format!("in/{}", n), n.to_string())).collect();
    let mut run = begin(&["w1"], &names);
    let mut step;
    (run, step) = run.step();
    assert_eq!(step, Ok(Step::Submitted));
    (run, step) = run.step();
    assert_eq!(step, Ok(Step::QueueFull));
    (run, step) = run.step();
    assert_eq!(step, Ok(Step::QueueFull));
    assert_eq!(run.pool().job_receiver().len(), 1);
    let (_, served) = play(run, &mut disk, &|_| 0);
    let mut expected: Vec<Task> =
        names.iter().map(|n| Task::MapFile(n.to_string(), format!("in/{}", n))).collect();
    expected.push(Task::Reduce("w1".to_string()));
    assert_eq!(served, expected);
    for n in names {
        assert!(disk.contains_key(&format!("output/worker-w1/{}", n)));
    }
}

#[test]
fn a_run_without_files_still_reduces_every_partition() {
    let mut disk = Disk::new();
    let (run, served) = play(begin(&["w1", "w2"], &[]), &mut disk, &|n| n % 2);
    assert_eq!(served, vec![Task::Reduce("w1".to_string()), Task::Reduce("w2".to_string())]);
    assert_eq!(run.phase(), Phase::Combining);
    assert_eq!(disk["output/output/of-w1"], "");
    assert_eq!(disk["output/output/of-w2"], "");
    assert_eq!(report(&disk), Ok(String::new()));
}

#[test]
fn a_finished_run_stays_finished() {
    let mut disk = Disk::new();
    let (mut run, _) = play(begin(&["w1"], &[]), &mut disk, &|_| 0);
    let mut step;
    (run, step) = run.step();
    assert_eq!(step, Ok(Step::Finished));
    (run, step) = run.step();
    assert_eq!(step, Ok(Step::Finished));
    let (run, phase) = run.advance();
    assert_eq!(phase, Ok(Phase::Combining));
    assert!(run.pool().job_receiver().is_empty());
}

#[test]
fn a_closed_queue_stops_the_run() {
    let run = begin(&["w1"], &["a.txt"]);
    run.pool().job_receiver().close();
    let (run, step) = run.step();
    assert_eq!(step, Err(MrError::QueueClosed));
    assert_eq!(run.phase(), Phase::Mapping);
    let (_, phase) = run.advance();
    assert_eq!(phase, Err(MrError::QueueClosed));
}

#[test]
fn totals_do_not_depend_on_which_worker_maps_which_file() {
    let files = [
        ("in/a.txt", "the cat the dog"),
        ("in/b.txt", "a dog and a cat"),
        ("in/c.txt", "The end"),
        ("in/d.txt", "dog dog dog"),
    ];
    let names = ["a.txt", "b.txt", "c.txt", "d.txt"];
    let ids = ["w1", "w2", "w3"];
    let mut one = disk(&files);
    play(begin(&ids, &names), &mut one, &|n| n % 3);
    let mut other = disk(&files);
    play(begin(&ids, &names), &mut other, &|n| if n < 4 { 2 - n % 2 } else { 0 });
    assert_ne!(one["output/output/of-w1"], other["output/output/of-w1"]);
    let expected = vec!["a 2", "and 1", "cat 2", "dog 5", "end 1", "the 3"];
    assert_eq!(sorted_lines(&report(&one).unwrap()), expected);
    assert_eq!(sorted_lines(&report(&other).unwrap()), expected);
}

#[test]
fn a_reduce_task_sees_only_its_own_partition() {
    let mut disk = disk(&[("in/a.txt", "apple"), ("in/b.txt", "banana banana")]);
    // w1 maps a.txt, w2 maps b.txt; then each partition is reduced.
    play(begin(&["w1", "w2"], &["a.txt", "b.txt"]), &mut disk, &|n| n % 2);
    assert_eq!(disk["output/worker-w1/a.txt"], "apple,1\n");
    assert_eq!(disk["output/worker-w2/b.txt"], "banana,1\nbanana,1\n");
    assert_eq!(disk["output/output/of-w1"], "apple 1\n");
    assert_eq!(disk["output/output/of-w2"], "banana 2\n");
    assert_eq!(report(&disk), Ok("banana 2\napple 1\n".to_string()));
}

#[test]
fn the_report_is_ordered_by_descending_total() {
    let mut disk = disk(&[("in/a.txt", "b a c b c b"), ("in/b.txt", "c b d")]);
    play(begin(&["w1", "w2"], &["a.txt", "b.txt"]), &mut disk, &|n| n % 2);
    assert_eq!(report(&disk), Ok("b 4\nc 3\na 1\nd 1\n".to_string()));
}

#[test]
fn combine_fails_on_a_malformed_reduce_output() {
    let coord = Coordinator {};
    assert_eq!(
        coord.combine_all_out_files(vec!["the 2\n".to_string(), "cat\n".to_string()]),
        Err(MrError::Format)
    );
    assert_eq!(
        coord.combine_all_out_files(vec!["the two\n".to_string()]),
        Err(MrError::Parse)
    );
}

#[test]
fn start_naive_counts_the_words_of_one_document() {
    let documents = vec![("a.txt".to_string(), "the cat the dog".to_string())];
    assert_eq!(
        Coordinator {}.start_naive(documents, &WordCount {}),
        Ok("the 2\ncat 1\ndog 1\n".to_string())
    );
}

#[test]
fn start_naive_merges_the_partitions_of_all_documents() {
    let documents = vec![
        ("a.txt".to_string(), "the cat the dog".to_string()),
        ("b.txt".to_string(), "a dog and a cat".to_string()),
        ("c.txt".to_string(), "".to_string()),
        ("d.txt".to_string(), "dog dog dog".to_string()),
    ];
    assert_eq!(
        Coordinator {}.start_naive(documents, &WordCount {}),
        Ok("dog 5\nthe 2\ncat 2\na 2\nand 1\n".to_string())
    );
}

#[test]
fn start_naive_on_nothing_reports_nothing() {
    assert_eq!(Coordinator {}.start_naive(vec![], &WordCount {}), Ok(String::new()));
}

#[test]
fn start_naive_agrees_with_the_pool() {
    let files = [("in/a.txt", "x y x"), ("in/b.txt", "y z"), ("in/c.txt", "x")];
    let mut disk = disk(&files);
    play(begin(&["w1", "w2"], &["a.txt", "b.txt", "c.txt"]), &mut disk, &|n| n % 2);
    let documents = vec![
        ("a.txt".to_string(), "x y x".to_string()),
        ("b.txt".to_string(), "y z".to_string()),
        ("c.txt".to_string(), "x".to_string()),
    ];
    let naive = Coordinator {}.start_naive(documents, &WordCount {}).unwrap();
    assert_eq!(sorted_lines(&naive), sorted_lines(&report(&disk).unwrap()));
    assert_eq!(sorted_lines(&naive), vec!["x 3", "y 2", "z 1"]);
}

#[test]
fn start_pool_with_one_worker_always_begins() {
    for _ in 0..20 {
        let run = Coordinator {}.start_pool(listing(&["a.txt"]), 1).unwrap();
        assert_eq!(run.phase(), Phase::Mapping);
        assert_eq!(run.pool().workers().len(), 1);
        assert_eq!(run.pool().queue_capacity(), 1);
        assert_eq!(run.pool().workers()[0].id.len(), 36);
        assert!(run.pool().job_receiver().is_empty());
    }
}

#[test]
fn a_run_keeps_the_channel_ends_of_its_pool() {
    let run = begin(&["w1"], &["a.txt", "b.txt"]);
    let queue = run.pool().job_receiver().clone();
    let done = run.pool().done_sender().clone();
    let (run, phase) = run.advance();
    assert_eq!(phase, Ok(Phase::Mapping));
    assert!(queue.same_channel(run.pool().job_receiver()));
    assert!(done.same_channel(run.pool().done_sender()));
    assert_eq!(queue.len(), 1);
}

#[test]
fn parallel_engine_begins_with_nothing_submitted() {
    let engine = ParallelMapReduce::new(listing(&["a.txt", "b.txt"]), WordCount {});
    let (run, _app) = engine.run().unwrap();
    assert_eq!(run.pool().queue_capacity(), 2);
    assert!(run.pool().job_receiver().is_empty());
    assert_ne!(run.pool().workers()[0].id, run.pool().workers()[1].id);
    assert_eq!(run.pool().workers()[0].id.len(), 36);
    assert_eq!(run.pool().workers()[1].id.len(), 36);
}

#[test]
fn failing_report_says_which_output_cannot_be_merged() {
    let coord = Coordinator {};
    let reports = vec!["the 2\n".to_string(), "cat one\n".to_string(), "dog\n".to_string()];
    assert_eq!(coord.failing_report(&reports), Some((1, MrError::Parse)));
    // The merge of all of them fails too, by the line without space.
    assert_eq!(coord.combine_all_out_files(reports), Err(MrError::Format));
    assert_eq!(coord.failing_report(&vec!["the 2\n".to_string()]), None);
}

#[test]
fn start_channels_deals_the_documents_to_the_workers() {
    let documents = vec![
        ("a.txt".to_string(), "the cat the dog".to_string()),
        ("b.txt".to_string(), "a dog and a cat".to_string()),
        ("c.txt".to_string(), "".to_string()),
        ("d.txt".to_string(), "dog dog dog".to_string()),
    ];
    // Worker 0 gets a.txt and c.txt, worker 1 gets b.txt and d.txt.
    assert_eq!(
        Coordinator {}.start_channels(documents, 2, &WordCount {}),
        Ok("dog 5\nthe 2\ncat 2\na 2\nand 1\n".to_string())
    );
}

#[test]
fn start_channels_with_one_worker_reduces_everything_at_once() {
    let documents = vec![
        ("a.txt".to_string(), "x y x".to_string()),
        ("b.txt".to_string(), "y z x".to_string()),
    ];
    assert_eq!(
        Coordinator {}.start_channels(documents, 1, &WordCount {}),
        Ok("x 3\ny 2\nz 1\n".to_string())
    );
}

#[test]
fn start_channels_with_more_workers_than_documents() {
    let documents = vec![("a.txt".to_string(), "x y x".to_string())];
    assert_eq!(
        Coordinator {}.start_channels(documents, 5, &WordCount {}),
        Ok("x 2\ny 1\n".to_string())
    );
}

#[test]
fn start_channels_without_a_worker_maps_nothing() {
    let documents = vec![("a.txt".to_string(), "x y x".to_string())];
    assert_eq!(Coordinator {}.start_channels(documents, 0, &WordCount {}), Ok(String::new()));
}

#[test]
fn start_channels_agrees_with_start_naive_on_the_totals() {
    let documents = vec![
        ("a.txt".to_string(), "x y x".to_string()),
        ("b.txt".to_string(), "y z".to_string()),
        ("c.txt".to_string(), "x".to_string()),
    ];
    let naive = Coordinator {}.start_naive(documents.clone(), &WordCount {}).unwrap();
    for workers in 1..5 {
        let dealt =
            Coordinator {}.start_channels(documents.clone(), workers, &WordCount {}).unwrap();
        assert_eq!(sorted_lines(&dealt), sorted_lines(&naive));
    }
}

#[test]
fn the_map_phase_is_followed_by_the_reduce_phase() {
    assert_eq!(Phase::Mapping.next_phase(), Phase::Reducing);
    assert_eq!(Phase::Reducing.next_phase(), Phase::Combining);
    assert_eq!(Phase::Combining.next_phase(), Phase::Combining);
}

#[test]
fn advance_goes_on_after_a_submission_or_a_barrier() {
    let run = begin(&["w1"], &["a.txt"]);
    assert_eq!(run.verdict(Ok(Step::Submitted)), None);
    assert_eq!(run.verdict(Ok(Step::Drained)), None);
}

#[test]
fn advance_hands_back_the_phase_when_the_run_has_to_wait() {
    let run = begin(&["w1"], &["a.txt"]);
    assert_eq!(run.verdict(Ok(Step::QueueFull)), Some(Ok(Phase::Mapping)));
    assert_eq!(run.verdict(Ok(Step::Pending)), Some(Ok(Phase::Mapping)));
    assert_eq!(run.verdict(Ok(Step::Finished)), Some(Ok(Phase::Mapping)));
    let mut disk = Disk::new();
    let (done, _) = play(begin(&["w1"], &[]), &mut disk, &|_| 0);
    assert_eq!(done.verdict(Ok(Step::Finished)), Some(Ok(Phase::Combining)));
}

#[test]
fn advance_hands_back_a_failure() {
    let run = begin(&["w1"], &["a.txt"]);
    assert_eq!(run.verdict(Err(MrError::QueueClosed)), Some(Err(MrError::QueueClosed)));
}

#[test]
fn advance_passes_a_barrier_that_is_due_with_nothing_outstanding() {
    // Without files the Map phase is over at once: the run goes on to the Reduce
    // phase and offers the first Reduce task.
    let run = begin(&["w1", "w2"], &[]);
    let (run, phase) = run.advance();
    assert_eq!(phase, Ok(Phase::Reducing));
    assert_eq!(run.phase(), Phase::Reducing);
    let queue = run.pool().job_receiver().clone();
    assert_eq!(queue.try_recv().ok(), Some(Task::Reduce("w1".to_string())));
    assert_eq!(queue.try_recv().ok(), Some(Task::Reduce("w2".to_string())));
}

#[test]
fn advance_answers_combining_exactly_when_the_run_is_finished() {
    let mut disk = disk(&[("in/a.txt", "x")]);
    let mut run = begin(&["w1"], &["a.txt"]);
    let mut answers = Vec::new();
    loop {
        let (next, phase) = run.advance();
        run = next;
        assert_eq!(phase == Ok(Phase::Combining), run.phase() == Phase::Combining);
        answers.push(phase);
        if phase == Ok(Phase::Combining) {
            break;
        }
        let queue = run.pool().job_receiver().clone();
        while let Ok(task) = queue.try_recv() {
            serve(&run, 0, task, &mut disk).unwrap();
        }
    }
    assert_eq!(answers.last(), Some(&Ok(Phase::Combining)));
    // Once finished, the run is handed back as it is, and the answer stays.
    let (run, phase) = run.advance();
    assert_eq!(phase, Ok(Phase::Combining));
    assert!(run.pool().job_receiver().is_empty());
}

#[test]
fn a_failure_of_advance_leaves_the_run_unfinished() {
    let run = begin(&["w1"], &[]);
    run.pool().job_receiver().close();
    let (run, phase) = run.advance();
    assert_eq!(phase, Err(MrError::QueueClosed));
    assert_ne!(run.phase(), Phase::Combining);
}
