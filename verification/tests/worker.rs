use mapreduce::common::{MapReduceApp, MrError, Task};
use mapreduce::map_reduce_apps::WordCount;
use mapreduce::mr_parallel::worker_pool::{
    check_name, construct_i_file_path, construct_o_file_path, construct_worker_dir,
    join_texts, reduce_fault, reduce_partition, worker_step, Fault, Source, Worker,
    WorkerAction, WorkerEvent,
};

/// Keeps the longest value of each key: its results are no numbers.
struct Longest {}

impl MapReduceApp for Longest {
    fn map_spec(
        &self,
        _: vstd::seq::Seq<char>,
        _: vstd::seq::Seq<char>,
    ) -> vstd::seq::Seq<(vstd::seq::Seq<char>, vstd::seq::Seq<char>)> {
        unreachable!()
    }

    fn reduce_spec(
        &self,
        _: vstd::seq::Seq<char>,
        _: vstd::seq::Seq<vstd::seq::Seq<char>>,
    ) -> vstd::seq::Seq<char> {
        unreachable!()
    }

    fn map(&self, filename: String, contents: String) -> Vec<(String, String)> {
        vec![(filename, contents)]
    }

    fn reduce(&self, _key: String, values: Vec<String>) -> String {
        values.into_iter().max_by_key(|v| v.len()).unwrap_or_default()
    }
}

fn texts(items: &[&str]) -> Vec<String> {
    items.iter().map(|s| s.to_string()).collect()
}

#[test]
fn worker_dir_is_named_after_the_worker() {
    assert_eq!(construct_worker_dir("w1".to_string()), "output/worker-w1");
    assert_eq!(construct_worker_dir("".to_string()), "output/worker-");
}

#[test]
fn intermediate_file_lies_in_the_worker_dir() {
    assert_eq!(
        construct_i_file_path("a.txt".to_string(), "w1".to_string()),
        "output/worker-w1/a.txt"
    );
}

#[test]
fn output_file_is_named_as_asked() {
    assert_eq!(construct_o_file_path("w1".to_string()), "output/output/w1");
}

#[test]
fn check_name_refuses_a_slash() {
    assert!(check_name("w1"));
    assert!(check_name(""));
    assert!(check_name("67e55044-10b1-426f-9247-bb680e5fe0c8"));
    assert!(!check_name("a/b"));
    assert!(!check_name("/"));
}

#[test]
fn join_texts_joins_without_separator() {
    assert_eq!(join_texts(&texts(&["a,1\n", "b,1", "c,1\n"])), "a,1\nb,1c,1\n");
    assert_eq!(join_texts(&texts(&[])), "");
}

#[test]
fn map_task_reads_its_file() {
    let task = Task::MapFile("a.txt".to_string(), "in/a.txt".to_string());
    match task.source() {
        Source::File(path) => assert_eq!(path, "in/a.txt"),
        Source::Dir(_) => panic!("a Map task reads a file"),
    }
}

#[test]
fn reduce_task_reads_only_the_partition_it_names() {
    let task = Task::Reduce("w2".to_string());
    match task.source() {
        Source::Dir(dir) => assert_eq!(dir, "output/worker-w2"),
        Source::File(_) => panic!("a Reduce task reads a directory"),
    }
}

#[test]
fn new_workers_have_uuid_identifiers() {
    let a = Worker::new();
    let b = Worker::new();
    assert_eq!(a.id.len(), 36);
    assert_ne!(a.id, b.id);
    for (i, c) in a.id.chars().enumerate() {
        if i == 8 || i == 13 || i == 18 || i == 23 {
            assert_eq!(c, '-');
        } else {
            assert!(matches!(c, '0'..='9' | 'a'..='f'));
        }
    }
    assert!(check_name(&a.id));
}

#[test]
fn map_writes_into_the_partition_of_the_worker_that_runs_it() {
    let worker = Worker { id: "w1".to_string() };
    let task = Task::MapFile("a.txt".to_string(), "in/a.txt".to_string());
    let write =
        worker.run(task, &WordCount {}, texts(&["the cat the dog"]), "n1".to_string()).unwrap();
    assert_eq!(write.dir, "output/worker-w1");
    assert_eq!(write.path, "output/worker-w1/a.txt");
    assert_eq!(write.contents, "the,1\ncat,1\nthe,1\ndog,1\n");
}

#[test]
fn map_of_an_empty_document_writes_an_empty_file() {
    let worker = Worker { id: "w1".to_string() };
    let task = Task::MapFile("e.txt".to_string(), "in/e.txt".to_string());
    let write = worker.run(task, &WordCount {}, texts(&[""]), "n1".to_string()).unwrap();
    assert_eq!(write.path, "output/worker-w1/e.txt");
    assert_eq!(write.contents, "");
}

#[test]
fn reduce_writes_under_the_name_drawn() {
    let worker = Worker { id: "w1".to_string() };
    let task = Task::Reduce("w2".to_string());
    let write = worker
        .run(task, &WordCount {}, texts(&["the,1\ncat,1\n", "the,1\ndog,1\n"]), "n7".to_string())
        .unwrap();
    assert_eq!(write.dir, "output/output");
    assert_eq!(write.path, "output/output/n7");
    assert_eq!(write.contents, "the 2\ncat 1\ndog 1\n");
}

#[test]
fn two_reduce_runs_on_one_partition_leave_two_files() {
    let worker = Worker { id: "w1".to_string() };
    let partition = texts(&["the,1\ncat,1\nthe,1\n"]);
    let first = worker
        .run(Task::Reduce("w1".to_string()), &WordCount {}, partition.clone(), "n1".to_string())
        .unwrap();
    let second = worker
        .run(Task::Reduce("w1".to_string()), &WordCount {}, partition, "n2".to_string())
        .unwrap();
    assert_eq!(first.path, "output/output/n1");
    assert_eq!(second.path, "output/output/n2");
    assert_eq!(first.contents, second.contents);
    assert_eq!(first.dir, second.dir);
}

#[test]
fn execute_draws_a_fresh_name_for_every_reduce_output() {
    let worker = Worker { id: "w1".to_string() };
    let partition = texts(&["the,1\ncat,1\nthe,1\n"]);
    let first =
        worker.execute(Task::Reduce("w1".to_string()), &WordCount {}, partition.clone()).unwrap();
    let second =
        worker.execute(Task::Reduce("w1".to_string()), &WordCount {}, partition).unwrap();
    assert_ne!(first.path, second.path);
    assert_eq!(first.contents, "the 2\ncat 1\n");
    assert_eq!(second.contents, "the 2\ncat 1\n");
    for write in [&first, &second] {
        assert_eq!(write.dir, "output/output");
        let name = write.path.strip_prefix("output/output/").unwrap();
        assert_eq!(name.len(), 36);
        assert!(check_name(name));
        assert_ne!(name, "w1");
    }
}

#[test]
fn execute_maps_as_run_does() {
    let worker = Worker { id: "w1".to_string() };
    let task = Task::MapFile("a.txt".to_string(), "in/a.txt".to_string());
    let write = worker.execute(task, &WordCount {}, texts(&["the cat"])).unwrap();
    assert_eq!(write.dir, "output/worker-w1");
    assert_eq!(write.path, "output/worker-w1/a.txt");
    assert_eq!(write.contents, "the,1\ncat,1\n");
}

#[test]
fn reduce_of_an_empty_partition_writes_an_empty_file() {
    let worker = Worker { id: "w1".to_string() };
    let write = worker
        .run(Task::Reduce("w1".to_string()), &WordCount {}, texts(&[]), "n1".to_string())
        .unwrap();
    assert_eq!(write.path, "output/output/n1");
    assert_eq!(write.contents, "");
}

#[test]
fn reduce_partition_groups_reduces_and_ranks() {
    let text = "b,1\na,1\nb,1\nc,1\nb,1\nc,1\n";
    assert_eq!(reduce_partition(&WordCount {}, text), Ok("b 3\nc 2\na 1\n".to_string()));
}

#[test]
fn reduce_partition_cuts_lines_at_the_first_comma() {
    assert_eq!(reduce_partition(&WordCount {}, "k,a,b\nk,c\n"), Ok("k 2\n".to_string()));
}

#[test]
fn reduce_fails_on_a_line_without_comma() {
    let worker = Worker { id: "w1".to_string() };
    let r = worker.run(
        Task::Reduce("w1".to_string()),
        &WordCount {},
        texts(&["the,1\ncat\n"]),
        "n1".to_string(),
    );
    assert_eq!(r.err(), Some(MrError::Format));
    assert_eq!(reduce_partition(&WordCount {}, "the 1\n"), Err(MrError::Format));
}

#[test]
fn reduce_fails_on_a_result_that_is_no_number() {
    let worker = Worker { id: "w1".to_string() };
    let r = worker.run(
        Task::Reduce("w1".to_string()),
        &Longest {},
        texts(&["k,abc\nk,de\n"]),
        "n1".to_string(),
    );
    assert_eq!(r.err(), Some(MrError::Parse));
}

#[test]
fn reduce_takes_any_application_whose_results_are_numbers() {
    let text = "k,12\nk,7\nj,100\n";
    assert_eq!(reduce_partition(&Longest {}, text), Ok("j 100\nk 12\n".to_string()));
}

#[test]
fn a_partition_that_can_be_reduced_has_no_fault() {
    assert_eq!(reduce_fault(&WordCount {}, "a,1\nb,1\na,1\n"), None);
    assert_eq!(reduce_fault(&WordCount {}, ""), None);
    assert_eq!(reduce_fault(&Longest {}, "k,12\nj,7\n"), None);
}

#[test]
fn the_fault_is_the_first_line_without_comma() {
    assert_eq!(reduce_fault(&WordCount {}, "a,1\nb\nc\n"), Some(Fault::Line(1)));
    assert_eq!(reduce_fault(&WordCount {}, "a 1\n"), Some(Fault::Line(0)));
    assert_eq!(reduce_fault(&WordCount {}, "a,1\n\nb,1\n"), Some(Fault::Line(1)));
    // A line without comma comes before a key without number.
    assert_eq!(reduce_fault(&Longest {}, "k,abc\nj,1\nbad\n"), Some(Fault::Line(2)));
}

#[test]
fn the_fault_is_the_first_key_whose_result_is_no_number() {
    assert_eq!(
        reduce_fault(&Longest {}, "a,12\nb,xx\nc,y\nb,7\n"),
        Some(Fault::Key("b".to_string()))
    );
    assert_eq!(
        reduce_fault(&Longest {}, "a,12\nb,7\nc,\na,123\n"),
        Some(Fault::Key("c".to_string()))
    );
}

#[test]
fn a_worker_finds_the_fault_of_its_task() {
    let worker = Worker { id: "w1".to_string() };
    let map = Task::MapFile("a.txt".to_string(), "in/a.txt".to_string());
    let reduce = Task::Reduce("w1".to_string());
    assert_eq!(worker.fault(&map, &WordCount {}, &texts(&["no comma here"])), None);
    assert_eq!(worker.fault(&reduce, &WordCount {}, &texts(&["a,1\n", "b,1\n"])), None);
    assert_eq!(
        worker.fault(&reduce, &WordCount {}, &texts(&["a,1\n", "b\n"])),
        Some(Fault::Line(1))
    );
    assert_eq!(
        worker.fault(&reduce, &Longest {}, &texts(&["a,1\n", "b,x\n"])),
        Some(Fault::Key("b".to_string()))
    );
    // There is a fault exactly if the run fails.
    let failed = worker.run(reduce, &Longest {}, texts(&["a,1\n", "b,x\n"]), "n1".to_string());
    assert_eq!(failed.err(), Some(MrError::Parse));
}

#[test]
fn a_worker_takes_a_task_when_it_starts() {
    assert_eq!(worker_step(WorkerEvent::Started), WorkerAction::Take);
}

#[test]
fn a_worker_executes_the_task_it_took() {
    let task = Task::Reduce("w1".to_string());
    assert_eq!(
        worker_step(WorkerEvent::Took(task)),
        WorkerAction::Execute(Task::Reduce("w1".to_string()))
    );
}

#[test]
fn a_worker_gives_notice_after_every_task() {
    assert_eq!(worker_step(WorkerEvent::Finished(true)), WorkerAction::Notify);
    assert_eq!(worker_step(WorkerEvent::Finished(false)), WorkerAction::Notify);
}

#[test]
fn a_worker_goes_on_after_its_notice() {
    assert_eq!(worker_step(WorkerEvent::Noticed(true)), WorkerAction::Take);
}

#[test]
fn a_worker_stops_on_a_closed_channel() {
    assert_eq!(worker_step(WorkerEvent::QueueClosed), WorkerAction::Stop);
    assert_eq!(worker_step(WorkerEvent::Noticed(false)), WorkerAction::Stop);
}
