use ferro_pipeit::cache::CacheMetadata;
use ferro_pipeit::dag::Dag;
use ferro_pipeit::engine::{plan_command, FileEngine, OsFileEngine};
use ferro_pipeit::models::{PipelineConfig, StringMap, TaskDefinition};
use ferro_pipeit::runner::{
    after_attempt, cache_decision, failure_message, missing_inputs, missing_inputs_given,
    AttemptStep, CacheDecision, LoopStep, RunState, TaskResult,
};

fn task(deps: &[&str]) -> TaskDefinition {
    TaskDefinition {
        cmd: "echo".to_string(),
        deps: deps.iter().map(|d| d.to_string()).collect(),
        retries: 0,
        timeout_secs: None,
        inputs: StringMap::new(),
        outputs: StringMap::new(),
    }
}

fn config(tasks: &[(&str, &[&str])]) -> PipelineConfig {
    let mut map = StringMap::new();
    for (name, deps) in tasks {
        map.insert(name.to_string(), task(deps));
    }
    PipelineConfig { name: "test".to_string(), tasks: map }
}

fn names(v: &[&str]) -> Vec<String> {
    v.iter().map(|s| s.to_string()).collect()
}

fn io_task() -> TaskDefinition {
    let mut inputs = StringMap::new();
    inputs.insert("raw_data".to_string(), "data/raw.csv".to_string());
    let mut outputs = StringMap::new();
    outputs.insert("report".to_string(), "data/report.txt".to_string());
    TaskDefinition {
        cmd: "python3 scripts/process.py --verbose".to_string(),
        deps: vec![],
        retries: 2,
        timeout_secs: Some(60),
        inputs,
        outputs,
    }
}

struct Disk(Vec<&'static str>);

impl FileEngine for Disk {
    fn file_exists(&self, path: &str) -> bool {
        self.0.contains(&path)
    }
}

#[test]
fn run_walks_the_graph_to_completion() {
    let cfg = config(&[("init", &[]), ("process", &["init"]), ("report", &["process"])]);
    let dag = Dag::new(&cfg).ok().unwrap();
    let mut meta = CacheMetadata::default();
    let mut st = RunState::new(&dag);
    assert!(matches!(st.next_step(&dag), LoopStep::Continue));
    assert_eq!(st.tasks_to_start(&dag), names(&["init"]));
    st.mark_launched(&dag, "init".to_string());
    assert!(st.tasks_to_start(&dag).is_empty());
    assert!(matches!(st.next_step(&dag), LoopStep::AwaitResult));
    let failed = st.on_result(
        &dag,
        TaskResult::Success("init".to_string(), "test:init".to_string(), Some("h1".to_string())),
        &mut meta,
    );
    assert_eq!(failed, None);
    assert_eq!(st.finished_count, 1);
    assert!(st.running.is_empty());
    assert_eq!(meta.stored_hash(&"test:init".to_string()), Some(&"h1".to_string()));
    assert_eq!(st.tasks_to_start(&dag), names(&["process"]));
    st.mark_cached(&dag, "process".to_string());
    assert_eq!(st.tasks_to_start(&dag), names(&["report"]));
    st.mark_launched(&dag, "report".to_string());
    let failed = st.on_result(
        &dag,
        TaskResult::Success("report".to_string(), "test:report".to_string(), None),
        &mut meta,
    );
    assert_eq!(failed, None);
    assert_eq!(meta.entries.len(), 1);
    assert_eq!(st.finished_count, 3);
    assert!(matches!(st.next_step(&dag), LoopStep::Finished));
}

#[test]
fn failure_stops_the_run() {
    let cfg = config(&[("a", &[]), ("b", &[])]);
    let dag = Dag::new(&cfg).ok().unwrap();
    let mut meta = CacheMetadata::default();
    let mut st = RunState::new(&dag);
    st.mark_launched(&dag, "a".to_string());
    st.mark_launched(&dag, "b".to_string());
    let failed = st.on_result(&dag, TaskResult::Failure("b".to_string(), 0), &mut meta);
    assert_eq!(failed, Some("b".to_string()));
    assert_eq!(st.running, names(&["a", "b"]));
    assert_eq!(failure_message("b"), "Pipeline execution failed due to task 'b'");
}

#[test]
fn cache_hit_needs_same_fingerprint_and_outputs() {
    let t = io_task();
    let mut meta = CacheMetadata::default();
    let key = CacheMetadata::generate_unique_key("etl", "process");
    assert!(matches!(
        cache_decision(&t, &meta, &key, Some("h".to_string()), true),
        CacheDecision::Miss(Some(h)) if h == "h"
    ));
    meta.record(key.clone(), "h".to_string());
    assert!(matches!(cache_decision(&t, &meta, &key, Some("h".to_string()), true), CacheDecision::Hit));
    assert!(matches!(
        cache_decision(&t, &meta, &key, Some("h".to_string()), false),
        CacheDecision::Miss(Some(_))
    ));
    assert!(matches!(
        cache_decision(&t, &meta, &key, Some("other".to_string()), true),
        CacheDecision::Miss(Some(h)) if h == "other"
    ));
    assert!(matches!(cache_decision(&t, &meta, &key, None, true), CacheDecision::Miss(None)));
    let plain = task(&[]);
    assert!(matches!(
        cache_decision(&plain, &meta, &key, Some("h".to_string()), true),
        CacheDecision::Miss(None)
    ));
}

#[test]
fn retries_run_the_task_retries_plus_one_times() {
    let max = 2;
    let mut retries = 0;
    let mut attempts = 0;
    loop {
        attempts += 1;
        match after_attempt(false, retries, max) {
            AttemptStep::RetryAfterDelay(r) => retries = r,
            AttemptStep::GiveUp(r) => {
                assert_eq!(r, 2);
                break;
            }
            AttemptStep::Succeeded => unreachable!(),
        }
    }
    assert_eq!(attempts, 3);
    assert!(matches!(after_attempt(true, 1, 2), AttemptStep::Succeeded));
    assert!(matches!(after_attempt(false, 0, 0), AttemptStep::GiveUp(0)));
}

#[test]
fn missing_inputs_are_reported() {
    let t = io_task();
    assert!(missing_inputs(&Disk(vec!["data/raw.csv"]), &t).is_empty());
    let missing = missing_inputs(&Disk(vec![]), &t);
    assert_eq!(missing, vec![("raw_data".to_string(), "data/raw.csv".to_string())]);
    assert_eq!(missing_inputs_given(&t, &vec![false]).len(), 1);
    assert!(missing_inputs(&OsFileEngine, &t).len() == 1);
}

#[test]
fn command_plan_sets_lineage_variables() {
    let t = io_task();
    let plan = plan_command("process", &t).ok().unwrap();
    assert_eq!(plan.program, "python3");
    assert_eq!(plan.args, names(&["scripts/process.py", "--verbose"]));
    assert_eq!(
        plan.env,
        vec![
            ("TASK_NAME".to_string(), "process".to_string()),
            ("IN_RAW_DATA".to_string(), "data/raw.csv".to_string()),
            ("OUT_REPORT".to_string(), "data/report.txt".to_string()),
        ]
    );
}

#[test]
fn empty_command_is_refused() {
    let mut t = task(&[]);
    t.cmd = "   ".to_string();
    match plan_command("blank", &t) {
        Err(msg) => assert_eq!(msg, "Empty command for task 'blank'"),
        Ok(_) => panic!("expected an error"),
    }
}

#[test]
fn variable_names_are_upper_cased_as_unicode_does() {
    let mut t = task(&[]);
    let mut inputs = StringMap::new();
    inputs.insert("straße".to_string(), "in.txt".to_string());
    t.inputs = inputs;
    let plan = plan_command("t", &t).ok().unwrap();
    assert_eq!(plan.program, "echo");
    assert!(plan.args.is_empty());
    assert_eq!(plan.env[1], ("IN_STRASSE".to_string(), "in.txt".to_string()));
}

#[test]
fn task_with_missing_input_is_not_launched() {
    let mut map = StringMap::new();
    map.insert("process".to_string(), io_task());
    let cfg = PipelineConfig { name: "etl".to_string(), tasks: map };
    let dag = Dag::new(&cfg).ok().unwrap();
    let t = io_task();
    let mut st = RunState::new(&dag);
    match st.launch_if_inputs_present(&dag, &Disk(vec![]), "process".to_string(), &t) {
        Err(missing) => assert_eq!(missing, vec![("raw_data".to_string(), "data/raw.csv".to_string())]),
        Ok(()) => panic!("a task with a missing input must not launch"),
    }
    assert!(st.running.is_empty());
    assert_eq!(st.finished_count, 0);
    assert!(st
        .launch_if_inputs_present(&dag, &Disk(vec!["data/raw.csv"]), "process".to_string(), &t)
        .is_ok());
    assert_eq!(st.running, names(&["process"]));
}

struct Recorder(std::cell::RefCell<Vec<String>>);

impl FileEngine for Recorder {
    fn file_exists(&self, path: &str) -> bool {
        self.0.borrow_mut().push(path.to_string());
        true
    }
}

#[test]
fn engine_is_asked_about_every_input_path_only() {
    let mut t = io_task();
    t.inputs.insert("extra".to_string(), "data/extra.csv".to_string());
    let engine = Recorder(std::cell::RefCell::new(vec![]));
    assert!(missing_inputs(&engine, &t).is_empty());
    assert_eq!(*engine.0.borrow(), names(&["data/raw.csv", "data/extra.csv"]));
}
