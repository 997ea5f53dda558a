use ferro_pipeit::dag::{Dag, DagError};
use ferro_pipeit::models::{PipelineConfig, StringMap, TaskDefinition};

fn task(deps: &[&str]) -> TaskDefinition {
    TaskDefinition {
        cmd: "echo".to_string(),
        deps: deps.iter().map(|d| d.to_string()).collect(),
        retries: 0,
        timeout_secs: None,
        inputs: StringMap::new(),
        outputs: StringMap::new(),
    }
}

fn config(tasks: &[(&str, &[&str])]) -> PipelineConfig {
    let mut map = StringMap::new();
    for (name, deps) in tasks {
        map.insert(name.to_string(), task(deps));
    }
    PipelineConfig { name: "test".to_string(), tasks: map }
}

fn names(v: &[&str]) -> Vec<String> {
    v.iter().map(|s| s.to_string()).collect()
}

#[test]
fn dag_builds_for_valid_pipeline() {
    let cfg = config(&[("init", &[]), ("process", &["init"]), ("report", &["process", "init"])]);
    let dag = Dag::new(&cfg).ok().unwrap();
    assert_eq!(dag.total_tasks(), 3);
    assert_eq!(dag.graph.node_count(), 3);
    assert_eq!(dag.graph.edge_count(), 3);
}

#[test]
fn ready_tasks_follow_dependencies() {
    let cfg = config(&[("init", &[]), ("process", &["init"]), ("report", &["process", "init"]), ("side", &[])]);
    let dag = Dag::new(&cfg).ok().unwrap();
    assert_eq!(dag.get_ready_tasks(&vec![]), names(&["init", "side"]));
    assert_eq!(dag.get_ready_tasks(&names(&["init"])), names(&["process", "side"]));
    assert_eq!(dag.get_ready_tasks(&names(&["init", "side", "process"])), names(&["report"]));
    assert!(dag.get_ready_tasks(&names(&["init", "side", "process", "report"])).is_empty());
}

#[test]
fn unknown_dependency_is_reported() {
    let cfg = config(&[("a", &[]), ("b", &["a", "ghost"]), ("c", &["phantom"])]);
    match Dag::new(&cfg) {
        Err(e) => {
            assert!(matches!(&e, DagError::UnknownDependency { task, dependency } if task == "b" && dependency == "ghost"));
            assert_eq!(e.message(), "Task 'b' depends on unknown task 'ghost'");
        }
        Ok(_) => panic!("expected an error"),
    }
}

#[test]
fn cycle_is_rejected() {
    let cfg = config(&[("a", &["c"]), ("b", &["a"]), ("c", &["b"])]);
    match Dag::new(&cfg) {
        Err(e) => {
            assert!(matches!(e, DagError::Cycle));
            assert_eq!(e.message(), "The pipeline definition contains a cycle and is not a valid DAG");
        }
        Ok(_) => panic!("expected an error"),
    }
}

#[test]
fn self_dependency_is_a_cycle() {
    let cfg = config(&[("a", &["a"])]);
    assert!(matches!(Dag::new(&cfg), Err(DagError::Cycle)));
}

#[test]
fn empty_pipeline_is_valid() {
    let cfg = config(&[]);
    let dag = Dag::new(&cfg).ok().unwrap();
    assert_eq!(dag.total_tasks(), 0);
    assert!(dag.get_ready_tasks(&vec![]).is_empty());
}
