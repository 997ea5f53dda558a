use ferro_pipeit::cache::{is_task_cacheable, CacheEngine, CacheMetadata};
use ferro_pipeit::models::{StringMap, TaskDefinition};
use tempfile::NamedTempFile;

fn task(cmd: &str, inputs: StringMap<String>, outputs: StringMap<String>) -> TaskDefinition {
    TaskDefinition {
        cmd: cmd.to_string(),
        deps: vec![],
        retries: 0,
        timeout_secs: None,
        inputs,
        outputs,
    }
}

#[test]
fn test_verify_outputs_present() {
    let file = NamedTempFile::new().unwrap();
    let path = file.path().to_str().unwrap().to_string();

    let mut outputs = StringMap::new();
    outputs.insert("out".to_string(), path);

    let mut task = TaskDefinition {
        cmd: "echo".to_string(),
        inputs: StringMap::new(),
        outputs,
        deps: vec![],
        retries: 0,
        timeout_secs: None,
    };

    assert!(CacheEngine::verify_outputs_present(&task));

    task.outputs.insert("out".to_string(), "non_existent_file.txt".to_string());
    assert!(!CacheEngine::verify_outputs_present(&task));
}

#[test]
fn verify_outputs_present_is_false_without_outputs() {
    let t = task("echo", StringMap::new(), StringMap::new());
    assert!(!CacheEngine::verify_outputs_present(&t));
}

#[test]
fn outputs_present_given_needs_every_output() {
    let mut outputs = StringMap::new();
    outputs.insert("a".to_string(), "a.txt".to_string());
    outputs.insert("b".to_string(), "b.txt".to_string());
    let t = task("echo", StringMap::new(), outputs);
    assert!(CacheEngine::outputs_present_given(&t, &vec![true, true]));
    assert!(!CacheEngine::outputs_present_given(&t, &vec![true, false]));
    assert!(!CacheEngine::outputs_present_given(&t, &vec![false, true]));
}

#[test]
fn task_is_cacheable_only_with_inputs_and_outputs() {
    let mut inputs = StringMap::new();
    inputs.insert("raw".to_string(), "raw.csv".to_string());
    let mut outputs = StringMap::new();
    outputs.insert("report".to_string(), "report.txt".to_string());
    assert!(is_task_cacheable(&task("x", inputs.clone(), outputs.clone())));
    assert!(!is_task_cacheable(&task("x", inputs, StringMap::new())));
    assert!(!is_task_cacheable(&task("x", StringMap::new(), outputs)));
}

#[test]
fn fingerprint_matches_sha256_of_command_and_inputs() {
    let fp = CacheEngine::fingerprint_from_contents(
        "echo hello",
        None,
        &vec![b"some input data\n".to_vec()],
    );
    assert_eq!(fp, "a6f135ec683711e801116829890e9ab296b51afe4211c5da787e073e9ca4231a");
}

#[test]
fn fingerprint_generation_is_deterministic() {
    let inputs = vec![b"some input data\n".to_vec()];
    let h1 = CacheEngine::fingerprint_from_contents("echo hello", None, &inputs);
    let h2 = CacheEngine::fingerprint_from_contents("echo hello", None, &inputs);
    assert_eq!(h1, h2);
}

#[test]
fn fingerprint_changes_when_input_content_changes() {
    let h1 = CacheEngine::fingerprint_from_contents("echo hello", None, &vec![b"data v1\n".to_vec()]);
    let h2 = CacheEngine::fingerprint_from_contents("echo hello", None, &vec![b"data v2\n".to_vec()]);
    assert_eq!(h1, "9f12ef867a5a01a7c827afc451b15023701cbe489c991c158847392c0ee54026");
    assert_eq!(h2, "02bafcb91ed05e5c39392b7a25a85f50efdfcc22b74ac01bcbbc16e7ba8547fb");
    assert_ne!(h1, h2, "Hash should change when file content changes");
}

#[test]
fn fingerprint_covers_script_then_inputs_in_order() {
    let script = b"#!script".to_vec();
    let fp = CacheEngine::fingerprint_from_contents(
        "python3 run.py",
        Some(&script),
        &vec![b"AAA".to_vec(), b"BBB".to_vec()],
    );
    assert_eq!(fp, "c9a56f235bacf4fbd376e42369e9f7cfcea8caa635774bd3a538a289a213a0e2");
}

#[test]
fn fingerprint_of_empty_data() {
    let fp = CacheEngine::fingerprint_from_contents("", None, &vec![]);
    assert_eq!(fp, "e3b0c44298fc1c149afbf4c8996fb92427ae41e4649b934ca495991b7852b855");
}

#[test]
fn inputs_are_ordered_by_name() {
    let mut inputs = StringMap::new();
    inputs.insert("beta".to_string(), "b.csv".to_string());
    inputs.insert("alpha".to_string(), "a.csv".to_string());
    inputs.insert("Zeta".to_string(), "z.csv".to_string());
    inputs.insert("alphabet".to_string(), "ab.csv".to_string());
    let t = task("x", inputs, StringMap::new());
    let ordered = CacheEngine::inputs_in_key_order(&t);
    let names: Vec<&str> = ordered.iter().map(|p| p.0.as_str()).collect();
    let paths: Vec<&str> = ordered.iter().map(|p| p.1.as_str()).collect();
    assert_eq!(names, vec!["Zeta", "alpha", "alphabet", "beta"]);
    assert_eq!(paths, vec!["z.csv", "a.csv", "ab.csv", "b.csv"]);
}

#[test]
fn script_candidate_is_first_word() {
    let t = task("  python3   scripts/process.py --fast", StringMap::new(), StringMap::new());
    assert_eq!(CacheEngine::script_candidate(&t), Some("python3".to_string()));
    let blank = task(" \t ", StringMap::new(), StringMap::new());
    assert_eq!(CacheEngine::script_candidate(&blank), None);
}

#[test]
fn unique_key_joins_pipeline_and_task() {
    let key = CacheMetadata::generate_unique_key("etl", "process");
    assert_eq!(key, "etl:process");
}

#[test]
fn recorded_hash_is_read_back() {
    let mut meta = CacheMetadata::default();
    let key = "etl:process".to_string();
    assert_eq!(meta.stored_hash(&key), None);
    meta.record(key.clone(), "abc".to_string());
    meta.record("etl:other".to_string(), "zzz".to_string());
    assert_eq!(meta.stored_hash(&key), Some(&"abc".to_string()));
    meta.record(key.clone(), "def".to_string());
    assert_eq!(meta.stored_hash(&key), Some(&"def".to_string()));
    assert_eq!(meta.stored_hash(&"etl:other".to_string()), Some(&"zzz".to_string()));
    assert_eq!(meta.entries.len(), 2);
}

#[test]
fn input_order_does_not_depend_on_insertion_order() {
    let mut a = StringMap::new();
    a.insert("b".to_string(), "2.csv".to_string());
    a.insert("a".to_string(), "1.csv".to_string());
    a.insert("c".to_string(), "3.csv".to_string());
    let mut b = StringMap::new();
    b.insert("c".to_string(), "3.csv".to_string());
    b.insert("a".to_string(), "1.csv".to_string());
    b.insert("b".to_string(), "2.csv".to_string());
    let ta = task("run", a, StringMap::new());
    let tb = task("run", b, StringMap::new());
    assert_eq!(CacheEngine::inputs_in_key_order(&ta), CacheEngine::inputs_in_key_order(&tb));
}

#[test]
fn fingerprint_is_64_lowercase_hex_characters() {
    let fp = CacheEngine::fingerprint_from_contents("anything", None, &vec![vec![0xff, 0x00]]);
    assert_eq!(fp.len(), 64);
    assert!(fp.chars().all(|c| c.is_ascii_digit() || ('a'..='f').contains(&c)));
}
