use ferro_pipeit::cache::CacheEngine;
use ferro_pipeit::models::{StringMap, TaskDefinition};
use std::io::{Read, Seek, SeekFrom, Write};
use tempfile::NamedTempFile;

/// The fingerprint of a task whose input files are the given temporary files, read in
/// the order the library hashes them.
fn fingerprint_of(task: &TaskDefinition, files: &[(&str, &NamedTempFile)]) -> String {
    let mut contents = Vec::new();
    for (name, _path) in CacheEngine::inputs_in_key_order(task) {
        let file = files.iter().find(|(n, _)| *n == name).unwrap().1;
        let mut buf = Vec::new();
        file.reopen().unwrap().read_to_end(&mut buf).unwrap();
        contents.push(buf);
    }
    CacheEngine::fingerprint_from_contents(&task.cmd, None, &contents)
}

fn task_reading(name: &str, path: &str) -> TaskDefinition {
    let mut inputs = StringMap::new();
    inputs.insert(name.to_string(), path.to_string());
    TaskDefinition {
        cmd: "echo hello".to_string(),
        inputs,
        outputs: StringMap::new(),
        deps: vec![],
        retries: 0,
        timeout_secs: None,
    }
}

#[test]
fn test_generate_fingerprint_determinism() {
    let mut file = NamedTempFile::new().unwrap();
    file.write_all(b"some input data\n").unwrap();
    let path = file.path().to_str().unwrap().to_string();
    let task = task_reading("input1", &path);

    let hash1 = fingerprint_of(&task, &[("input1", &file)]);
    let hash2 = fingerprint_of(&task, &[("input1", &file)]);

    assert_eq!(hash1, hash2);
}

#[test]
fn test_fingerprint_changes_on_input_content_change() {
    let mut file = NamedTempFile::new().unwrap();
    let path = file.path().to_str().unwrap().to_string();
    let task = task_reading("input1", &path);

    file.write_all(b"data v1\n").unwrap();
    let hash1 = fingerprint_of(&task, &[("input1", &file)]);

    file.as_file().set_len(0).unwrap();
    file.as_file_mut().seek(SeekFrom::Start(0)).unwrap();
    file.write_all(b"data v2\n").unwrap();
    let hash2 = fingerprint_of(&task, &[("input1", &file)]);

    assert_ne!(hash1, hash2, "Hash should change when file content changes");
}
