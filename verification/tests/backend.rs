use octobuild::backend::{generate_hash, prepare_task, BackendTask};

fn strings(items: &[&str]) -> Vec<String> {
    items.iter().map(|s| s.to_string()).collect()
}

#[test]
fn backend_arguments() {
    assert_eq!(
        prepare_task(&strings(&["c2.dll", "-il", "C:\\tmp\\_CL_1", "-f", "a.cpp", "-MPdiagMutex", "m1", "-Foa.obj", "-W", "4"])),
        Ok(BackendTask {
            inputs: strings(&["C:\\tmp\\_CL_1ex", "C:\\tmp\\_CL_1in", "C:\\tmp\\_CL_1sy"]),
            output: "a.obj".to_string(),
            params: strings(&["-f", "a.cpp", "-W", "4"]),
        })
    );
}

#[test]
fn backend_argument_errors() {
    assert_eq!(prepare_task(&strings(&[])), Err("Empty arguments list".to_string()));
    assert_eq!(prepare_task(&strings(&["c2", "-il"])), Err("Can't get -il key value".to_string()));
    assert_eq!(
        prepare_task(&strings(&["c2", "-il", "b", "-MPdiagMutex"])),
        Err("Can't get -MPdiagMutex key value".to_string())
    );
    assert_eq!(
        prepare_task(&strings(&["c2", "-Foa", "-Fob", "-il", "b"])),
        Err("Multiple output files is not supported".to_string())
    );
    assert_eq!(prepare_task(&strings(&["c2", "-Foa"])), Err("Don't find input file list".to_string()));
    assert_eq!(prepare_task(&strings(&["c2", "-il", "b"])), Err("Don't find output file name".to_string()));
    assert_eq!(prepare_task(&strings(&["-il", "b", "-Foa"])), Err("Don't find input file list".to_string()));
}

#[test]
fn backend_hash() {
    let task = prepare_task(&strings(&["c2", "-il", "b", "-Foa.obj"])).unwrap();
    assert_eq!(generate_hash(&task, &vec![]), "4ae71336e44bf9bf79d2752e234818a5");
    let task = prepare_task(&strings(&["c2", "-il", "b", "-Foa.obj", "-O2"])).unwrap();
    let one = generate_hash(&task, &strings(&["h1", "h2", "h3"]));
    assert_eq!(one, generate_hash(&task, &strings(&["h1", "h2", "h3"])));
    assert_ne!(one, generate_hash(&task, &strings(&["h1", "h2", "h4"])));
    let other = prepare_task(&strings(&["c2", "-il", "b", "-Foa.obj", "-O3"])).unwrap();
    assert_ne!(one, generate_hash(&other, &strings(&["h1", "h2", "h3"])));
    assert_eq!(one.len(), 32);
}

#[test]
fn backend_hash_takes_arguments_in_utf16() {
    let task = prepare_task(&strings(&["c2", "-il", "b", "-Foa.obj", "-D\u{1D11E}\u{E9}"])).unwrap();
    assert_eq!(task.params, strings(&["-D\u{1D11E}\u{E9}"]));
    assert_eq!(generate_hash(&task, &strings(&["h1"])), "a0c38f1c200d21c958ae5f585fa28a1e");
}

use octobuild::backend::invoke_compiler_pass_wrapper;
use octobuild::cache::ArtifactCache;
use std::cell::Cell;

fn pass(cache: &mut ArtifactCache, args: &[&str], code: u32, readable: bool, runs: &Cell<u32>) -> (u32, Option<Vec<u8>>) {
    let restored: Cell<Option<Vec<u8>>> = Cell::new(None);
    let result = invoke_compiler_pass_wrapper(
        cache,
        &strings(args),
        |inputs: Vec<String>| if readable { Some(inputs.iter().map(|p| format!("#{}", p)).collect()) } else { None },
        |path: String, content: Vec<u8>| {
            assert_eq!(path, "a.obj");
            restored.set(Some(content));
            true
        },
        |path: String| {
            assert_eq!(path, "a.obj");
            Some(b"object".to_vec())
        },
        || {
            runs.set(runs.get() + 1);
            code
        },
    );
    (result, restored.take())
}

#[test]
fn a_backend_pass_ends_as_the_backend() {
    let args = ["c2", "-il", "b", "-Foa.obj", "-O2"];
    let runs = Cell::new(0);
    let mut cache = ArtifactCache::new();
    assert_eq!(pass(&mut cache, &args, 3, true, &runs), (3, None));
    assert_eq!(runs.get(), 1);
    assert!(cache.entries.is_empty());
    assert_eq!(pass(&mut cache, &args, 0, true, &runs), (0, None));
    assert_eq!(runs.get(), 2);
    assert_eq!(cache.entries.len(), 1);
    assert_eq!(pass(&mut cache, &args, 5, true, &runs), (0, Some(b"object".to_vec())));
    assert_eq!(runs.get(), 2);
    assert_eq!(pass(&mut cache, &["c2", "-il", "b", "-Foa.obj", "-O1"], 5, true, &runs), (5, None));
    assert_eq!(runs.get(), 3);
}

#[test]
fn a_backend_pass_that_cannot_be_kept_runs_the_backend() {
    let runs = Cell::new(0);
    let mut cache = ArtifactCache::new();
    assert_eq!(pass(&mut cache, &["c2", "-il"], 4, true, &runs), (4, None));
    assert_eq!(pass(&mut cache, &["c2", "-il", "b", "-Foa.obj"], 0, false, &runs), (0, None));
    assert_eq!(pass(&mut cache, &["c2", "-il", "b", "-Foa.obj"], 9, false, &runs), (9, None));
    assert_eq!(runs.get(), 3);
    assert!(cache.entries.is_empty());
}

#[test]
fn a_kept_pass_that_cannot_be_put_back_runs_the_backend() {
    let args = strings(&["c2", "-il", "b", "-Foa.obj"]);
    let runs = Cell::new(0);
    let mut cache = ArtifactCache::new();
    let first = invoke_compiler_pass_wrapper(
        &mut cache,
        &args,
        |inputs: Vec<String>| Some(inputs),
        |_: String, _: Vec<u8>| false,
        |_: String| Some(b"object".to_vec()),
        || {
            runs.set(runs.get() + 1);
            0
        },
    );
    assert_eq!((first, runs.get(), cache.entries.len()), (0, 1, 1));
    let second = invoke_compiler_pass_wrapper(
        &mut cache,
        &args,
        |inputs: Vec<String>| Some(inputs),
        |_: String, _: Vec<u8>| false,
        |_: String| None,
        || {
            runs.set(runs.get() + 1);
            6
        },
    );
    assert_eq!((second, runs.get(), cache.entries.len()), (6, 2, 1));
}
