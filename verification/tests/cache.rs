use octobuild::cache::{cache_key, encode_texts, exit_code, merge_outputs, ArtifactCache, CacheEntry, CacheKey};
use octobuild::compiler::{CompileStep, OutputInfo};

fn step(args: &[&str], preprocessed: &[u8]) -> CompileStep {
    CompileStep {
        output_object: Some("a.obj".to_string()),
        output_precompiled: None,
        input_precompiled: None,
        args: args.iter().map(|s| s.to_string()).collect(),
        preprocessed: preprocessed.to_vec(),
    }
}

fn output(status: Option<i32>, stdout: &str, stderr: &str) -> OutputInfo {
    OutputInfo { status, stdout: stdout.as_bytes().to_vec(), stderr: stderr.as_bytes().to_vec() }
}

fn entry(object: &[u8], status: Option<i32>) -> CacheEntry {
    CacheEntry { artifacts: vec![object.to_vec()], output: output(status, "out", "err") }
}

#[test]
fn key_is_made_of_the_digests() {
    let key = cache_key("cl 19.0 5A1f", &step(&[], b""), &None);
    assert_eq!(
        key,
        CacheKey {
            toolchain: "cl 19.0 5A1f".to_string(),
            args_hash: "7dea362b3fac8e00956a4952a3d4f474".to_string(),
            preproc_hash: "d41d8cd98f00b204e9800998ecf8427e".to_string(),
            pch_hash: None,
        }
    );
    let key = cache_key("clang", &step(&["/O2"], b"abc"), &Some(b"abc".to_vec()));
    assert_eq!(key.preproc_hash, "900150983cd24fb0d6963f7d28e17f72");
    assert_eq!(key.pch_hash, Some("900150983cd24fb0d6963f7d28e17f72".to_string()));
}

#[test]
fn key_is_stable_and_tells_inputs_apart() {
    let a = cache_key("clang", &step(&["/O2", "/W4"], b"int x;"), &None);
    let b = cache_key("clang", &step(&["/O2", "/W4"], b"int x;"), &None);
    assert_eq!(a, b);
    assert_ne!(a, cache_key("clang", &step(&["/O2/W4"], b"int x;"), &None));
    assert_ne!(a, cache_key("clang", &step(&["/O2", "/W4"], b"int y;"), &None));
    assert_ne!(a, cache_key("cl", &step(&["/O2", "/W4"], b"int x;"), &None));
    assert_ne!(a, cache_key("clang", &step(&["/O2", "/W4"], b"int x;"), &Some(Vec::new())));
}

#[test]
fn texts_are_encoded_with_their_lengths() {
    assert_eq!(encode_texts(&vec![]), vec![0u8; 8]);
    assert_eq!(
        encode_texts(&vec!["ab".to_string(), "\u{e9}".to_string()]),
        vec![2, 0, 0, 0, 0, 0, 0, 0, 2, 0, 0, 0, 0, 0, 0, 0, b'a', b'b', 2, 0, 0, 0, 0, 0, 0, 0, 0xC3, 0xA9]
    );
}

#[test]
fn lookup_finds_what_was_inserted() {
    let mut cache = ArtifactCache::new();
    let key = cache_key("clang", &step(&["-O2"], b"int x;"), &None);
    let other = cache_key("clang", &step(&["-O3"], b"int x;"), &None);
    assert_eq!(cache.lookup(&key), None);
    cache.insert(key.clone(), entry(b"object", Some(0)));
    assert_eq!(cache.lookup(&key), Some(entry(b"object", Some(0))));
    assert_eq!(cache.lookup(&other), None);
    cache.insert(key.clone(), entry(b"object", Some(0)));
    assert_eq!(cache.entries.len(), 1);
    assert_eq!(cache.lookup(&key), Some(entry(b"object", Some(0))));
    cache.insert(key.clone(), entry(b"newer", Some(0)));
    assert_eq!(cache.lookup(&key), Some(entry(b"newer", Some(0))));
    cache.insert(other.clone(), entry(b"other", Some(0)));
    assert_eq!(cache.keys(), vec![key.clone(), other.clone()]);
    cache.delete(&key);
    assert_eq!(cache.keys(), vec![other.clone()]);
    assert_eq!(cache.lookup(&key), None);
    assert_eq!(cache.lookup(&other), Some(entry(b"other", Some(0))));
}

#[test]
fn run_cached_builds_once() {
    let mut cache = ArtifactCache::new();
    let key = cache_key("clang", &step(&["-O2"], b"int x;"), &None);
    let mut builds = 0;
    let first: Result<CacheEntry, String> = cache.run_cached(key.clone(), || {
        builds += 1;
        Ok(entry(b"object", Some(0)))
    });
    assert_eq!(first, Ok(entry(b"object", Some(0))));
    let second: Result<CacheEntry, String> = cache.run_cached(key.clone(), || {
        builds += 1;
        Ok(entry(b"never", Some(0)))
    });
    assert_eq!(second, Ok(entry(b"object", Some(0))));
    assert_eq!(builds, 1);
}

#[test]
fn failures_are_not_cached() {
    let mut cache = ArtifactCache::new();
    let key = cache_key("clang", &step(&["-O2"], b"int x;"), &None);
    let failed: Result<CacheEntry, String> = cache.run_cached(key.clone(), || Ok(entry(b"", Some(2))));
    assert_eq!(failed, Ok(entry(b"", Some(2))));
    assert_eq!(cache.lookup(&key), None);
    let broken: Result<CacheEntry, String> = cache.run_cached(key.clone(), || Err("no backend".to_string()));
    assert_eq!(broken, Err("no backend".to_string()));
    assert_eq!(cache.lookup(&key), None);
    let killed: Result<CacheEntry, String> = cache.run_cached(key.clone(), || Ok(entry(b"", None)));
    assert_eq!(killed, Ok(entry(b"", None)));
    assert_eq!(cache.lookup(&key), None);
}

#[test]
fn exit_code_is_that_of_the_backend() {
    assert_eq!(exit_code(&vec![]), 0);
    assert_eq!(exit_code(&vec![output(Some(0), "", "")]), 0);
    assert_eq!(exit_code(&vec![output(Some(2), "", "")]), 2);
    assert_eq!(exit_code(&vec![output(None, "", "")]), 1);
    assert_eq!(exit_code(&vec![output(Some(0), "", ""), output(Some(3), "", ""), output(Some(4), "", "")]), 3);
}

#[test]
fn outputs_are_merged_in_the_order_of_the_sources() {
    let merged = merge_outputs(&vec![output(Some(0), "a", "1"), output(Some(5), "b", "2"), output(Some(0), "c", "3")]);
    assert_eq!(merged, output(Some(5), "abc", "123"));
    assert_eq!(merge_outputs(&vec![]), output(Some(0), "", ""));
}
