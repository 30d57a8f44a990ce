use octobuild::cache::{CacheEntry, CacheKey};
use octobuild::compiler::OutputInfo;
use octobuild::storage::{decode_entry, encode_entry, entry_file_name};

fn entry(status: Option<i32>, artifacts: &[&[u8]]) -> CacheEntry {
    CacheEntry {
        artifacts: artifacts.iter().map(|a| a.to_vec()).collect(),
        output: OutputInfo { status, stdout: b"out".to_vec(), stderr: b"warning\n".to_vec() },
    }
}

#[test]
fn entry_bytes() {
    let empty = CacheEntry { artifacts: vec![], output: OutputInfo { status: None, stdout: vec![], stderr: vec![] } };
    assert_eq!(encode_entry(&empty), vec![0u8; 32]);
    let one = CacheEntry {
        artifacts: vec![b"ab".to_vec()],
        output: OutputInfo { status: Some(0), stdout: b"o".to_vec(), stderr: vec![] },
    };
    assert_eq!(
        encode_entry(&one),
        vec![
            1, 0, 0, 0x80, 0, 0, 0, 0, // status
            1, 0, 0, 0, 0, 0, 0, 0, b'o', // stdout
            0, 0, 0, 0, 0, 0, 0, 0, // stderr
            1, 0, 0, 0, 0, 0, 0, 0, // files
            2, 0, 0, 0, 0, 0, 0, 0, b'a', b'b',
        ]
    );
}

#[test]
fn entry_is_read_back() {
    for status in [None, Some(0), Some(1), Some(-1), Some(i32::MAX), Some(i32::MIN)] {
        for artifacts in [&[][..], &[&b"object"[..]][..], &[&b"object"[..], &b""[..], &b"pch"[..]][..]] {
            let made = entry(status, artifacts);
            assert_eq!(decode_entry(&encode_entry(&made)), Some(made));
        }
    }
}

#[test]
fn bytes_that_are_no_entry() {
    let bytes = encode_entry(&entry(Some(0), &[b"object"]));
    assert_eq!(decode_entry(&bytes[..bytes.len() - 1]), None);
    let mut longer = bytes.clone();
    longer.push(0);
    assert_eq!(decode_entry(&longer), None);
    assert_eq!(decode_entry(b""), None);
    let mut status = bytes.clone();
    status[4] = 2;
    assert_eq!(decode_entry(&status), None);
    let mut count = vec![0u8; 32];
    count[24] = 1;
    assert_eq!(decode_entry(&count), None);
    let mut huge = vec![0u8; 32];
    huge[15] = 0xFF;
    assert_eq!(decode_entry(&huge), None);
}

#[test]
fn entry_file_names() {
    let key = CacheKey {
        toolchain: "cl 19.0 5A1f".to_string(),
        args_hash: "a".to_string(),
        preproc_hash: "b".to_string(),
        pch_hash: None,
    };
    let name = entry_file_name(&key);
    assert_eq!(name.len(), 38);
    assert!(name.ends_with(".entry"));
    assert_eq!(name, entry_file_name(&key.clone()));
    let other = CacheKey { pch_hash: Some("".to_string()), ..key.clone() };
    assert_ne!(name, entry_file_name(&other));
}
