use fsearch::index::{checked_arena_size, decode, encode, ArenaTooLarge, PathStore};
use fsearch::walker::FileMeta;

fn meta(mtime: i64, size: u64) -> FileMeta {
    FileMeta { mtime, size }
}

#[test]
fn roundtrip() {
    let entries = vec![
        ("/a/b.txt".to_string(), meta(1000, 42)),
        ("/c/déjà vu.md".to_string(), meta(2000, 7)),
        (String::new(), meta(0, 0)),
    ];
    let store = decode(&encode(&entries).unwrap()).unwrap();
    assert_eq!(store.len(), 3);
    assert_eq!(store.get(0), "/a/b.txt");
    assert_eq!(store.get(1), "/c/déjà vu.md");
    assert_eq!(store.get(2), "");
    assert_eq!(store.meta(0), meta(1000, 42));
    assert_eq!(store.meta(1), meta(2000, 7));
    assert_eq!(store.iter().len(), 3);
}

#[test]
fn from_entries_preserves_unicode_and_empty_paths() {
    let entries = vec![
        (String::new(), meta(0, 0)),
        ("é/日本/🦀".to_string(), meta(1, 2)),
        (String::new(), meta(3, 4)),
        ("résumé".to_string(), meta(5, 6)),
    ];
    let store = PathStore::from_entries(&entries);
    for (i, (path, metadata)) in entries.iter().enumerate() {
        assert_eq!(store.get(i), path);
        assert_eq!(store.meta(i), *metadata);
    }
    assert!(PathStore::from_entries(&[]).is_empty());
}

#[test]
fn arena_size_checks_individual_and_cumulative_limits() {
    let max = u32::MAX as usize;
    assert_eq!(checked_arena_size(&[]).unwrap(), 0);
    assert_eq!(checked_arena_size(&[max]).unwrap(), u32::MAX);
    assert_eq!(checked_arena_size(&[max - 1, 1, 0]).unwrap(), u32::MAX);
    assert!(matches!(checked_arena_size(&[max, 1]), Err(ArenaTooLarge)));
    if let Some(too_large) = max.checked_add(1) {
        assert!(matches!(checked_arena_size(&[too_large]), Err(ArenaTooLarge)));
    }
    assert!(checked_arena_size(&[usize::MAX, 1]).is_err());
    assert!(!ArenaTooLarge.message().is_empty());
}

#[test]
fn valid_utf8_arena_with_split_codepoints_is_none() {
    for character in ["é", "日", "🦀"] {
        let original = encode(&[
            (character.to_string(), meta(1, 1)),
            (String::new(), meta(2, 2)),
        ])
        .unwrap();
        assert!(std::str::from_utf8(&original[60..]).is_ok());
        for split in 1..character.len() {
            let mut bytes = original.clone();
            bytes[20..24].copy_from_slice(&(split as u32).to_le_bytes());
            bytes[24..28].copy_from_slice(&((character.len() - split) as u32).to_le_bytes());
            assert!(decode(&bytes).is_none(), "{character} split at {split}");
        }
    }
}

#[test]
fn span_lengths_outside_arena_are_none() {
    let original = encode(&[("ab".to_string(), meta(1, 1))]).unwrap();
    for len in [0u32, 1, 3, u32::MAX] {
        let mut bytes = original.clone();
        bytes[20..24].copy_from_slice(&len.to_le_bytes());
        assert!(decode(&bytes).is_none());
    }
}

#[test]
fn corrupt_file_is_none() {
    assert!(decode(b"garbage").is_none());
}

#[test]
fn truncated_file_is_none() {
    let bytes = encode(&[("/a/very/long/path/to/a/file.txt".to_string(), meta(1, 1))]).unwrap();
    assert!(decode(&bytes[..bytes.len() - 4]).is_none());
}

#[test]
fn invalid_utf8_arena_is_none() {
    let mut bytes = encode(&[("/ab".to_string(), meta(1, 1))]).unwrap();
    let n = bytes.len();
    bytes[n - 1] = 0xff; // stomp an arena byte
    assert!(decode(&bytes).is_none());
}

#[test]
fn version_mismatch_is_none() {
    let mut bytes = encode(&[("/a".to_string(), meta(1, 1))]).unwrap();
    bytes[8] = 99; // stomp the version field
    assert!(decode(&bytes).is_none());
}

#[test]
fn index_files_are_read_whole_or_not_at_all() {
    let entries = [("/a".to_string(), meta(1, 2)), ("/bö".to_string(), meta(-3, 4))];
    let bytes = encode(&entries).unwrap();
    assert!(decode(&bytes).is_some());
    for n in 0..bytes.len() {
        assert!(decode(&bytes[..n]).is_none(), "{n} bytes were read");
    }
    let mut longer = bytes.clone();
    longer.push(0);
    assert!(decode(&longer).is_none());
}
