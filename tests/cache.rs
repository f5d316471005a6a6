use findr::cache::{decode_history, encode_history, load_cache, CacheError, CacheState};
use findr::history::{History, HistoryRecord};

fn sample() -> History {
    let mut h = History::new();
    h.entries.push((
        "/r".to_string(),
        HistoryRecord { names: vec![("x".to_string(), 1)], most_recent: true },
    ));
    h.entries.push((
        "/home/u".to_string(),
        HistoryRecord { names: vec![("a.txt".to_string(), 300), ("b".to_string(), 2)], most_recent: false },
    ));
    h
}

fn same(a: &History, b: &History) -> bool {
    a.entries.len() == b.entries.len()
        && a.entries.iter().zip(b.entries.iter()).all(|(x, y)| {
            x.0 == y.0 && x.1.names == y.1.names && x.1.most_recent == y.1.most_recent
        })
}

#[test]
fn empty_history_encodes_to_one_byte() {
    assert_eq!(encode_history(&History::new()).unwrap(), vec![0u8]);
}

#[test]
fn history_encoding_is_exact() {
    let mut h = History::new();
    h.entries.push((
        "/r".to_string(),
        HistoryRecord { names: vec![("x".to_string(), 1)], most_recent: true },
    ));
    assert_eq!(encode_history(&h).unwrap(), vec![1, 2, b'/', b'r', 1, 1, b'x', 1, 1]);
}

#[test]
fn cache_round_trip_is_stable() {
    let h = sample();
    let saved = encode_history(&h).unwrap();
    let loaded = decode_history(&saved).unwrap();
    assert!(same(&loaded, &h));
    assert_eq!(encode_history(&loaded).unwrap(), saved);
}

#[test]
fn fresh_cache_loads_empty() {
    assert!(load_cache(None).unwrap().entries.is_empty());
    let bootstrap = encode_history(&History::new()).unwrap();
    let h = load_cache(Some(bootstrap)).unwrap();
    assert!(h.entries.is_empty());
    let saved = encode_history(&sample()).unwrap();
    assert!(same(&load_cache(Some(saved)).unwrap(), &sample()));
}

#[test]
fn empty_file_is_corrupt() {
    assert_eq!(load_cache(Some(vec![])).unwrap_err(), CacheError::Corrupt);
}

#[test]
fn garbage_is_corrupt() {
    assert_eq!(decode_history(&[0xff, 0xff, 0xff, 0xff, 0xff, 0xff]).unwrap_err(), CacheError::Corrupt);
    assert_eq!(decode_history(&[1, 200, b'a']).unwrap_err(), CacheError::Corrupt);
    assert_eq!(decode_history(&[1, 1, b'a', 1, 1, b'x', 1, 7]).unwrap_err(), CacheError::Corrupt);
}

#[test]
fn truncated_cache_is_corrupt() {
    let saved = encode_history(&sample()).unwrap();
    assert_eq!(decode_history(&saved[..saved.len() - 1]).unwrap_err(), CacheError::Corrupt);
}

#[test]
fn repeated_root_is_corrupt() {
    let bytes = vec![2, 1, b'a', 0, 1, 1, b'a', 0, 0];
    assert_eq!(decode_history(&bytes).unwrap_err(), CacheError::Corrupt);
}

#[test]
fn repeated_name_is_corrupt() {
    let bytes = vec![1, 1, b'a', 2, 1, b'n', 1, 1, b'n', 2, 0];
    assert_eq!(decode_history(&bytes).unwrap_err(), CacheError::Corrupt);
}

#[test]
fn cache_state_from_checks() {
    assert_eq!(CacheState::from_checks(true, true), CacheState::Ready);
    assert_eq!(CacheState::from_checks(true, false), CacheState::FileMissing);
    assert_eq!(CacheState::from_checks(false, false), CacheState::DirMissing);
    assert!(!CacheState::Ready.needs_new_file());
    assert!(CacheState::FileMissing.needs_new_file());
    assert!(CacheState::DirMissing.needs_new_file());
}

#[test]
fn junk_after_history_is_corrupt() {
    let mut saved = encode_history(&sample()).unwrap();
    saved.push(0);
    assert_eq!(decode_history(&saved).unwrap_err(), CacheError::Corrupt);
    let mut empty = encode_history(&History::new()).unwrap();
    empty.extend_from_slice(&[1, 2, 3]);
    assert_eq!(load_cache(Some(empty)).unwrap_err(), CacheError::Corrupt);
}

#[test]
fn malformed_history_is_not_encoded() {
    let mut h = sample();
    h.entries.push((
        "/r".to_string(),
        HistoryRecord { names: vec![], most_recent: false },
    ));
    assert_eq!(encode_history(&h).unwrap_err(), CacheError::Malformed);
    let mut h = History::new();
    h.entries.push((
        "/r".to_string(),
        HistoryRecord { names: vec![("n".to_string(), 1), ("n".to_string(), 2)], most_recent: true },
    ));
    assert_eq!(encode_history(&h).unwrap_err(), CacheError::Malformed);
}
