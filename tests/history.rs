use anyrun_core::history::{History, HistoryBackingStore, HistoryError, HistorySource};

fn strings(v: &[&str]) -> Vec<String> {
    v.iter().map(|s| s.to_string()).collect()
}

#[test]
fn capacity_three_scenario() {
    let mut h = History::from_mem(3);
    for c in ["ls", "cd /tmp", "ls", "git status"] {
        h.push(c.to_string());
    }
    assert_eq!(h.elements(), strings(&["cd /tmp", "ls", "git status"]));
}

#[test]
fn repush_moves_to_end_without_growing() {
    let mut h = History::from_mem(5);
    for c in ["a", "b", "c"] {
        h.push(c.to_string());
    }
    h.push("a".to_string());
    assert_eq!(h.len(), 3);
    assert_eq!(h.elements(), strings(&["b", "c", "a"]));
}

#[test]
fn pushes_stay_within_capacity_without_duplicates() {
    let mut h = History::from_mem(2);
    for c in ["a", "b", "a", "c", "c", "d", "b"] {
        h.push(c.to_string());
        assert!(h.len() <= 2);
        let e = h.elements();
        assert!(e.len() < 2 || e[0] != e[1]);
    }
    assert_eq!(h.elements(), strings(&["d", "b"]));
}

#[test]
fn zero_capacity_stays_empty() {
    let mut h = History::from_mem(0);
    for c in ["ls", "ls", "pwd"] {
        h.push(c.to_string());
        assert_eq!(h.len(), 0);
    }
    assert!(h.elements().is_empty());
    assert_eq!(h.cap(), 0);
}

#[test]
fn snapshot_and_reload_round_trip() {
    let mut h = History::from_mem(4);
    for c in ["x", "y", "z", "x"] {
        h.push(c.to_string());
    }
    let snap = h.elements();
    let r = History::from_records(4, snap.clone(), HistoryBackingStore::File);
    assert_eq!(r.elements(), snap);
    assert_eq!(r.elements(), strings(&["y", "z", "x"]));
    assert!(r.is_persistent());
    assert!(!h.is_persistent());
}

#[test]
fn reload_keeps_first_of_duplicates() {
    let r = History::from_records(10, strings(&["a", "b", "a", "c"]), HistoryBackingStore::Memory);
    assert_eq!(r.elements(), strings(&["a", "b", "c"]));
}

#[test]
fn empty_file_is_empty_history() {
    let src = HistorySource::File { contents: Vec::new(), decoded: None };
    let h = History::new(5, src).unwrap();
    assert_eq!(h.len(), 0);
    assert!(h.is_persistent());
    assert_eq!(h.cap(), 5);
}

#[test]
fn decoded_file_is_loaded_in_order() {
    let src = HistorySource::File {
        contents: b"[{\"command\":\"a\"},{\"command\":\"b\"}]".to_vec(),
        decoded: Some(strings(&["a", "b"])),
    };
    let h = History::new(5, src).unwrap();
    assert_eq!(h.elements(), strings(&["a", "b"]));
}

#[test]
fn invalid_file_fails_initialisation() {
    let src = HistorySource::File { contents: b"not json".to_vec(), decoded: None };
    assert_eq!(History::new(5, src).err(), Some(HistoryError::Malformed));
}

#[test]
fn unavailable_file_fails_initialisation() {
    assert_eq!(History::new(5, HistorySource::Unavailable).err(), Some(HistoryError::Unavailable));
}
