use sysmon::history::{HistoryRing, HISTORY_LEN};

#[test]
fn history_starts_as_zeros() {
    let h = HistoryRing::new();
    assert_eq!(h.len(), HISTORY_LEN);
    assert!(h.values().iter().all(|v| *v == 0));
}

#[test]
fn history_keeps_last_hundred_in_order() {
    let mut h = HistoryRing::new();
    for v in 1..=150u64 {
        h.push(v);
    }
    assert_eq!(h.len(), 100);
    let expected: Vec<u64> = (51..=150).collect();
    assert_eq!(h.values(), &expected[..]);
}

#[test]
fn history_push_evicts_oldest() {
    let mut h = HistoryRing::new();
    h.push(7);
    assert_eq!(h.len(), 100);
    assert_eq!(h.values()[99], 7);
    assert_eq!(h.values()[98], 0);
}
