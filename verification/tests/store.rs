use std::collections::{BTreeSet, VecDeque};
use std::sync::Arc;

use ciallogcat::log_store::{chunk_cost, LogStore};
use ciallogcat::model::LogEntry;
use ciallogcat::selection::{navigated_selection, NavigationKey, RowSelection};

#[test]
fn byte_budget_evicts_large_logs_before_small_logs() {
    let mut small = LogStore::default();
    let mut large = LogStore::default();
    for _ in 0..100 {
        small.push(LogEntry::marker("tiny"));
        large.push(LogEntry::marker("x".repeat(32 * 1024)));
    }
    let budget = 512 * 1024;
    assert_eq!(small.trim_to_bytes(budget), 0);
    assert!(large.trim_to_bytes(budget) > 0);
    assert!(large.memory_bytes() <= budget);
    assert!(!large.is_empty());
    let snapshot = large.clone();
    large.drain_front(large.len());
    assert_eq!(large.memory_bytes(), 0);
    assert!(!snapshot.is_empty());
}

#[test]
fn partial_chunk_eviction_and_append_keep_order_and_accounting() {
    let mut store = LogStore::default();
    let mut expected = VecDeque::new();
    for index in 0..10_000 {
        store.push(LogEntry::marker(index.to_string()));
        expected.push_back(index.to_string());
        if index % 11 == 0 && !expected.is_empty() {
            store.drain_front(1);
            expected.pop_front();
        }
        if store.memory_bytes() > 400_000 {
            let removed = store.trim_to_bytes(300_000);
            expected.drain(..removed);
        }
        assert_eq!(store.len(), expected.len());
        if let Some(first) = expected.front() {
            assert_eq!(store[0].message.as_ref(), first);
        }
        if let Some(last) = expected.back() {
            assert_eq!(store[store.len() - 1].message.as_ref(), last);
        }
    }
    let payload: usize = store.iter().map(LogEntry::payload_bytes).sum();
    assert_eq!(
        store.memory_bytes(),
        payload + store.chunk_count() * chunk_cost().unwrap()
    );
}

#[test]
fn snapshots_survive_append_resolution_and_repeated_trimming() {
    let mut store = LogStore::default();
    for index in 0..2500 {
        store.push(LogEntry::marker(index.to_string()));
    }
    let snapshot = store.clone();
    store.drain_front(1500);
    store.set_process(0, Arc::from("resolved"));
    for index in 2500..4000 {
        store.push(LogEntry::marker(index.to_string()));
    }
    assert_eq!(store.len(), 2500);
    assert_eq!(store[0].message.as_ref(), "1500");
    assert_eq!(store[2499].message.as_ref(), "3999");
    assert!(snapshot[1500].process.is_none());
    assert_eq!(snapshot.len(), 2500);
    assert_eq!(store.iter().count(), store.len());
    store.drain_front(700);
    assert_eq!(store[0].message.as_ref(), "2200");
    store.drain_front(store.len());
    assert!(store.is_empty());
    store.push(LogEntry::marker("new"));
    assert_eq!(store[0].message.as_ref(), "new");
    store.set_process(1, Arc::from("ignored"));
}

#[test]
fn naming_a_process_is_accounted_for() {
    let mut store = LogStore::default();
    for index in 0..3000 {
        store.push(LogEntry::marker(index.to_string()));
    }
    store.drain_front(1030);
    let before = store.memory_bytes();
    store.set_process(1000, Arc::from("four"));
    assert_eq!(store.memory_bytes(), before + 4);
    assert_eq!(store[1000].process.as_deref(), Some("four"));
    assert_eq!(store[1000].message.as_ref(), "2030");
    store.set_process(1000, Arc::from("no"));
    assert_eq!(store.memory_bytes(), before + 2);
    assert_eq!(store.get(999).process, None);
}

#[test]
fn trimming_takes_no_more_than_it_must() {
    let mut store = LogStore::default();
    for _ in 0..10 {
        store.push(LogEntry::marker("x".repeat(1000)));
    }
    let one = store[0].payload_bytes();
    let target = store.memory_bytes() - 2 * one;
    assert_eq!(store.trim_to_bytes(target), 2);
    assert_eq!(store.memory_bytes(), target);
    assert_eq!(store.trim_to_bytes(target - 1), 1);
    assert_eq!(store.trim_to_bytes(0), 7);
    assert_eq!(store.memory_bytes(), 0);
    assert!(store.has_room(&LogEntry::marker("y")));
}

#[test]
fn range_uses_filtered_order_and_keeps_anchor_when_reversed() {
    let mut selection = RowSelection::default();
    let matches = [1, 4, 8, 12];
    selection.select(&matches, 8, false, false);
    selection.select(&matches, 1, true, false);
    assert_eq!(selection.rows, BTreeSet::from([1, 4, 8]));
    selection.select(&matches, 12, true, false);
    assert_eq!(selection.rows, BTreeSet::from([8, 12]));
}

#[test]
fn toggles_and_filter_changes_never_copy_hidden_rows() {
    let mut entries = LogStore::default();
    for message in ["first\ncontinuation", "hidden", "third", "last"] {
        entries.push(LogEntry::marker(message));
    }
    let mut selection = RowSelection::default();
    selection.select(&[0, 2, 3], 3, false, false);
    selection.select(&[0, 2, 3], 0, false, true);
    assert_eq!(
        selection.copy_text(&entries),
        format!("{}\n{}", entries[0].copy_text(), entries[3].copy_text())
    );
    selection.select(&[0, 2, 3], 3, false, true);
    assert_eq!(selection.copy_text(&entries), entries[0].copy_text());
    selection.select_all(&[0, 2, 3]);
    selection.retain(&[2]);
    assert_eq!(selection.copy_text(&entries), entries[2].copy_text());
    assert_eq!(selection.anchor, None);
    selection.clear();
    assert!(selection.is_empty());
    assert!(selection.copy_text(&entries).is_empty());
}

#[test]
fn hidden_rows_cannot_be_picked() {
    let matches = [1, 4, 8];
    let mut selection = RowSelection::default();
    selection.select(&matches, 5, false, false);
    assert!(selection.is_empty());
    assert_eq!(selection.anchor, None);
    selection.select(&matches, 4, true, false);
    assert_eq!(selection.sorted(), [4]);
    assert_eq!(selection.anchor, Some(4));
    selection.select(&matches, 8, true, true);
    assert_eq!(selection.sorted(), [4, 8]);
    selection.select(&matches, 1, false, true);
    selection.select(&matches, 1, false, true);
    assert_eq!(selection.sorted(), [4, 8]);
    assert!(selection.contains(8) && !selection.contains(1));
}

#[test]
fn navigation_follows_filtered_rows_and_bounds() {
    let rows = [2, 7, 20];
    assert_eq!(
        navigated_selection(&rows, None, NavigationKey::ArrowDown),
        Some(2)
    );
    assert_eq!(
        navigated_selection(&rows, Some(2), NavigationKey::ArrowUp),
        Some(2)
    );
    assert_eq!(
        navigated_selection(&rows, Some(7), NavigationKey::ArrowDown),
        Some(20)
    );
    assert_eq!(
        navigated_selection(&rows, Some(20), NavigationKey::ArrowDown),
        Some(20)
    );
    assert_eq!(
        navigated_selection(&rows, Some(7), NavigationKey::Home),
        Some(2)
    );
    assert_eq!(
        navigated_selection(&rows, Some(7), NavigationKey::End),
        Some(20)
    );
    assert_eq!(
        navigated_selection(&[], Some(7), NavigationKey::ArrowUp),
        None
    );
}

#[test]
fn other_keys_and_hidden_selections_are_handled() {
    let rows = [2, 7, 20];
    assert_eq!(
        navigated_selection(&rows, None, NavigationKey::ArrowUp),
        Some(20)
    );
    assert_eq!(
        navigated_selection(&rows, Some(3), NavigationKey::ArrowUp),
        Some(20)
    );
    assert_eq!(
        navigated_selection(&rows, Some(20), NavigationKey::ArrowUp),
        Some(7)
    );
    assert_eq!(
        navigated_selection(&rows, Some(3), NavigationKey::Other),
        Some(3)
    );
}
