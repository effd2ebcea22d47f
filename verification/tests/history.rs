use pd_patch::history::{UndoHistory, MAX_UNDO_HISTORY};

#[test]
fn undo_returns_recorded_snapshot_and_redo_returns_current() {
    let mut h: UndoHistory<u32> = UndoHistory::new();
    assert!(!h.can_undo());
    assert!(!h.can_redo());
    h.record(1);
    h.record(2);
    assert!(h.can_undo());
    assert_eq!(h.undo(3), Some(2));
    assert!(h.can_redo());
    assert_eq!(h.redo(2), Some(3));
    assert!(!h.can_redo());
    assert_eq!(h.undo(3), Some(2));
    assert_eq!(h.undo(2), Some(1));
    assert_eq!(h.undo(1), None);
}

#[test]
fn recording_forgets_redo() {
    let mut h: UndoHistory<u32> = UndoHistory::new();
    h.record(1);
    assert_eq!(h.undo(2), Some(1));
    assert!(h.can_redo());
    h.record(5);
    assert!(!h.can_redo());
    assert_eq!(h.redo(7), None);
}

#[test]
fn history_drops_oldest_beyond_bound() {
    let mut h: UndoHistory<usize> = UndoHistory::new();
    for i in 0..(MAX_UNDO_HISTORY + 5) {
        h.record(i);
    }
    let mut undone = Vec::new();
    let mut current = 10_000;
    while let Some(s) = h.undo(current) {
        undone.push(s);
        current = s;
    }
    assert_eq!(undone.len(), MAX_UNDO_HISTORY);
    assert_eq!(undone[0], MAX_UNDO_HISTORY + 4);
    assert_eq!(*undone.last().unwrap(), 5);
}

#[test]
fn clear_empties_both_stacks() {
    let mut h: UndoHistory<u8> = UndoHistory::new();
    h.record(1);
    h.record(2);
    assert_eq!(h.undo(3), Some(2));
    h.clear();
    assert!(!h.can_undo());
    assert!(!h.can_redo());
}
