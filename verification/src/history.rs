//! Undo and redo history of patch snapshots.
//!
//! The history is two stacks. Recording a snapshot pushes it on the undo
//! stack (dropping the oldest one when the stack is full) and forgets what
//! could be redone; undo and redo move one snapshot between the stacks and
//! take the current state in exchange.

use vstd::prelude::*;

verus! {

/// Most snapshots the history keeps.
pub const MAX_UNDO_HISTORY: usize = 100;

/// The two stacks of a history, oldest snapshot first.
pub struct UndoHistory<T> {
    undo_stack: Vec<T>,
    redo_stack: Vec<T>,
}

/// `s` with `x` pushed on top, the oldest entry dropped first when `s` is full.
pub open spec fn bounded_push<T>(s: Seq<T>, x: T) -> Seq<T> {
    if s.len() >= MAX_UNDO_HISTORY {
        s.drop_first().push(x)
    } else {
        s.push(x)
    }
}

/// The stacks after recording `snapshot`.
pub open spec fn after_record<T>(h: (Seq<T>, Seq<T>), snapshot: T) -> (Seq<T>, Seq<T>) {
    (bounded_push(h.0, snapshot), Seq::empty())
}

/// What undo gives back and the stacks after it, `current` being the state
/// that is left.
pub open spec fn after_undo<T>(h: (Seq<T>, Seq<T>), current: T) -> (Option<T>, (Seq<T>, Seq<T>)) {
    if h.0.len() == 0 {
        (None, h)
    } else {
        (Some(h.0.last()), (h.0.drop_last(), h.1.push(current)))
    }
}

/// What redo gives back and the stacks after it, `current` being the state
/// that is left.
pub open spec fn after_redo<T>(h: (Seq<T>, Seq<T>), current: T) -> (Option<T>, (Seq<T>, Seq<T>)) {
    if h.1.len() == 0 {
        (None, h)
    } else {
        (Some(h.1.last()), (h.0.push(current), h.1.drop_last()))
    }
}

/// The history never holds more than `MAX_UNDO_HISTORY` snapshots.
pub open spec fn history_ok<T>(h: (Seq<T>, Seq<T>)) -> bool {
    h.0.len() + h.1.len() <= MAX_UNDO_HISTORY
}

impl<T> View for UndoHistory<T> {
    type V = (Seq<T>, Seq<T>);

    closed spec fn view(&self) -> (Seq<T>, Seq<T>) {
        (self.undo_stack@, self.redo_stack@)
    }
}

impl<T> UndoHistory<T> {
    /// Well-formed: within the size bound.
    pub open spec fn wf(&self) -> bool {
        history_ok(self@)
    }

    /// An empty history.
    pub fn new() -> (h: Self)
        ensures
            h@.0 == Seq::<T>::empty(),
            h@.1 == Seq::<T>::empty(),
            h.wf(),
    {
        UndoHistory { undo_stack: Vec::new(), redo_stack: Vec::new() }
    }

    /// Forgets everything.
    pub fn clear(&mut self)
        ensures
            final(self)@.0 == Seq::<T>::empty(),
            final(self)@.1 == Seq::<T>::empty(),
            final(self).wf(),
    {
        self.undo_stack.clear();
        self.redo_stack.clear();
    }

    /// Whether there is a snapshot to undo to.
    pub fn can_undo(&self) -> (r: bool)
        ensures
            r == (self@.0.len() > 0),
    {
        !self.undo_stack.is_empty()
    }

    /// Whether there is a snapshot to redo to.
    pub fn can_redo(&self) -> (r: bool)
        ensures
            r == (self@.1.len() > 0),
    {
        !self.redo_stack.is_empty()
    }

    /// Records `snapshot`, the state before an edit.
    pub fn record(&mut self, snapshot: T)
        requires
            old(self).wf(),
        ensures
            final(self)@ == after_record(old(self)@, snapshot),
            final(self).wf(),
    {
        self.redo_stack.clear();
        if self.undo_stack.len() >= MAX_UNDO_HISTORY {
            self.undo_stack.remove(0);
        }
        self.undo_stack.push(snapshot);
        proof {
            assert(self@ =~= after_record(old(self)@, snapshot));
        }
    }

    /// Steps back: gives the last recorded snapshot, if any, and keeps
    /// `current` for redo.
    pub fn undo(&mut self, current: T) -> (r: Option<T>)
        requires
            old(self).wf(),
        ensures
            (r, final(self)@) == after_undo(old(self)@, current),
            final(self).wf(),
    {
        match self.undo_stack.pop() {
            None => None,
            Some(snapshot) => {
                self.redo_stack.push(current);
                Some(snapshot)
            },
        }
    }

    /// Steps forward again: gives the last undone state, if any, and keeps
    /// `current` for undo.
    pub fn redo(&mut self, current: T) -> (r: Option<T>)
        requires
            old(self).wf(),
        ensures
            (r, final(self)@) == after_redo(old(self)@, current),
            final(self).wf(),
    {
        match self.redo_stack.pop() {
            None => None,
            Some(snapshot) => {
                self.undo_stack.push(current);
                Some(snapshot)
            },
        }
    }
}

/// Undo right after recording a snapshot gives that snapshot back.
pub proof fn lemma_undo_after_record<T>(h: (Seq<T>, Seq<T>), snapshot: T, current: T)
    ensures
        after_undo(after_record(h, snapshot), current).0 == Some(snapshot),
{
}

/// Redo right after an undo gives back the state that was current before the
/// undo, and, handed the snapshot that undo gave, restores the history.
pub proof fn lemma_redo_reverses_undo<T>(h: (Seq<T>, Seq<T>), current: T)
    requires
        h.0.len() > 0,
    ensures
        after_redo(after_undo(h, current).1, h.0.last()) == (Some(current), h),
{
    let u = after_undo(h, current).1;
    assert(u.0.push(h.0.last()) =~= h.0);
    assert(u.1.drop_last() =~= h.1);
}

/// Undo right after a redo gives back the state that was current before the
/// redo, and, handed the snapshot that redo gave, restores the history.
pub proof fn lemma_undo_reverses_redo<T>(h: (Seq<T>, Seq<T>), current: T)
    requires
        h.1.len() > 0,
    ensures
        after_undo(after_redo(h, current).1, h.1.last()) == (Some(current), h),
{
    let r = after_redo(h, current).1;
    assert(r.1.push(h.1.last()) =~= h.1);
    assert(r.0.drop_last() =~= h.0);
}

/// Recording forgets what could be redone, and no sequence of operations
/// takes the history past its bound.
pub proof fn lemma_history_bounded<T>(h: (Seq<T>, Seq<T>), snapshot: T, current: T)
    requires
        history_ok(h),
    ensures
        after_record(h, snapshot).1.len() == 0,
        history_ok(after_record(h, snapshot)),
        history_ok(after_undo(h, current).1),
        history_ok(after_redo(h, current).1),
{
}

} // verus!
