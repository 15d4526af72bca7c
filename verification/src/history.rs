//! Undo and redo for the editors: the current design with the designs
//! before it (most recent last) and the designs undone since.
use vstd::prelude::*;

verus! {

/// The abstract state of an editing history.
pub struct Timeline<T> {
    pub past: Seq<T>,
    pub current: T,
    pub future: Seq<T>,
}

/// The timeline after committing `next`: the current design joins the past
/// (dropping the oldest beyond `limit`), `next` becomes current, and nothing
/// is left to redo.
pub open spec fn commit_spec<T>(t: Timeline<T>, next: T, limit: nat) -> Timeline<T> {
    let past = t.past.push(t.current);
    Timeline {
        past: if past.len() > limit { past.drop_first() } else { past },
        current: next,
        future: Seq::empty(),
    }
}

/// The timeline after an undo: back to the last past design, the current one
/// saved for redo; unchanged when there is nothing to undo.
pub open spec fn undo_spec<T>(t: Timeline<T>) -> Timeline<T> {
    if t.past.len() == 0 {
        t
    } else {
        Timeline { past: t.past.drop_last(), current: t.past.last(), future: t.future.push(t.current) }
    }
}

/// The timeline after a redo: forward to the last undone design; unchanged
/// when there is nothing to redo.
pub open spec fn redo_spec<T>(t: Timeline<T>) -> Timeline<T> {
    if t.future.len() == 0 {
        t
    } else {
        Timeline { past: t.past.push(t.current), current: t.future.last(), future: t.future.drop_last() }
    }
}

/// An editing history holding at most `limit` designs besides the current one.
pub struct History<T> {
    past: Vec<T>,
    current: T,
    future: Vec<T>,
    limit: usize,
}

impl<T> History<T> {
    pub closed spec fn timeline(&self) -> Timeline<T> {
        Timeline { past: self.past@, current: self.current, future: self.future@ }
    }

    pub closed spec fn limit_spec(&self) -> nat {
        self.limit as nat
    }

    /// At most `limit` designs are kept besides the current one.
    pub closed spec fn well_formed(&self) -> bool {
        self.past@.len() + self.future@.len() <= self.limit
    }

    /// A history of one design, keeping up to `limit` past designs.
    pub fn new(current: T, limit: usize) -> (r: History<T>)
        ensures
            r.well_formed(),
            r.limit_spec() == limit,
            r.timeline() == (Timeline { past: Seq::<T>::empty(), current, future: Seq::<T>::empty() }),
    {
        History { past: Vec::new(), current, future: Vec::new(), limit }
    }

    /// The current design.
    pub fn current(&self) -> (r: &T)
        ensures
            *r == self.timeline().current,
    {
        &self.current
    }

    pub fn can_undo(&self) -> (r: bool)
        ensures
            r == (self.timeline().past.len() > 0),
    {
        self.past.len() > 0
    }

    pub fn can_redo(&self) -> (r: bool)
        ensures
            r == (self.timeline().future.len() > 0),
    {
        self.future.len() > 0
    }

    /// Records a change: `next` becomes the current design.
    pub fn commit(&mut self, next: T)
        requires
            old(self).well_formed(),
        ensures
            final(self).well_formed(),
            final(self).limit_spec() == old(self).limit_spec(),
            final(self).timeline() == commit_spec(old(self).timeline(), next, old(self).limit_spec()),
    {
        let mut previous = next;
        std::mem::swap(&mut self.current, &mut previous);
        self.past.push(previous);
        if self.past.len() > self.limit {
            self.past.remove(0);
        }
        self.future.clear();
        assert(self.past@ =~= commit_spec(old(self).timeline(), next, old(self).limit_spec()).past);
    }

    /// Steps back one design; false when there is nothing to undo.
    pub fn undo(&mut self) -> (r: bool)
        requires
            old(self).well_formed(),
        ensures
            final(self).well_formed(),
            final(self).limit_spec() == old(self).limit_spec(),
            r == (old(self).timeline().past.len() > 0),
            final(self).timeline() == undo_spec(old(self).timeline()),
    {
        match self.past.pop() {
            None => false,
            Some(p) => {
                let mut back = p;
                std::mem::swap(&mut self.current, &mut back);
                self.future.push(back);
                true
            },
        }
    }

    /// Steps forward one undone design; false when there is nothing to redo.
    pub fn redo(&mut self) -> (r: bool)
        requires
            old(self).well_formed(),
        ensures
            r == (old(self).timeline().future.len() > 0),
            final(self).limit_spec() == old(self).limit_spec(),
            final(self).well_formed(),
            final(self).timeline() == redo_spec(old(self).timeline()),
    {
        match self.future.pop() {
            None => false,
            Some(n) => {
                let mut back = n;
                std::mem::swap(&mut self.current, &mut back);
                self.past.push(back);
                true
            },
        }
    }
}

/// Redo gives back exactly what undo took away.
pub proof fn redo_undoes_undo<T>(t: Timeline<T>)
    requires
        t.past.len() > 0,
    ensures
        redo_spec(undo_spec(t)) == t,
{
    assert(t.past.drop_last().push(t.past.last()) =~= t.past);
    assert(t.future.push(t.current).drop_last() =~= t.future);
}

/// Undo takes back exactly what redo brought forward.
pub proof fn undo_undoes_redo<T>(t: Timeline<T>)
    requires
        t.future.len() > 0,
    ensures
        undo_spec(redo_spec(t)) == t,
{
    assert(t.past.push(t.current).drop_last() =~= t.past);
    assert(t.future.drop_last().push(t.future.last()) =~= t.future);
}

/// Undo right after a commit returns to the design before it.
pub proof fn undo_after_commit<T>(t: Timeline<T>, next: T, limit: nat)
    requires
        limit > 0,
        t.past.len() <= limit,
    ensures
        undo_spec(commit_spec(t, next, limit)).current == t.current,
        undo_spec(commit_spec(t, next, limit)).future == seq![next],
{
    let c = commit_spec(t, next, limit);
    assert(c.past.len() > 0);
    assert(c.past.last() == t.current);
    assert(Seq::<T>::empty().push(next) =~= seq![next]);
}

} // verus!
