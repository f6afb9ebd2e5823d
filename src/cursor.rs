use vstd::prelude::*;

use crate::order::key_seq;

verus! {

/// A read-only position at one entry of a container, which steps to the
/// entry before or after it. It must not outlive a change to the container,
/// which the borrow it holds enforces.
pub struct Cursor<'a, V> {
    entries: &'a Vec<(u64, V)>,
    pos: usize,
}

impl<'a, V> View for Cursor<'a, V> {
    type V = (Seq<(u64, V)>, int);

    /// The entries in ascending key order, and the position among them.
    closed spec fn view(&self) -> (Seq<(u64, V)>, int) {
        (self.entries@, self.pos as int)
    }
}

/// The keys that a cursor at position `i` shows, then after each `next`
/// that succeeds, until `next` fails.
pub open spec fn forward_walk<V>(s: Seq<(u64, V)>, i: int) -> Seq<u64>
    decreases s.len() - i,
{
    if 0 <= i && i + 1 < s.len() {
        seq![s[i].0] + forward_walk(s, i + 1)
    } else {
        seq![s[i].0]
    }
}

/// The keys that a cursor at position `i` shows, then after each `prev`
/// that succeeds, until `prev` fails.
pub open spec fn backward_walk<V>(s: Seq<(u64, V)>, i: int) -> Seq<u64>
    decreases i,
{
    if 0 < i < s.len() {
        seq![s[i].0] + backward_walk(s, i - 1)
    } else {
        seq![s[i].0]
    }
}

impl<'a, V> Cursor<'a, V> {
    pub open spec fn wf(&self) -> bool {
        0 <= self@.1 < self@.0.len()
    }

    pub(crate) fn new(entries: &'a Vec<(u64, V)>, pos: usize) -> (r: Self)
        requires
            pos < entries@.len(),
        ensures
            r.wf(),
            r@ == (entries@, pos as int),
    {
        Cursor { entries, pos }
    }

    /// The entry at the cursor.
    pub fn kv(&self) -> (r: (&'a u64, &'a V))
        requires
            self.wf(),
        ensures
            (*r.0, *r.1) == self@.0[self@.1],
    {
        let e = &self.entries[self.pos];
        (&e.0, &e.1)
    }

    /// Steps to the next entry; `false`, with the cursor left in place, at
    /// the last one.
    pub fn next(&mut self) -> (r: bool)
        requires
            old(self).wf(),
        ensures
            final(self).wf(),
            final(self)@.0 == old(self)@.0,
            r == (old(self)@.1 + 1 < old(self)@.0.len()),
            final(self)@.1 == (if r {
                old(self)@.1 + 1
            } else {
                old(self)@.1
            }),
    {
        if self.pos < self.entries.len() - 1 {
            self.pos = self.pos + 1;
            true
        } else {
            false
        }
    }

    /// Steps to the previous entry; `false`, with the cursor left in place,
    /// at the first one.
    pub fn prev(&mut self) -> (r: bool)
        requires
            old(self).wf(),
        ensures
            final(self).wf(),
            final(self)@.0 == old(self)@.0,
            r == (old(self)@.1 > 0),
            final(self)@.1 == (if r {
                old(self)@.1 - 1
            } else {
                old(self)@.1
            }),
    {
        if self.pos > 0 {
            self.pos = self.pos - 1;
            true
        } else {
            false
        }
    }
}

/// Stepping forward from the first entry until `next` fails shows every key
/// once, in ascending order; stepping back from the last entry until `prev`
/// fails shows them all in descending order.
pub proof fn lemma_cursor_visits_all<V>(s: Seq<(u64, V)>)
    requires
        s.len() > 0,
    ensures
        forward_walk(s, 0) == key_seq(s),
        backward_walk(s, s.len() - 1) == key_seq(s).reverse(),
{
    lemma_forward_from(s, 0);
    lemma_backward_from(s, s.len() - 1);
    assert(key_seq(s).subrange(0, s.len() as int) == key_seq(s));
}

proof fn lemma_forward_from<V>(s: Seq<(u64, V)>, i: int)
    requires
        0 <= i < s.len(),
    ensures
        forward_walk(s, i) == key_seq(s).subrange(i, s.len() as int),
    decreases s.len() - i,
{
    if i + 1 < s.len() {
        lemma_forward_from(s, i + 1);
    }
    assert(forward_walk(s, i) =~= key_seq(s).subrange(i, s.len() as int));
}

proof fn lemma_backward_from<V>(s: Seq<(u64, V)>, i: int)
    requires
        0 <= i < s.len(),
    ensures
        backward_walk(s, i) == key_seq(s).subrange(0, i + 1).reverse(),
    decreases i,
{
    if i > 0 {
        lemma_backward_from(s, i - 1);
    }
    assert(backward_walk(s, i) =~= key_seq(s).subrange(0, i + 1).reverse());
}

} // verus!
