use vstd::prelude::*;

use crate::cursor::Cursor;

use crate::order::{
    around, around_keys, holds_key, is_gap, lemma_insert_at_gap, lemma_pred_at_split,
    lemma_remove_keeps_order, lemma_succ_at_split, lemma_update_keeps_order, pred_of, splits_above,
    splits_below, strictly_ascending, succ_of,
};

verus! {

/// Half-width of the window around the hint that a search examines first.
pub const NODE_SPAN: usize = 6;

/// How far the window grows on the first ascent.
pub const PARENT_SPAN: usize = 72;

/// How far the window grows on the second ascent.
pub const GRANDPARENT_SPAN: usize = 864;

/// Where a search for a key ends: at the entry that holds it, or at the gap
/// where it would be inserted.
#[derive(Clone, Copy, Debug, PartialEq, Eq, Structural)]
pub enum SearchResult {
    Found(usize),
    GoDown(usize),
}

impl SearchResult {
    pub open spec fn position(self) -> usize {
        match self {
            SearchResult::Found(i) => i,
            SearchResult::GoDown(p) => p,
        }
    }
}

/// What a search from the root answers: `None` only on an empty sequence,
/// `Found` at the entry holding `key`, else `GoDown` at its gap.
pub open spec fn search_ok<V>(s: Seq<(u64, V)>, key: u64, r: Option<SearchResult>) -> bool {
    match r {
        None => s.len() == 0,
        Some(SearchResult::Found(i)) => i < s.len() && s[i as int].0 == key,
        Some(SearchResult::GoDown(p)) => s.len() > 0 && is_gap(s, key, p as int),
    }
}

/// Reads an optional pair of references as the entry it points at.
pub open spec fn entry_view<V>(r: Option<(&u64, &V)>) -> Option<(u64, V)> {
    match r {
        Some((k, v)) => Some((*k, *v)),
        None => None,
    }
}

/// An ordered map from `u64` keys that remembers where its last search ended
/// and starts the next one there.
pub struct BTreeWithHint<V> {
    entries: Vec<(u64, V)>,
    hint: Option<usize>,
}

impl<V> View for BTreeWithHint<V> {
    type V = Seq<(u64, V)>;

    /// The entries in ascending key order.
    closed spec fn view(&self) -> Seq<(u64, V)> {
        self.entries@
    }
}

impl<V> BTreeWithHint<V> {
    pub open spec fn wf(&self) -> bool {
        strictly_ascending(self@)
    }

    /// The cached position, if any.
    pub closed spec fn hint_spec(&self) -> Option<usize> {
        self.hint
    }

    pub fn new() -> (r: Self)
        ensures
            r.wf(),
            r@ == Seq::<(u64, V)>::empty(),
            r.hint_spec() is None,
    {
        BTreeWithHint { entries: Vec::new(), hint: None }
    }

    fn set_hint(&mut self, hint: usize)
        ensures
            final(self)@ == old(self)@,
            final(self).hint_spec() == Some(hint),
    {
        self.hint = Some(hint);
    }

    fn clear_hint(&mut self)
        ensures
            final(self)@ == old(self)@,
            final(self).hint_spec() is None,
    {
        self.hint = None;
    }

    /// First position in `lo..hi` whose key is not below `key` (or `hi`).
    fn local_search(&self, key: u64, lo: usize, hi: usize) -> (p: usize)
        requires
            self.wf(),
            lo <= hi <= self@.len(),
        ensures
            lo <= p <= hi,
            forall|j: int| lo <= j < p ==> #[trigger] self@[j].0 < key,
            forall|j: int| p <= j < hi ==> key <= #[trigger] self@[j].0,
    {
        let mut a: usize = lo;
        let mut b: usize = hi;
        while a < b
            invariant
                self.wf(),
                lo <= a <= b <= hi,
                hi <= self@.len(),
                forall|j: int| lo <= j < a ==> #[trigger] self@[j].0 < key,
                forall|j: int| b <= j < hi ==> key <= #[trigger] self@[j].0,
            decreases b - a,
        {
            let mid: usize = a + (b - a) / 2;
            if self.entries[mid].0 < key {
                assert forall|j: int| lo <= j < mid + 1 implies #[trigger] self@[j].0 < key by {
                    if j < mid {
                        assert(self@[j].0 < self@[mid as int].0);
                    }
                }
                a = mid + 1;
            } else {
                assert forall|j: int| mid <= j < hi implies key <= #[trigger] self@[j].0 by {
                    if j > mid {
                        assert(self@[mid as int].0 < self@[j].0);
                    }
                }
                b = mid;
            }
        }
        a
    }

    /// Searches for `key`, starting from the cached hint where there is one.
    /// The search looks in a window round the hint; where the answer lies on
    /// the window's edge it widens the window twice, then takes the whole
    /// sequence. The outcome never depends on the hint.
    pub fn search_tree(&mut self, key: &u64) -> (r: Option<SearchResult>)
        requires
            old(self).wf(),
        ensures
            final(self)@ == old(self)@,
            search_ok(old(self)@, *key, r),
            match r {
                Some(res) => final(self).hint_spec() == Some(res.position()),
                None => final(self).hint_spec() == old(self).hint_spec(),
            },
    {
        let k: u64 = *key;
        let n = self.entries.len();
        if n == 0 {
            return None;
        }
        let mut lo: usize = 0;
        let mut hi: usize = n;
        if let Some(h) = self.hint {
            if h < n {
                lo = if h > NODE_SPAN { h - NODE_SPAN } else { 0 };
                hi = if n - h > NODE_SPAN { h + NODE_SPAN } else { n };
            }
        }
        let mut ascents: usize = 0;
        loop
            invariant
                self.wf(),
                k == *key,
                n == self@.len(),
                n > 0,
                self@ == old(self)@,
                lo <= hi <= n,
                ascents <= 3,
                ascents == 3 ==> lo == 0 && hi == n,
            decreases 3 - ascents,
        {
            let p = self.local_search(k, lo, hi);
            if p < hi && self.entries[p].0 == k {
                assert(search_ok(old(self)@, k, Some(SearchResult::Found(p))));
                self.set_hint(p);
                return Some(SearchResult::Found(p));
            }
            if (p > lo || lo == 0) && (p < hi || hi == n) {
                proof {
                    let s = self@;
                    assert forall|i: int| 0 <= i < p implies #[trigger] s[i].0 < k by {
                        if i < lo {
                            assert(s[i].0 < s[p - 1].0);
                        }
                    }
                    assert forall|i: int| p <= i < n implies k < #[trigger] s[i].0 by {
                        if i >= hi {
                            assert(s[p as int].0 < s[i].0);
                        }
                    }
                    assert(search_ok(old(self)@, k, Some(SearchResult::GoDown(p))));
                }
                self.set_hint(p);
                return Some(SearchResult::GoDown(p));
            }
            if ascents == 2 {
                lo = 0;
                hi = n;
            } else {
                let span = if ascents == 0 { PARENT_SPAN } else { GRANDPARENT_SPAN };
                lo = if lo > span { lo - span } else { 0 };
                hi = if n - hi > span { hi + span } else { n };
            }
            ascents = ascents + 1;
        }
    }

    /// The entry at position `i`, as references.
    fn entry_ref(&self, i: usize) -> (r: (&u64, &V))
        requires
            i < self@.len(),
        ensures
            (*r.0, *r.1) == self@[i as int],
    {
        let e = &self.entries[i];
        (&e.0, &e.1)
    }

    /// The gaps just before and just after `key`, from where a search ended:
    /// around the entry that holds `key`, or its own gap twice.
    fn gaps_of(&self, key: &u64, found: SearchResult) -> (r: (usize, usize))
        requires
            self.wf(),
            search_ok(self@, *key, Some(found)),
        ensures
            r.0 <= r.1 <= self@.len(),
            pred_of(self@, *key) == (if r.0 > 0 {
                Some(self@[r.0 - 1])
            } else {
                None::<(u64, V)>
            }),
            succ_of(self@, *key) == (if r.1 < self@.len() {
                Some(self@[r.1 as int])
            } else {
                None::<(u64, V)>
            }),
    {
        let ghost s = self@;
        let (p, q) = match found {
            SearchResult::Found(i) => {
                proof {
                    assert forall|j: int| 0 <= j < i implies #[trigger] s[j].0 < *key by {
                        assert(s[j].0 < s[i as int].0);
                    }
                    assert forall|j: int| i < j < s.len() implies *key < #[trigger] s[j].0 by {
                        assert(s[i as int].0 < s[j].0);
                    }
                }
                let len = self.entries.len();
                assert(i < len);
                (i, i + 1)
            },
            SearchResult::GoDown(p) => (p, p),
        };
        proof {
            assert(splits_below(s, *key, p as int));
            assert(splits_above(s, *key, q as int));
            lemma_pred_at_split(s, *key, p as int);
            lemma_succ_at_split(s, *key, q as int);
        }
        (p, q)
    }

    /// Predecessor and successor of `key`, whether or not `key` is stored.
    pub fn get_around(&mut self, key: &u64) -> (r: (Option<(&u64, &V)>, Option<(&u64, &V)>))
        requires
            old(self).wf(),
        ensures
            final(self)@ == old(self)@,
            (entry_view(r.0), entry_view(r.1)) == around(old(self)@, *key),
    {
        let found = match self.search_tree(key) {
            None => {
                return (None, None);
            },
            Some(found) => found,
        };
        let (p, q) = self.gaps_of(key, found);
        let prev = if p > 0 {
            Some(self.entry_ref(p - 1))
        } else {
            None
        };
        let next = if q < self.entries.len() {
            Some(self.entry_ref(q))
        } else {
            None
        };
        (prev, next)
    }

    /// The entry with the largest key below `key`.
    pub fn previous(&mut self, key: &u64) -> (r: Option<(&u64, &V)>)
        requires
            old(self).wf(),
        ensures
            final(self)@ == old(self)@,
            entry_view(r) == around(old(self)@, *key).0,
    {
        let found = match self.search_tree(key) {
            None => {
                return None;
            },
            Some(found) => found,
        };
        let (p, _) = self.gaps_of(key, found);
        if p > 0 {
            Some(self.entry_ref(p - 1))
        } else {
            None
        }
    }

    /// The entry with the smallest key above `key`.
    pub fn next(&mut self, key: &u64) -> (r: Option<(&u64, &V)>)
        requires
            old(self).wf(),
        ensures
            final(self)@ == old(self)@,
            entry_view(r) == around(old(self)@, *key).1,
    {
        let found = match self.search_tree(key) {
            None => {
                return None;
            },
            Some(found) => found,
        };
        let (_, q) = self.gaps_of(key, found);
        if q < self.entries.len() {
            Some(self.entry_ref(q))
        } else {
            None
        }
    }

    /// Stores `value` under `key`. Where `key` was stored, its value is
    /// replaced in place and the old one returned; else the entry goes into
    /// its gap. The hint is left at the entry.
    pub fn insert(&mut self, key: u64, value: V) -> (r: Option<V>)
        requires
            old(self).wf(),
        ensures
            final(self).wf(),
            r is Some <==> holds_key(old(self)@, key),
            match r {
                Some(v) => exists|i: int|
                    0 <= i < old(self)@.len() && #[trigger] old(self)@[i] == (key, v)
                        && final(self)@ == old(self)@.update(i, (key, value))
                        && final(self).hint_spec() == Some(i as usize),
                None => exists|p: int|
                    is_gap(old(self)@, key, p) && final(self)@ == old(self)@.insert(p, (key, value))
                        && final(self).hint_spec() == Some(p as usize),
            },
    {
        let ghost s = self@;
        match self.search_tree(&key) {
            Some(SearchResult::Found(i)) => {
                proof {
                    lemma_update_keeps_order(s, i as int, value);
                }
                let mut slot = (key, value);
                self.entries.set_and_swap(i, &mut slot);
                assert(s[i as int] == (key, slot.1));
                assert(self@ == s.update(i as int, (key, value)));
                assert(self.hint_spec() == Some(i));
                Some(slot.1)
            },
            Some(SearchResult::GoDown(p)) => {
                proof {
                    lemma_insert_at_gap(s, key, p as int, value);
                }
                self.entries.insert(p, (key, value));
                self.set_hint(p);
                assert(is_gap(s, key, p as int) && self@ == s.insert(p as int, (key, value)));
                None
            },
            None => {
                proof {
                    lemma_insert_at_gap(s, key, 0, value);
                }
                self.entries.insert(0, (key, value));
                self.set_hint(0);
                assert(is_gap(s, key, 0) && self@ == s.insert(0, (key, value)));
                None
            },
        }
    }

    /// Removes the entry of `key` and returns its value, `None` where `key`
    /// is not stored. Clears the hint in either case.
    pub fn remove(&mut self, key: &u64) -> (r: Option<V>)
        requires
            old(self).wf(),
        ensures
            final(self).wf(),
            final(self).hint_spec() is None,
            r is Some <==> holds_key(old(self)@, *key),
            match r {
                Some(v) => exists|i: int|
                    0 <= i < old(self)@.len() && #[trigger] old(self)@[i] == (*key, v)
                        && final(self)@ == old(self)@.remove(i),
                None => final(self)@ == old(self)@,
            },
    {
        let ghost s = self@;
        let found = self.search_tree(key);
        self.clear_hint();
        match found {
            Some(SearchResult::Found(i)) => {
                proof {
                    lemma_remove_keeps_order(s, i as int);
                }
                let (_, v) = self.entries.remove(i);
                Some(v)
            },
            _ => {
                assert forall|j: int| 0 <= j < s.len() implies #[trigger] s[j].0 != *key by {}
                None
            },
        }
    }

    /// Removes the entry of `key`, which must be stored, and returns the keys
    /// of its predecessor and successor as they stood before the removal.
    /// Clears the hint.
    pub fn remove_and_return_around(&mut self, key: &u64) -> (r: (Option<u64>, Option<u64>))
        requires
            old(self).wf(),
            holds_key(old(self)@, *key),
        ensures
            final(self).wf(),
            final(self).hint_spec() is None,
            r == around_keys(old(self)@, *key),
            !holds_key(final(self)@, *key),
            exists|i: int|
                0 <= i < old(self)@.len() && #[trigger] old(self)@[i].0 == *key && final(self)@
                    == old(self)@.remove(i),
    {
        let ghost s = self@;
        let i = match self.search_tree(key) {
            Some(SearchResult::Found(i)) => i,
            _ => {
                // a stored key is always found
                proof {
                    let j = choose|j: int| 0 <= j < s.len() && #[trigger] s[j].0 == *key;
                    assert(s[j].0 == *key);
                }
                return vstd::pervasive::unreached();
            },
        };
        let (p, q) = self.gaps_of(key, SearchResult::Found(i));
        let prev = if p > 0 {
            Some(self.entries[p - 1].0)
        } else {
            None
        };
        let next = if q < self.entries.len() {
            Some(self.entries[q].0)
        } else {
            None
        };
        proof {
            lemma_remove_keeps_order(s, i as int);
        }
        self.entries.remove(i);
        self.clear_hint();
        proof {
            let t = self@;
            assert forall|j: int| 0 <= j < t.len() implies #[trigger] t[j].0 != *key by {
                if j < i {
                    assert(t[j] == s[j]);
                    assert(s[j].0 < s[i as int].0);
                } else {
                    assert(t[j] == s[j + 1]);
                    assert(s[i as int].0 < s[j + 1].0);
                }
            }
        }
        (prev, next)
    }

    /// A cursor at the predecessor of `key`; `None` where there is none.
    pub fn cursor_before<'a>(&'a mut self, key: &u64) -> (r: Option<Cursor<'a, V>>)
        requires
            old(self).wf(),
        ensures
            final(self)@ == old(self)@,
            r is Some <==> pred_of(old(self)@, *key) is Some,
            r matches Some(c) ==> c.wf() && c@.0 == old(self)@ && Some(c@.0[c@.1]) == pred_of(
                old(self)@,
                *key,
            ),
    {
        let found = match self.search_tree(key) {
            None => {
                return None;
            },
            Some(found) => found,
        };
        let (p, _) = self.gaps_of(key, found);
        if p > 0 {
            Some(Cursor::new(&self.entries, p - 1))
        } else {
            None
        }
    }

    /// A cursor at the successor of `key`; `None` where there is none.
    pub fn cursor_after<'a>(&'a mut self, key: &u64) -> (r: Option<Cursor<'a, V>>)
        requires
            old(self).wf(),
        ensures
            final(self)@ == old(self)@,
            r is Some <==> succ_of(old(self)@, *key) is Some,
            r matches Some(c) ==> c.wf() && c@.0 == old(self)@ && Some(c@.0[c@.1]) == succ_of(
                old(self)@,
                *key,
            ),
    {
        let found = match self.search_tree(key) {
            None => {
                return None;
            },
            Some(found) => found,
        };
        let (_, q) = self.gaps_of(key, found);
        if q < self.entries.len() {
            Some(Cursor::new(&self.entries, q))
        } else {
            None
        }
    }

    /// The entries in ascending key order, without consuming the container.
    pub fn iter<'a>(&'a self) -> (r: std::slice::Iter<'a, (u64, V)>)
        requires
            self.wf(),
        ensures
            vstd::std_specs::slice::into_iter_elts(r) == self@,
            strictly_ascending(vstd::std_specs::slice::into_iter_elts(r)),
    {
        broadcast use vstd::std_specs::slice::axiom_spec_slice_iter;
        self.entries.as_slice().iter()
    }

    /// The entries in ascending key order, taking them out of the container.
    pub fn into_iter(self) -> (r: std::vec::IntoIter<(u64, V)>)
        requires
            self.wf(),
        ensures
            vstd::std_specs::vec::into_iter_elts(r) == self@,
            strictly_ascending(vstd::std_specs::vec::into_iter_elts(r)),
    {
        broadcast use vstd::std_specs::vec::axiom_spec_into_iter;
        self.entries.into_iter()
    }
}

impl<V> Default for BTreeWithHint<V> {
    fn default() -> (r: Self)
        ensures
            r.wf(),
            r@ == Seq::<(u64, V)>::empty(),
            r.hint_spec() is None,
    {
        BTreeWithHint::new()
    }
}


/// Where a search may have started plays no part in what it finds: any two
/// answers that a search may give for one key on one sequence are the same.
pub proof fn lemma_search_hint_free<V>(
    s: Seq<(u64, V)>,
    key: u64,
    r1: Option<SearchResult>,
    r2: Option<SearchResult>,
)
    requires
        strictly_ascending(s),
        search_ok(s, key, r1),
        search_ok(s, key, r2),
    ensures
        r1 == r2,
{
    match (r1, r2) {
        (Some(SearchResult::Found(i)), Some(SearchResult::Found(j))) => {
            if i < j {
                assert(s[i as int].0 < s[j as int].0);
            } else if j < i {
                assert(s[j as int].0 < s[i as int].0);
            }
        },
        (Some(SearchResult::Found(i)), Some(SearchResult::GoDown(p))) => {
            assert(s[i as int].0 == key);
        },
        (Some(SearchResult::GoDown(p)), Some(SearchResult::Found(i))) => {
            assert(s[i as int].0 == key);
        },
        (Some(SearchResult::GoDown(p)), Some(SearchResult::GoDown(q))) => {
            if p < q {
                assert(s[p as int].0 < key);
            } else if q < p {
                assert(s[q as int].0 < key);
            }
        },
        _ => {},
    }
}

} // verus!
