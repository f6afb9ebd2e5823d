use vstd::prelude::*;

verus! {

/// Keys of the sequence rise strictly from left to right: sorted, no duplicates.
pub open spec fn strictly_ascending<V>(s: Seq<(u64, V)>) -> bool {
    forall|i: int, j: int| 0 <= i < j < s.len() ==> #[trigger] s[i].0 < #[trigger] s[j].0
}

/// The keys of the entries, in order.
pub open spec fn key_seq<V>(s: Seq<(u64, V)>) -> Seq<u64> {
    s.map_values(|e: (u64, V)| e.0)
}

/// Whether some entry holds `key`.
pub open spec fn holds_key<V>(s: Seq<(u64, V)>, key: u64) -> bool {
    exists|i: int| 0 <= i < s.len() && #[trigger] s[i].0 == key
}

/// The last entry whose key is below `key`: the predecessor of `key`.
pub open spec fn pred_of<V>(s: Seq<(u64, V)>, key: u64) -> Option<(u64, V)>
    decreases s.len(),
{
    if s.len() == 0 {
        None
    } else if s.last().0 < key {
        Some(s.last())
    } else {
        pred_of(s.drop_last(), key)
    }
}

/// The first entry whose key is above `key`: the successor of `key`.
pub open spec fn succ_of<V>(s: Seq<(u64, V)>, key: u64) -> Option<(u64, V)>
    decreases s.len(),
{
    if s.len() == 0 {
        None
    } else if s[0].0 > key {
        Some(s[0])
    } else {
        succ_of(s.drop_first(), key)
    }
}

/// Predecessor and successor of `key`; `key` itself is never one of them.
pub open spec fn around<V>(s: Seq<(u64, V)>, key: u64) -> (Option<(u64, V)>, Option<(u64, V)>) {
    (pred_of(s, key), succ_of(s, key))
}

pub open spec fn key_of<V>(e: Option<(u64, V)>) -> Option<u64> {
    match e {
        Some(e) => Some(e.0),
        None => None,
    }
}

/// The keys of predecessor and successor of `key`.
pub open spec fn around_keys<V>(s: Seq<(u64, V)>, key: u64) -> (Option<u64>, Option<u64>) {
    (key_of(pred_of(s, key)), key_of(succ_of(s, key)))
}

/// `p` is the gap where an absent `key` would be inserted: every key before it
/// is smaller, every key from it on is larger.
pub open spec fn is_gap<V>(s: Seq<(u64, V)>, key: u64, p: int) -> bool {
    &&& 0 <= p <= s.len()
    &&& forall|i: int| 0 <= i < p ==> #[trigger] s[i].0 < key
    &&& forall|i: int| p <= i < s.len() ==> key < #[trigger] s[i].0
}

/// Entries before `p` lie below `key`, entries from `p` on lie at or above it.
pub open spec fn splits_below<V>(s: Seq<(u64, V)>, key: u64, p: int) -> bool {
    &&& 0 <= p <= s.len()
    &&& forall|i: int| 0 <= i < p ==> #[trigger] s[i].0 < key
    &&& forall|i: int| p <= i < s.len() ==> key <= #[trigger] s[i].0
}

/// Entries before `q` lie at or below `key`, entries from `q` on lie above it.
pub open spec fn splits_above<V>(s: Seq<(u64, V)>, key: u64, q: int) -> bool {
    &&& 0 <= q <= s.len()
    &&& forall|i: int| 0 <= i < q ==> #[trigger] s[i].0 <= key
    &&& forall|i: int| q <= i < s.len() ==> key < #[trigger] s[i].0
}

pub proof fn lemma_pred_at_split<V>(s: Seq<(u64, V)>, key: u64, p: int)
    requires
        splits_below(s, key, p),
    ensures
        pred_of(s, key) == (if p > 0 { Some(s[p - 1]) } else { None::<(u64, V)> }),
    decreases s.len(),
{
    if s.len() > 0 && p < s.len() {
        assert(key <= s[s.len() - 1].0);
        let t = s.drop_last();
        assert(splits_below(t, key, p));
        lemma_pred_at_split(t, key, p);
        if p > 0 {
            assert(t[p - 1] == s[p - 1]);
        }
    }
}

pub proof fn lemma_succ_at_split<V>(s: Seq<(u64, V)>, key: u64, q: int)
    requires
        splits_above(s, key, q),
    ensures
        succ_of(s, key) == (if q < s.len() { Some(s[q]) } else { None::<(u64, V)> }),
    decreases s.len(),
{
    if s.len() > 0 && q > 0 {
        assert(s[0].0 <= key);
        let t = s.drop_first();
        assert forall|i: int| 0 <= i < q - 1 implies #[trigger] t[i].0 <= key by {
            assert(t[i] == s[i + 1]);
        }
        assert forall|i: int| q - 1 <= i < t.len() implies key < #[trigger] t[i].0 by {
            assert(t[i] == s[i + 1]);
        }
        lemma_succ_at_split(t, key, q - 1);
        if q < s.len() {
            assert(t[q - 1] == s[q]);
        }
    }
}

/// The predecessor, where there is one, is an entry below `key` after which
/// no entry lies below `key`; where there is none, no entry lies below `key`.
pub proof fn lemma_pred_located<V>(s: Seq<(u64, V)>, key: u64)
    ensures
        match pred_of(s, key) {
            Some(e) => exists|i: int|
                0 <= i < s.len() && #[trigger] s[i] == e && e.0 < key && forall|j: int|
                    i < j < s.len() ==> key <= #[trigger] s[j].0,
            None => forall|j: int| 0 <= j < s.len() ==> key <= #[trigger] s[j].0,
        },
    decreases s.len(),
{
    if s.len() > 0 {
        let n = s.len() - 1;
        if s.last().0 < key {
            assert(s[n] == s.last());
        } else {
            let t = s.drop_last();
            lemma_pred_located(t, key);
            match pred_of(t, key) {
                Some(e) => {
                    let i = choose|i: int|
                        0 <= i < t.len() && #[trigger] t[i] == e && e.0 < key && forall|j: int|
                            i < j < t.len() ==> key <= #[trigger] t[j].0;
                    assert(s[i] == e);
                    assert forall|j: int| i < j < s.len() implies key <= #[trigger] s[j].0 by {
                        if j < n {
                            assert(s[j] == t[j]);
                        }
                    }
                },
                None => {
                    assert forall|j: int| 0 <= j < s.len() implies key <= #[trigger] s[j].0 by {
                        if j < n {
                            assert(s[j] == t[j]);
                        }
                    }
                },
            }
        }
    }
}

/// The successor, where there is one, is an entry above `key` before which
/// no entry lies above `key`; where there is none, no entry lies above `key`.
pub proof fn lemma_succ_located<V>(s: Seq<(u64, V)>, key: u64)
    ensures
        match succ_of(s, key) {
            Some(e) => exists|i: int|
                0 <= i < s.len() && #[trigger] s[i] == e && key < e.0 && forall|j: int|
                    0 <= j < i ==> #[trigger] s[j].0 <= key,
            None => forall|j: int| 0 <= j < s.len() ==> #[trigger] s[j].0 <= key,
        },
    decreases s.len(),
{
    if s.len() > 0 && s[0].0 <= key {
        let t = s.drop_first();
        lemma_succ_located(t, key);
        match succ_of(t, key) {
            Some(e) => {
                let i = choose|i: int|
                    0 <= i < t.len() && #[trigger] t[i] == e && key < e.0 && forall|j: int|
                        0 <= j < i ==> #[trigger] t[j].0 <= key;
                assert(s[i + 1] == e);
                assert forall|j: int| 0 <= j < i + 1 implies #[trigger] s[j].0 <= key by {
                    if j > 0 {
                        assert(s[j] == t[j - 1]);
                    }
                }
            },
            None => {
                assert forall|j: int| 0 <= j < s.len() implies #[trigger] s[j].0 <= key by {
                    if j > 0 {
                        assert(s[j] == t[j - 1]);
                    }
                }
            },
        }
    }
}

/// Neighbours bracket the key: the predecessor lies below `key` and the
/// successor above it, each is a stored entry, each is missing only where no
/// entry lies on its side, and no stored key but `key` itself lies strictly
/// between the two.
pub proof fn lemma_around_brackets<V>(s: Seq<(u64, V)>, key: u64)
    requires
        strictly_ascending(s),
    ensures
        pred_of(s, key) is Some ==> key_of(pred_of(s, key))->0 < key && s.contains(
            pred_of(s, key)->0,
        ),
        succ_of(s, key) is Some ==> key < key_of(succ_of(s, key))->0 && s.contains(
            succ_of(s, key)->0,
        ),
        pred_of(s, key) is None <==> forall|i: int| 0 <= i < s.len() ==> key <= #[trigger] s[i].0,
        succ_of(s, key) is None <==> forall|i: int| 0 <= i < s.len() ==> #[trigger] s[i].0 <= key,
        pred_of(s, key) is Some && succ_of(s, key) is Some ==> forall|m: int|
            0 <= m < s.len() && key_of(pred_of(s, key))->0 < #[trigger] s[m].0 && s[m].0 < key_of(
                succ_of(s, key),
            )->0 ==> s[m].0 == key,
{
    lemma_pred_located(s, key);
    lemma_succ_located(s, key);
    if let Some(e) = pred_of(s, key) {
        let i = choose|i: int|
            0 <= i < s.len() && #[trigger] s[i] == e && e.0 < key && forall|j: int|
                i < j < s.len() ==> key <= #[trigger] s[j].0;
        assert(s[i] == e);
        assert(!(key <= s[i].0));
    }
    if let Some(e) = succ_of(s, key) {
        let i = choose|i: int|
            0 <= i < s.len() && #[trigger] s[i] == e && key < e.0 && forall|j: int|
                0 <= j < i ==> #[trigger] s[j].0 <= key;
        assert(s[i] == e);
        assert(!(s[i].0 <= key));
    }
    if pred_of(s, key) is Some && succ_of(s, key) is Some {
        let a = pred_of(s, key)->0;
        let b = succ_of(s, key)->0;
        let i = choose|i: int|
            0 <= i < s.len() && #[trigger] s[i] == a && a.0 < key && forall|j: int|
                i < j < s.len() ==> key <= #[trigger] s[j].0;
        let k = choose|i: int|
            0 <= i < s.len() && #[trigger] s[i] == b && key < b.0 && forall|j: int|
                0 <= j < i ==> #[trigger] s[j].0 <= key;
        assert forall|m: int|
            0 <= m < s.len() && a.0 < #[trigger] s[m].0 && s[m].0 < b.0 implies s[m].0 == key by {
            if m <= i {
                if m < i {
                    assert(s[m].0 < s[i].0);
                }
            }
            if m >= k {
                if m > k {
                    assert(s[k].0 < s[m].0);
                }
            }
        }
    }
}

/// Inserting an absent key at its gap keeps the keys strictly ascending.
pub proof fn lemma_insert_at_gap<V>(s: Seq<(u64, V)>, key: u64, p: int, v: V)
    requires
        strictly_ascending(s),
        is_gap(s, key, p),
    ensures
        strictly_ascending(s.insert(p, (key, v))),
{
    let t = s.insert(p, (key, v));
    assert forall|i: int, j: int| 0 <= i < j < t.len() implies #[trigger] t[i].0 < #[trigger] t[j].0 by {
        if j < p {
            assert(t[i] == s[i] && t[j] == s[j]);
        } else if j == p {
            assert(t[i] == s[i]);
        } else if i < p {
            assert(t[i] == s[i] && t[j] == s[j - 1]);
        } else if i == p {
            assert(t[j] == s[j - 1]);
        } else {
            assert(t[i] == s[i - 1] && t[j] == s[j - 1]);
        }
    }
}

/// Removing an entry keeps the keys strictly ascending.
pub proof fn lemma_remove_keeps_order<V>(s: Seq<(u64, V)>, i: int)
    requires
        strictly_ascending(s),
        0 <= i < s.len(),
    ensures
        strictly_ascending(s.remove(i)),
{
    let t = s.remove(i);
    assert forall|a: int, b: int| 0 <= a < b < t.len() implies #[trigger] t[a].0 < #[trigger] t[b].0 by {
        let a2 = if a < i { a } else { a + 1 };
        let b2 = if b < i { b } else { b + 1 };
        assert(t[a] == s[a2] && t[b] == s[b2]);
    }
}

/// Replacing the value of an entry keeps the keys strictly ascending.
pub proof fn lemma_update_keeps_order<V>(s: Seq<(u64, V)>, i: int, v: V)
    requires
        strictly_ascending(s),
        0 <= i < s.len(),
    ensures
        strictly_ascending(s.update(i, (s[i].0, v))),
{
    let t = s.update(i, (s[i].0, v));
    assert forall|a: int, b: int| 0 <= a < b < t.len() implies #[trigger] t[a].0 < #[trigger] t[b].0 by {
        assert(t[a].0 == s[a].0 && t[b].0 == s[b].0);
    }
}

} // verus!
