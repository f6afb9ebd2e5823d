use sweep_tree::BTreeWithHint;

fn sample() -> BTreeWithHint<u64> {
    let mut t = BTreeWithHint::new();
    for k in [5u64, 1, 3, 9, 7] {
        t.insert(k, k * 10);
    }
    t
}

#[test]
fn cursor_before_and_after_pick_neighbours() {
    let mut t = sample();
    assert!(t.cursor_before(&1).is_none());
    assert!(t.cursor_after(&9).is_none());
    assert_eq!(t.cursor_before(&5).unwrap().kv(), (&3, &30));
    assert_eq!(t.cursor_before(&6).unwrap().kv(), (&5, &50));
    assert_eq!(t.cursor_after(&5).unwrap().kv(), (&7, &70));
    assert_eq!(t.cursor_after(&0).unwrap().kv(), (&1, &10));
}

#[test]
fn cursor_walks_forward_over_every_key() {
    let mut t = sample();
    let mut c = t.cursor_after(&0).unwrap();
    let mut seen = vec![*c.kv().0];
    while c.next() {
        seen.push(*c.kv().0);
    }
    assert_eq!(seen, vec![1, 3, 5, 7, 9]);
    assert_eq!(c.kv(), (&9, &90));
}

#[test]
fn cursor_walks_backward_over_every_key() {
    let mut t = sample();
    let mut c = t.cursor_before(&u64::MAX).unwrap();
    let mut seen = vec![*c.kv().0];
    while c.prev() {
        seen.push(*c.kv().0);
    }
    assert_eq!(seen, vec![9, 7, 5, 3, 1]);
    assert_eq!(c.kv(), (&1, &10));
}

#[test]
fn cursor_rewinds_to_minimum_then_visits_all() {
    let mut t = BTreeWithHint::new();
    for k in 0..500u64 {
        t.insert(k * 3, ());
    }
    let mut c = t.cursor_after(&700).unwrap();
    while c.prev() {}
    assert_eq!(*c.kv().0, 0);
    let mut count = 1;
    let mut last = 0;
    while c.next() {
        assert!(*c.kv().0 > last);
        last = *c.kv().0;
        count += 1;
    }
    assert_eq!(count, 500);
    assert_eq!(last, 1497);
}

#[test]
fn cursor_on_single_entry_cannot_move() {
    let mut t = BTreeWithHint::new();
    t.insert(4, 'x');
    let mut c = t.cursor_after(&3).unwrap();
    assert!(!c.next());
    assert!(!c.prev());
    assert_eq!(c.kv(), (&4, &'x'));
}
