use sweep_tree::{BTreeWithHint, SearchResult};

fn sample() -> BTreeWithHint<&'static str> {
    let mut t = BTreeWithHint::new();
    assert_eq!(t.insert(5, "five"), None);
    assert_eq!(t.insert(1, "one"), None);
    assert_eq!(t.insert(3, "three"), None);
    assert_eq!(t.insert(9, "nine"), None);
    assert_eq!(t.insert(7, "seven"), None);
    t
}

fn keys<V>(t: &BTreeWithHint<V>) -> Vec<u64> {
    t.iter().map(|e| e.0).collect()
}

/// A small deterministic pseudo-random sequence.
struct Lcg(u64);

impl Lcg {
    fn next(&mut self) -> u64 {
        self.0 = self.0.wrapping_mul(6364136223846793005).wrapping_add(1442695040888963407);
        self.0 >> 33
    }
}

fn cold_search(model: &[u64], key: u64) -> Option<SearchResult> {
    if model.is_empty() {
        return None;
    }
    match model.binary_search(&key) {
        Ok(i) => Some(SearchResult::Found(i)),
        Err(p) => Some(SearchResult::GoDown(p)),
    }
}

#[test]
fn it_works() {
    let result = 2 + 2;
    assert_eq!(result, 4);
}

#[test]
fn sweep_scenario() {
    let mut t = sample();
    assert_eq!(keys(&t), vec![1, 3, 5, 7, 9]);
    assert_eq!(t.get_around(&4), (Some((&3, &"three")), Some((&5, &"five"))));
    assert_eq!(t.get_around(&5), (Some((&3, &"three")), Some((&7, &"seven"))));
    assert_eq!(t.get_around(&0), (None, Some((&1, &"one"))));
    assert_eq!(t.get_around(&10), (Some((&9, &"nine")), None));
    assert_eq!(t.remove_and_return_around(&5), (Some(3), Some(7)));
    assert_eq!(keys(&t), vec![1, 3, 7, 9]);
}

#[test]
fn empty_container_answers_nothing() {
    let mut t: BTreeWithHint<u32> = BTreeWithHint::default();
    assert_eq!(t.search_tree(&3), None);
    assert_eq!(t.get_around(&3), (None, None));
    assert_eq!(t.previous(&3), None);
    assert_eq!(t.next(&3), None);
    assert!(t.cursor_before(&3).is_none());
    assert!(t.cursor_after(&3).is_none());
    assert_eq!(t.remove(&3), None);
    assert_eq!(t.iter().count(), 0);
}

#[test]
fn insert_overwrites_and_returns_old_value() {
    let mut t = sample();
    assert_eq!(t.insert(3, "drei"), Some("three"));
    assert_eq!(keys(&t), vec![1, 3, 5, 7, 9]);
    assert_eq!(t.previous(&4), Some((&3, &"drei")));
}

#[test]
fn insert_extreme_keys() {
    let mut t = BTreeWithHint::new();
    assert_eq!(t.insert(u64::MAX, 1u8), None);
    assert_eq!(t.insert(0, 2u8), None);
    assert_eq!(t.get_around(&u64::MAX), (Some((&0, &2)), None));
    assert_eq!(t.get_around(&0), (None, Some((&u64::MAX, &1))));
    assert_eq!(t.next(&0), Some((&u64::MAX, &1)));
}

#[test]
fn remove_returns_value_and_absent_key_gives_none() {
    let mut t = sample();
    assert_eq!(t.remove(&4), None);
    assert_eq!(keys(&t), vec![1, 3, 5, 7, 9]);
    assert_eq!(t.remove(&7), Some("seven"));
    assert_eq!(keys(&t), vec![1, 3, 5, 9]);
    assert_eq!(t.remove(&7), None);
}

#[test]
fn previous_and_next_match_get_around() {
    let mut t = sample();
    for k in 0..12u64 {
        let around = t.get_around(&k);
        let (p, n) = (around.0.map(|e| (*e.0, *e.1)), around.1.map(|e| (*e.0, *e.1)));
        assert_eq!(t.previous(&k).map(|e| (*e.0, *e.1)), p);
        assert_eq!(t.next(&k).map(|e| (*e.0, *e.1)), n);
    }
}

#[test]
fn neighbours_bracket_the_key() {
    let mut t = BTreeWithHint::new();
    for k in [40u64, 10, 30, 20, 50] {
        t.insert(k, k * 2);
    }
    let stored = keys(&t);
    for k in 0..60u64 {
        let (p, n) = t.get_around(&k);
        if let Some((pk, pv)) = p {
            assert!(*pk < k);
            assert_eq!(*pv, *pk * 2);
        }
        if let Some((nk, _)) = n {
            assert!(k < *nk);
        }
        if let (Some((pk, _)), Some((nk, _))) = (p, n) {
            assert!(stored.iter().all(|s| !(*pk < *s && *s < *nk) || *s == k));
        }
        assert_eq!(p.is_none(), stored.iter().all(|s| *s >= k));
        assert_eq!(n.is_none(), stored.iter().all(|s| *s <= k));
    }
}

#[test]
fn remove_and_return_around_matches_get_around() {
    let mut t = sample();
    for k in [9u64, 1, 5] {
        let (p, n) = t.get_around(&k);
        let expected = (p.map(|e| *e.0), n.map(|e| *e.0));
        assert_eq!(t.remove_and_return_around(&k), expected);
        assert!(!keys(&t).contains(&k));
    }
    assert_eq!(keys(&t), vec![3, 7]);
    assert_eq!(t.remove_and_return_around(&3), (None, Some(7)));
    assert_eq!(t.remove_and_return_around(&7), (None, None));
    assert_eq!(t.iter().count(), 0);
}

#[test]
fn hinted_search_matches_cold_search() {
    let mut t = BTreeWithHint::new();
    let mut model: Vec<u64> = Vec::new();
    let mut rng = Lcg(7);
    for round in 0..6000u64 {
        let key = rng.next() % 5000;
        match rng.next() % 4 {
            0 | 1 => {
                let had = model.binary_search(&key);
                let old = t.insert(key, round);
                assert_eq!(old.is_some(), had.is_ok());
                if let Err(p) = had {
                    model.insert(p, key);
                }
            }
            2 => {
                let had = model.binary_search(&key);
                assert_eq!(t.remove(&key).is_some(), had.is_ok());
                if let Ok(i) = had {
                    model.remove(i);
                }
            }
            _ => {}
        }
        let near = key.wrapping_add(rng.next() % 7);
        assert_eq!(t.search_tree(&near), cold_search(&model, near));
        let far = rng.next() % 5000;
        assert_eq!(t.search_tree(&far), cold_search(&model, far));
        assert_eq!(t.search_tree(&near), cold_search(&model, near));
    }
    assert_eq!(keys(&t), model);
}

#[test]
fn search_reports_gap_and_slot() {
    let mut t = BTreeWithHint::new();
    for k in 0..2000u64 {
        t.insert(k * 2, ());
    }
    assert_eq!(t.search_tree(&10), Some(SearchResult::Found(5)));
    assert_eq!(t.search_tree(&11), Some(SearchResult::GoDown(6)));
    assert_eq!(t.search_tree(&3999), Some(SearchResult::GoDown(2000)));
    assert_eq!(t.search_tree(&0), Some(SearchResult::Found(0)));
    assert_eq!(t.search_tree(&2501), Some(SearchResult::GoDown(1251)));
    assert_eq!(t.search_tree(&2498), Some(SearchResult::Found(1249)));
}

#[test]
fn iteration_is_ascending_after_mixed_updates() {
    let mut t = BTreeWithHint::new();
    let mut rng = Lcg(99);
    for _ in 0..3000 {
        let k = rng.next() % 700;
        if rng.next() % 3 == 0 {
            t.remove(&k);
        } else {
            t.insert(k, k);
        }
    }
    let ks = keys(&t);
    assert!(ks.windows(2).all(|w| w[0] < w[1]));
    let owned: Vec<u64> = t.into_iter().map(|e| e.0).collect();
    assert_eq!(owned, ks);
}
