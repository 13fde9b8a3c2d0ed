use skip_list_rs::{Generator, SkipList};
use std::collections::BTreeMap;

/// Level source that always grows a node to the cap.
struct AlwaysTrue;

impl Generator<bool> for AlwaysTrue {
    fn gen(&mut self) -> bool {
        true
    }
}

/// Level source that keeps every node at level one.
struct AlwaysFalse;

impl Generator<bool> for AlwaysFalse {
    fn gen(&mut self) -> bool {
        false
    }
}

/// Deterministic pseudo-random level source (a linear congruential step).
struct Lcg(u64);

impl Generator<bool> for Lcg {
    fn gen(&mut self) -> bool {
        self.0 = self
            .0
            .wrapping_mul(6364136223846793005)
            .wrapping_add(1442695040888963407);
        (self.0 >> 63) & 1 == 1
    }
}

fn collect_pairs<G: Generator<bool>>(list: &SkipList<u64, G>) -> Vec<(u64, u64)> {
    let mut out = Vec::new();
    let mut it = list.iter();
    while let Some((k, v)) = it.next() {
        out.push((k, *v));
    }
    out
}

#[test]
fn scenario_insert_search_count() {
    let mut list = SkipList::new(Lcg(7));
    for k in [5u64, 1, 3] {
        assert_eq!(list.insert(k, k), Ok(()));
    }
    assert_eq!(list.search(&3), Some(&3));
    assert_eq!(list.search(&2), None);
    assert_eq!(list.count(), 3);
}

#[test]
fn scenario_remove_then_search() {
    let mut list = SkipList::new(Lcg(7));
    for k in [5u64, 1, 3] {
        assert_eq!(list.insert(k, k), Ok(()));
    }
    assert_eq!(list.remove(&1), Ok((1, 1)));
    assert_eq!(list.search(&1), None);
    assert_eq!(list.count(), 2);
}

#[test]
fn scenario_reinsert_after_remove() {
    let mut list = SkipList::new(Lcg(7));
    for k in [5u64, 1, 3] {
        assert_eq!(list.insert(k, k), Ok(()));
    }
    assert_eq!(list.remove(&1), Ok((1, 1)));
    assert_eq!(list.insert(1, 9), Ok(()));
    assert_eq!(list.search(&1), Some(&9));
    assert_eq!(list.count(), 3);
}

#[test]
fn duplicate_insert_rejected() {
    let mut list = SkipList::new(AlwaysTrue);
    assert_eq!(list.insert(5, 5), Ok(()));
    assert_eq!(list.insert(5, 99), Err((5, 99)));
    assert_eq!(list.search(&5), Some(&5));
    assert_eq!(list.count(), 1);
}

#[test]
fn remove_missing_key_fails() {
    let mut list: SkipList<u64, AlwaysFalse> = SkipList::new(AlwaysFalse);
    assert_eq!(list.remove(&42), Err(()));
    let mut full = SkipList::new(Lcg(3));
    for k in [1u64, 2, 3] {
        assert_eq!(full.insert(k, k), Ok(()));
    }
    assert_eq!(full.remove(&42), Err(()));
    assert_eq!(full.count(), 3);
}

#[test]
fn ascending_traversal_after_shuffled_inserts() {
    let orders: [[u64; 5]; 4] = [
        [7, 2, 9, 0, 4],
        [0, 2, 4, 7, 9],
        [9, 7, 4, 2, 0],
        [4, 9, 0, 7, 2],
    ];
    for order in orders {
        let mut list = SkipList::new(Lcg(order[0] + 11));
        for k in order {
            assert_eq!(list.insert(k, k * 10), Ok(()));
        }
        let pairs = collect_pairs(&list);
        assert_eq!(
            pairs,
            vec![(0, 0), (2, 20), (4, 40), (7, 70), (9, 90)]
        );
    }
}

#[test]
fn round_trip_insert_then_search() {
    let mut list = SkipList::new(Lcg(99));
    for k in [13u64, 8, 21, 1, 34, 2] {
        assert_eq!(list.insert(k, k + 100), Ok(()));
        assert_eq!(list.search(&k), Some(&(k + 100)));
    }
}

#[test]
fn remove_returns_stored_pair() {
    let mut list = SkipList::new(Lcg(5));
    for k in [10u64, 20, 30] {
        assert_eq!(list.insert(k, k * 3), Ok(()));
    }
    assert_eq!(list.remove(&20), Ok((20, 60)));
    assert_eq!(list.search(&20), None);
    assert_eq!(list.remove(&20), Err(()));
    assert_eq!(list.count(), 2);
}

#[test]
fn count_tracks_successful_operations() {
    let mut list = SkipList::new(Lcg(17));
    let mut expected: usize = 0;
    assert_eq!(list.count(), expected);
    for k in 0u64..20 {
        assert_eq!(list.insert(k % 10, k).is_ok(), k < 10, "insert of {}", k);
        if k < 10 {
            expected += 1;
        }
        assert_eq!(list.count(), expected);
    }
    for k in 0u64..15 {
        let removed = list.remove(&k).is_ok();
        assert_eq!(removed, k < 10);
        if removed {
            expected -= 1;
        }
        assert_eq!(list.count(), expected);
    }
    assert_eq!(list.count(), 0);
}

#[test]
fn matches_reference_ordered_map() {
    let sources: [&str; 3] = ["true", "false", "lcg"];
    for source in sources {
        let mut reference: BTreeMap<u64, u64> = BTreeMap::new();
        let mut lcg_list = SkipList::new(Lcg(1));
        let mut t_list = SkipList::new(AlwaysTrue);
        let mut f_list = SkipList::new(AlwaysFalse);
        let mut driver = Lcg(4242);
        for step in 0u64..400 {
            let coin = if driver.gen() { 1 } else { 0 };
            let key = (step.wrapping_mul(7) + coin) % 37;
            let run = |list_res: Result<(), (u64, u64)>, expect_new: bool| {
                assert_eq!(list_res.is_ok(), expect_new);
            };
            if step % 3 == 0 {
                let expect_new = !reference.contains_key(&key);
                let res = match source {
                    "true" => t_list.insert(key, step),
                    "false" => f_list.insert(key, step),
                    _ => lcg_list.insert(key, step),
                };
                run(res, expect_new);
                if expect_new {
                    reference.insert(key, step);
                }
            } else if step % 3 == 1 {
                let expect = reference.get(&key).copied();
                let got = match source {
                    "true" => t_list.search(&key).copied(),
                    "false" => f_list.search(&key).copied(),
                    _ => lcg_list.search(&key).copied(),
                };
                assert_eq!(got, expect);
            } else {
                let expect = reference.remove(&key);
                let got = match source {
                    "true" => t_list.remove(&key),
                    "false" => f_list.remove(&key),
                    _ => lcg_list.remove(&key),
                };
                match expect {
                    Some(v) => assert_eq!(got, Ok((key, v))),
                    None => assert_eq!(got, Err(())),
                }
            }
            let count = match source {
                "true" => t_list.count(),
                "false" => f_list.count(),
                _ => lcg_list.count(),
            };
            assert_eq!(count, reference.len());
        }
        let pairs = match source {
            "true" => collect_pairs(&t_list),
            "false" => collect_pairs(&f_list),
            _ => collect_pairs(&lcg_list),
        };
        let expected: Vec<(u64, u64)> = reference.iter().map(|(k, v)| (*k, *v)).collect();
        assert_eq!(pairs, expected);
    }
}

#[test]
fn into_iter_yields_owned_ascending_pairs() {
    let mut list = SkipList::new(Lcg(23));
    for k in [3u64, 1, 4, 1, 5, 9, 2, 6] {
        let _ = list.insert(k, k * k);
    }
    let mut it = list.into_iter();
    let mut got = Vec::new();
    while let Some(pair) = it.next() {
        got.push(pair);
    }
    assert_eq!(
        got,
        vec![(1, 1), (2, 4), (3, 9), (4, 16), (5, 25), (6, 36), (9, 81)]
    );
}

#[test]
fn iter_mut_cursor_drives_value_edits() {
    let mut list = SkipList::new(Lcg(31));
    for k in [6u64, 2, 8] {
        assert_eq!(list.insert(k, k), Ok(()));
    }
    let mut cursor = list.iter_mut();
    let mut seen = Vec::new();
    while let Some(k) = cursor.next() {
        seen.push(k);
        assert_eq!(list.replace_value(&k, k * 100), Ok(k));
    }
    assert_eq!(seen, vec![2, 6, 8]);
    assert_eq!(list.search(&2), Some(&200));
    assert_eq!(list.search(&6), Some(&600));
    assert_eq!(list.search(&8), Some(&800));
    assert_eq!(list.count(), 3);
}

#[test]
fn replace_value_of_missing_key_fails() {
    let mut list = SkipList::new(AlwaysFalse);
    assert_eq!(list.insert(1, 1), Ok(()));
    assert_eq!(list.replace_value(&2, 7), Err(7));
    assert_eq!(list.search(&1), Some(&1));
}

#[test]
fn empty_structure_behaviour() {
    let mut list: SkipList<String, AlwaysTrue> = SkipList::new(AlwaysTrue);
    assert_eq!(list.count(), 0);
    assert_eq!(list.search(&0), None);
    assert_eq!(list.remove(&0), Err(()));
    let mut it = list.iter();
    assert!(it.next().is_none());
}

#[test]
fn tall_and_flat_structures_stay_consistent() {
    let mut tall = SkipList::new(AlwaysTrue);
    let mut flat = SkipList::new(AlwaysFalse);
    for k in 0u64..128 {
        assert_eq!(tall.insert(k, k), Ok(()));
        assert_eq!(flat.insert(127 - k, 127 - k), Ok(()));
    }
    for k in 0u64..128 {
        assert_eq!(tall.search(&k), Some(&k));
        assert_eq!(flat.search(&k), Some(&k));
    }
    for k in (0u64..128).rev() {
        assert_eq!(tall.remove(&k), Ok((k, k)));
        assert_eq!(flat.remove(&k), Ok((k, k)));
    }
    assert_eq!(tall.count(), 0);
    assert_eq!(flat.count(), 0);
}

#[test]
fn owned_values_move_through_the_structure() {
    let mut list = SkipList::new(Lcg(57));
    assert_eq!(list.insert(2, String::from("two")), Ok(()));
    assert_eq!(list.insert(1, String::from("one")), Ok(()));
    match list.insert(1, String::from("uno")) {
        Err((k, v)) => {
            assert_eq!(k, 1);
            assert_eq!(v, "uno");
        }
        Ok(()) => panic!("duplicate insert must fail"),
    }
    assert_eq!(list.search(&1).map(|s| s.as_str()), Some("one"));
    let (k, v) = list.remove(&2).unwrap();
    assert_eq!((k, v.as_str()), (2, "two"));
}
