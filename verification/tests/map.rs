use red_mod::iter::{parse_op, raxIterator, SeekOp, EQ, GT, GTE, LT, LTE, MAX, MIN};
use red_mod::key::RaxKey;
use red_mod::rax::{Rax, RAX};
use red_mod::tree::rax;
use std::cell::Cell;
use std::collections::BTreeMap;
use std::rc::Rc;

fn with_keys(keys: &[u64]) -> Rax<u64, String> {
    let mut r = Rax::<u64, String>::new();
    for k in keys {
        r.insert(*k, Box::new(format!("v{}", k))).unwrap();
    }
    r
}

#[test]
fn insert_then_find() {
    let mut r = Rax::<u64, String>::new();
    assert_eq!(r.size(), 0);
    assert_eq!(r.find(7), None);
    assert_eq!(r.insert(7, Box::new("seven".to_string())).unwrap(), (1, None));
    assert_eq!(r.size(), 1);
    assert_eq!(r.find(7), Some(&"seven".to_string()));
    assert_eq!(r.find(8), None);
    assert!(r.exists_value(7));
    assert!(!r.exists_value(8));
    assert_eq!(r.find_exists(7), (true, Some(&"seven".to_string())));
    assert_eq!(r.find_exists(8), (false, None));
    assert_eq!(r.insert(8, Box::new("eight".to_string())).unwrap(), (1, None));
    assert_eq!(r.size(), 2);
    assert_eq!(r.find(7), Some(&"seven".to_string()));
    assert_eq!(r.find(8), Some(&"eight".to_string()));
}

#[test]
fn replace_returns_the_previous_value() {
    let mut r = Rax::<u64, String>::new();
    assert_eq!(r.insert(3, Box::new("v1".to_string())).unwrap(), (1, None));
    assert_eq!(
        r.insert(3, Box::new("v2".to_string())).unwrap(),
        (0, Some(Box::new("v1".to_string())))
    );
    assert_eq!(r.find(3), Some(&"v2".to_string()));
    assert_eq!(r.size(), 1);
}

#[test]
fn remove_gives_the_value_back() {
    let mut r = with_keys(&[1, 2, 3]);
    assert_eq!(r.remove(9), (false, None));
    assert_eq!(r.size(), 3);
    assert_eq!(r.remove(2), (true, Some(Box::new("v2".to_string()))));
    assert_eq!(r.size(), 2);
    assert_eq!(r.find(2), None);
    assert_eq!(r.find(1), Some(&"v1".to_string()));
    assert_eq!(r.find(3), Some(&"v3".to_string()));
    assert_eq!(r.remove(2), (false, None));
    assert_eq!(r.size(), 2);
}

#[test]
fn a_key_can_be_held_without_a_value() {
    let mut r = Rax::<u64, String>::new();
    assert_eq!(r.insert_null(5).unwrap(), (1, None));
    assert_eq!(r.size(), 1);
    assert_eq!(r.find(5), None);
    assert!(!r.exists_value(5));
    assert_eq!(r.find_exists(5), (true, None));
    assert!(r.first());
    assert!(r.next());
    assert_eq!(r.key(), 5);
    assert_eq!(r.data(), None);
    assert_eq!(r.insert(5, Box::new("five".to_string())).unwrap(), (0, None));
    assert_eq!(r.find(5), Some(&"five".to_string()));
    assert_eq!(r.insert_null(5).unwrap(), (0, Some(Box::new("five".to_string()))));
    assert_eq!(r.remove(5), (true, None));
    assert_eq!(r.size(), 0);
}

#[test]
fn iteration_is_in_key_order() {
    let mut r = with_keys(&[5, 1, 3, 2, 4]);
    let mut seen = Vec::new();
    assert!(r.first());
    while r.next() {
        seen.push(r.key());
        assert_eq!(r.data(), Some(&format!("v{}", r.key())));
    }
    assert_eq!(seen, vec![1, 2, 3, 4, 5]);
    assert_eq!(r.data(), None);
    assert!(!r.next());
    assert!(!r.prev());

    let mut seen = Vec::new();
    assert!(r.last());
    while r.prev() {
        seen.push(r.key());
    }
    assert_eq!(seen, vec![5, 4, 3, 2, 1]);
}

#[test]
fn seek_puts_the_cursor_by_the_operator() {
    let mut r = with_keys(&[10, 20, 30]);
    assert!(r.seek(GTE, &15u64.encode()));
    assert_eq!(r.key(), 20);
    assert!(!r.seek(GT, &30u64.encode()));
    assert_eq!(r.data(), None);
    assert!(!r.next());
    assert!(r.seek(LTE, &10u64.encode()));
    assert_eq!(r.key(), 10);

    assert!(r.seek(GTE, &20u64.encode()));
    assert_eq!(r.key(), 20);
    assert!(r.seek(GT, &20u64.encode()));
    assert_eq!(r.key(), 30);
    assert!(r.seek(GT, &0u64.encode()));
    assert_eq!(r.key(), 10);
    assert!(r.seek(LT, &20u64.encode()));
    assert_eq!(r.key(), 10);
    assert!(r.seek(LTE, &25u64.encode()));
    assert_eq!(r.key(), 20);
    assert!(r.seek(LT, &u64::MAX.encode()));
    assert_eq!(r.key(), 30);
    assert!(!r.seek(LT, &10u64.encode()));
    assert!(!r.seek(LTE, &9u64.encode()));
    assert!(!r.seek(GTE, &31u64.encode()));
    assert!(r.seek(EQ, &20u64.encode()));
    assert_eq!(r.key(), 20);
    assert_eq!(r.data(), Some(&"v20".to_string()));
    assert!(!r.seek(EQ, &21u64.encode()));
    assert!(r.seek(MIN, &[]));
    assert_eq!(r.key(), 10);
    assert!(r.seek(MAX, &[]));
    assert_eq!(r.key(), 30);
    assert!(!r.seek("?", &20u64.encode()));
    assert!(!r.seek("", &20u64.encode()));
    assert!(!r.next());
}

#[test]
fn seek_with_targets_of_other_lengths() {
    let mut r = with_keys(&[10, 20, 30]);
    assert!(r.seek(GT, &[]));
    assert_eq!(r.key(), 10);
    assert!(!r.seek(LT, &[]));
    assert!(!r.seek(LTE, &[]));
    assert!(r.seek(GTE, &[0, 0, 0, 0]));
    assert_eq!(r.key(), 10);
    assert!(!r.seek(LTE, &[0, 0, 0, 0]));
    assert!(r.seek(LT, &[0, 0, 0, 0, 0, 0, 0, 20, 0]));
    assert_eq!(r.key(), 20);
    assert!(r.seek(GT, &[0, 0, 0, 0, 0, 0, 0, 20, 0]));
    assert_eq!(r.key(), 30);
    assert!(!r.seek(GT, &[1]));
    assert!(r.seek(LT, &[1]));
    assert_eq!(r.key(), 30);
}

#[test]
fn the_step_after_a_seek_hands_out_the_key_that_was_found() {
    let mut r = with_keys(&[10, 20, 30]);
    assert!(r.seek(GTE, &15u64.encode()));
    assert!(r.next());
    assert_eq!(r.key(), 20);
    assert!(r.next());
    assert_eq!(r.key(), 30);
    assert!(!r.next());

    assert!(r.seek(GTE, &15u64.encode()));
    assert!(r.prev());
    assert_eq!(r.key(), 20);
    assert!(r.prev());
    assert_eq!(r.key(), 10);
    assert!(!r.prev());
}

#[test]
fn forward_and_backward_steps_meet() {
    let mut r = with_keys(&[1, 2, 3, 4, 5]);
    assert!(r.seek(EQ, &3u64.encode()));
    assert!(r.next());
    assert_eq!(r.key(), 3);
    assert!(r.next());
    assert_eq!(r.key(), 4);
    assert!(r.prev());
    assert_eq!(r.key(), 3);
    assert!(r.prev());
    assert_eq!(r.key(), 2);
    assert!(r.next());
    assert_eq!(r.key(), 3);
}

#[test]
fn texts_with_shared_prefixes() {
    let mut r = Rax::<String, u32>::new();
    for (i, k) in ["hello", "hello-war", "hello-way", "hello-wares"].iter().enumerate() {
        r.insert(k.to_string(), Box::new(i as u32)).unwrap();
    }
    let mut seen = Vec::new();
    r.first();
    while r.next() {
        seen.push(r.key());
    }
    assert_eq!(seen, vec!["hello", "hello-war", "hello-wares", "hello-way"]);
    assert_eq!(r.find("hello".to_string()), Some(&0));
    assert_eq!(r.find("hello-war".to_string()), Some(&1));
    assert_eq!(r.find("hello-wa".to_string()), None);
    assert_eq!(r.find("hell".to_string()), None);
    assert_eq!(r.find("hello-wares!".to_string()), None);

    let mut only = Rax::<String, u32>::new();
    only.insert("hello-war".to_string(), Box::new(1)).unwrap();
    assert_eq!(only.find("hello".to_string()), None);
    assert_eq!(only.find("hello-war".to_string()), Some(&1));
}

struct Counted {
    id: usize,
    drops: Rc<Vec<Cell<u32>>>,
}

impl Drop for Counted {
    fn drop(&mut self) {
        let cell = &self.drops[self.id];
        cell.set(cell.get() + 1);
    }
}

#[test]
fn every_value_is_dropped_once() {
    let n = 200usize;
    let drops: Rc<Vec<Cell<u32>>> = Rc::new((0..n + 10).map(|_| Cell::new(0)).collect());
    {
        let mut r = Rax::<u64, Counted>::new();
        for id in 0..n {
            r.insert(id as u64 * 7919 % 1000, Box::new(Counted { id, drops: drops.clone() }))
                .unwrap();
        }
        assert_eq!(r.size(), n as u64);
        for id in 0..n {
            if id % 3 == 0 {
                let (found, value) = r.remove(id as u64 * 7919 % 1000);
                assert!(found);
                assert_eq!(value.as_ref().unwrap().id, id);
                assert_eq!(drops[id].get(), 0);
                drop(value);
                assert_eq!(drops[id].get(), 1);
            }
        }
        for extra in 0..10 {
            let key = (extra as u64 * 3 + 1) * 7919 % 1000;
            let old =
                r.insert(key, Box::new(Counted { id: n + extra, drops: drops.clone() })).unwrap();
            assert_eq!(old.0, 0);
            let old_id = old.1.as_ref().unwrap().id;
            assert_eq!(drops[old_id].get(), 0);
            drop(old);
            assert_eq!(drops[old_id].get(), 1);
        }
        for cell in drops.iter() {
            assert!(cell.get() <= 1);
        }
    }
    for cell in drops.iter() {
        assert_eq!(cell.get(), 1);
    }
}

#[test]
fn a_borrowed_cursor_walks_the_same_keys() {
    let r = with_keys(&[5, 1, 3]);
    let mut it = r.iterator();
    assert!(!it.next());
    assert!(it.first());
    let mut seen = Vec::new();
    while it.next() {
        seen.push(u64::decode(it.key()));
        assert!(it.data().is_some());
    }
    assert_eq!(seen, vec![1, 3, 5]);
    assert!(it.last());
    assert!(it.prev());
    assert_eq!(u64::decode(it.key()), 5);
    assert!(it.seek("<", &5u64.encode()));
    assert_eq!(u64::decode(it.key()), 3);
    assert_eq!(it.data(), Some(&"v3".to_string()));
    assert!(!it.seek("x", &5u64.encode()));
    assert_eq!(it.data(), None);
}

fn through_the_trait<M: RAX<u64, String>>(m: &mut M) {
    assert_eq!(m.insert(1, Box::new("a".to_string())).unwrap(), (1, None));
    assert_eq!(m.find(1), Some(&"a".to_string()));
    assert_eq!(m.remove(1), (true, Some(Box::new("a".to_string()))));
    assert_eq!(m.find(1), None);
}

#[test]
fn the_map_is_a_rax() {
    let mut r = Rax::<u64, String>::new();
    through_the_trait(&mut r);
    assert_eq!(r.size(), 0);
}

#[test]
fn operators_are_named_by_their_first_bytes() {
    assert_eq!(parse_op(">"), Some(SeekOp::Gt));
    assert_eq!(parse_op(">="), Some(SeekOp::Gte));
    assert_eq!(parse_op("<"), Some(SeekOp::Lt));
    assert_eq!(parse_op("<="), Some(SeekOp::Lte));
    assert_eq!(parse_op("="), Some(SeekOp::Eq));
    assert_eq!(parse_op("^"), Some(SeekOp::First));
    assert_eq!(parse_op("$"), Some(SeekOp::Last));
    assert_eq!(parse_op(">x"), Some(SeekOp::Gt));
    assert_eq!(parse_op("=="), Some(SeekOp::Eq));
    assert_eq!(parse_op(""), None);
    assert_eq!(parse_op("!"), None);
    assert_eq!([GT, GTE, LT, LTE, EQ, MIN, MAX], [">", ">=", "<", "<=", "=", "^", "$"]);
}

#[test]
fn the_tree_of_bytes() {
    let mut t = rax::<u32>::new();
    assert_eq!(t.size(), 0);
    assert_eq!(t.first_key(), None);
    assert_eq!(t.last_key(), None);
    assert_eq!(t.key_above(b"", true), None);
    assert_eq!(t.key_below(b"zzz", true), None);
    assert_eq!(t.find(b""), None);
    assert_eq!(t.remove(b"nothing"), None);

    assert_eq!(t.insert(b"", 0).unwrap(), None);
    assert_eq!(t.find(b""), Some(&0));
    assert_eq!(t.size(), 1);
    assert_eq!(t.first_key(), Some(vec![]));
    assert_eq!(t.remove(b""), Some(0));
    assert_eq!(t.size(), 0);
    assert_eq!(t.first_key(), None);

    assert_eq!(t.insert(b"romane", 1).unwrap(), None);
    assert_eq!(t.insert(b"romanus", 2).unwrap(), None);
    assert_eq!(t.insert(b"romulus", 3).unwrap(), None);
    assert_eq!(t.insert(b"rubens", 4).unwrap(), None);
    assert_eq!(t.insert(b"ruber", 5).unwrap(), None);
    assert_eq!(t.insert(b"rubicon", 6).unwrap(), None);
    assert_eq!(t.insert(b"rubicundus", 7).unwrap(), None);
    assert_eq!(t.insert(b"rom", 8).unwrap(), None);
    assert_eq!(t.insert(b"", 9).unwrap(), None);
    assert_eq!(t.insert(b"romane", 10).unwrap(), Some(1));
    assert_eq!(t.size(), 9);
    assert_eq!(t.find(b"romane"), Some(&10));
    assert_eq!(t.find(b"roman"), None);
    assert_eq!(t.find(b"r"), None);
    assert_eq!(t.find(b"rom"), Some(&8));
    assert_eq!(t.find(b"rubicundus"), Some(&7));
    assert_eq!(t.find(b"rubicundus!"), None);
    assert_eq!(t.first_key(), Some(b"".to_vec()));
    assert_eq!(t.last_key(), Some(b"rubicundus".to_vec()));
    assert_eq!(t.key_above(b"", false), Some(b"rom".to_vec()));
    assert_eq!(t.key_above(b"roman", true), Some(b"romane".to_vec()));
    assert_eq!(t.key_above(b"romane", true), Some(b"romane".to_vec()));
    assert_eq!(t.key_above(b"romane", false), Some(b"romanus".to_vec()));
    assert_eq!(t.key_above(b"romz", false), Some(b"rubens".to_vec()));
    assert_eq!(t.key_above(b"rubicundus", false), None);
    assert_eq!(t.key_above(b"s", true), None);
    assert_eq!(t.key_below(b"rubens", false), Some(b"romulus".to_vec()));
    assert_eq!(t.key_below(b"rubens", true), Some(b"rubens".to_vec()));
    assert_eq!(t.key_below(b"roma", true), Some(b"rom".to_vec()));
    assert_eq!(t.key_below(b"rom", false), Some(b"".to_vec()));
    assert_eq!(t.key_below(b"", false), None);
    assert_eq!(t.key_below(b"", true), Some(b"".to_vec()));
    assert_eq!(t.key_below(b"zzz", false), Some(b"rubicundus".to_vec()));
    assert_eq!(t.key_below(b"a", false), Some(b"".to_vec()));

    assert_eq!(t.remove(b"rom"), Some(8));
    assert_eq!(t.remove(b"rom"), None);
    assert_eq!(t.remove(b"romanus"), Some(2));
    assert_eq!(t.find(b"romane"), Some(&10));
    assert_eq!(t.find(b"romulus"), Some(&3));
    assert_eq!(t.remove(b"romane"), Some(10));
    assert_eq!(t.find(b"romulus"), Some(&3));
    assert_eq!(t.remove(b""), Some(9));
    assert_eq!(t.first_key(), Some(b"romulus".to_vec()));
    assert_eq!(t.size(), 5);
    for k in [&b"romulus"[..], b"rubens", b"ruber", b"rubicon", b"rubicundus"] {
        assert!(t.remove(k).is_some());
    }
    assert_eq!(t.size(), 0);
    assert_eq!(t.first_key(), None);
    assert_eq!(t.insert(b"again", 1).unwrap(), None);
    assert_eq!(t.find(b"again"), Some(&1));
}

#[test]
fn keys_that_are_prefixes_of_each_other() {
    let mut t = rax::<u32>::new();
    let key = vec![b'a'; 20000];
    for i in 0..20000 {
        t.insert(&key[..i], i as u32).unwrap();
    }
    assert_eq!(t.size(), 20000);
    assert_eq!(t.find(&key[..19999]), Some(&19999));
    assert_eq!(t.last_key().unwrap().len(), 19999);
    assert_eq!(t.key_below(&key[..19999], false).unwrap().len(), 19998);
    assert_eq!(t.key_above(&key[..5], false).unwrap().len(), 6);
    for i in (0..20000).rev().step_by(2) {
        assert_eq!(t.remove(&key[..i]), Some(i as u32));
    }
    assert_eq!(t.size(), 10000);
    assert_eq!(t.first_key().unwrap().len(), 0);
    assert_eq!(t.key_above(&[], false).unwrap().len(), 2);
}

#[test]
fn a_cursor_by_itself() {
    let mut t = rax::<u32>::new();
    for (i, k) in [&b"b"[..], b"a", b"c"].iter().enumerate() {
        t.insert(k, i as u32).unwrap();
    }
    let mut it = raxIterator::new();
    assert!(it.is_eof());
    assert!(!it.next(&t));
    assert!(it.seek(&t, SeekOp::First, b""));
    assert!(!it.is_eof());
    assert_eq!(it.key_bytes(), b"a");
    assert_eq!(it.data(&t), Some(&1));
    assert!(it.next(&t));
    assert_eq!(it.key_bytes(), b"a");
    t.remove(b"b");
    assert!(it.next(&t));
    assert_eq!(it.key_bytes(), b"c");
    t.remove(b"c");
    assert_eq!(it.data(&t), None);
    assert!(it.prev(&t));
    assert_eq!(it.key_bytes(), b"a");
    assert!(!it.prev(&t));
    assert!(it.is_eof());
}

struct Lcg(u64);

impl Lcg {
    fn next(&mut self) -> u64 {
        self.0 = self.0.wrapping_mul(6364136223846793005).wrapping_add(1442695040888963407);
        self.0 >> 33
    }

    fn key(&mut self) -> Vec<u8> {
        let len = (self.next() % 6) as usize;
        (0..len).map(|_| (self.next() % 3) as u8 + b'a').collect()
    }
}

#[test]
fn a_borrowed_cursor_agrees_with_a_sorted_map() {
    let mut rng = Lcg(7);
    for round in 0..200 {
        let mut r = Rax::<Vec<u8>, u64>::new();
        let mut model: BTreeMap<Vec<u8>, u64> = BTreeMap::new();
        for i in 0..(round % 40) {
            let key = rng.key();
            if rng.next() % 4 == 0 {
                r.insert_null(key.clone()).unwrap();
                model.insert(key, u64::MAX);
            } else {
                r.insert(key.clone(), Box::new(i)).unwrap();
                model.insert(key, i);
            }
        }
        let keys: Vec<Vec<u8>> = model.keys().cloned().collect();
        let mut it = r.iterator();
        let mut walked = Vec::new();
        it.first();
        while it.next() {
            walked.push(it.key().to_vec());
            let held = model[it.key()];
            assert_eq!(it.data().copied(), if held == u64::MAX { None } else { Some(held) });
        }
        assert_eq!(walked, keys);
        let mut walked = Vec::new();
        it.last();
        while it.prev() {
            walked.push(it.key().to_vec());
        }
        walked.reverse();
        assert_eq!(walked, keys);
        if keys.is_empty() {
            continue;
        }
        let mut at = (rng.next() as usize) % keys.len();
        assert!(it.seek("=", &keys[at]));
        assert!(it.next());
        for _ in 0..50 {
            assert_eq!(it.key(), &keys[at][..]);
            if rng.next() % 2 == 0 {
                if at + 1 < keys.len() {
                    assert!(it.next());
                    at += 1;
                } else {
                    assert!(!it.next());
                    assert!(it.seek("$", &[]));
                    assert!(it.prev());
                }
            } else if at > 0 {
                assert!(it.prev());
                at -= 1;
            } else {
                assert!(!it.prev());
                assert!(it.seek("^", &[]));
                assert!(it.next());
            }
        }
        let target = rng.key();
        let after = keys.iter().find(|k| **k > target).cloned();
        assert_eq!(it.seek(">", &target), after.is_some());
        if let Some(k) = after {
            assert_eq!(it.key(), &k[..]);
        }
        let upto = keys.iter().rev().find(|k| **k <= target).cloned();
        assert_eq!(it.seek("<=", &target), upto.is_some());
        if let Some(k) = upto {
            assert!(it.prev());
            assert_eq!(it.key(), &k[..]);
        }
    }
}

#[test]
fn the_tree_agrees_with_a_sorted_map() {
    let mut rng = Lcg(42);
    let mut tree = rax::<u64>::new();
    let mut model: BTreeMap<Vec<u8>, u64> = BTreeMap::new();
    for round in 0..20000u64 {
        let key = rng.key();
        match rng.next() % 5 {
            0 | 1 => {
                assert_eq!(tree.insert(&key, round).unwrap(), model.insert(key.clone(), round));
            }
            2 => {
                assert_eq!(tree.remove(&key), model.remove(&key));
            }
            3 => {
                assert_eq!(tree.find(&key), model.get(&key));
            }
            _ => {
                let after = model
                    .range::<Vec<u8>, _>((
                        std::ops::Bound::Excluded(&key),
                        std::ops::Bound::Unbounded,
                    ))
                    .next()
                    .map(|(k, _)| k.clone());
                assert_eq!(tree.key_above(&key, false), after);
                let from = model.range::<Vec<u8>, _>(&key..).next().map(|(k, _)| k.clone());
                assert_eq!(tree.key_above(&key, true), from);
                let before = model.range::<Vec<u8>, _>(..&key).next_back().map(|(k, _)| k.clone());
                assert_eq!(tree.key_below(&key, false), before);
                let upto = model.range::<Vec<u8>, _>(..=&key).next_back().map(|(k, _)| k.clone());
                assert_eq!(tree.key_below(&key, true), upto);
            }
        }
        assert_eq!(tree.size(), model.len() as u64);
        if round % 997 == 0 {
            assert_eq!(tree.first_key(), model.keys().next().cloned());
            assert_eq!(tree.last_key(), model.keys().next_back().cloned());
            let mut walked = Vec::new();
            let mut it = raxIterator::new();
            it.seek(&tree, SeekOp::First, b"");
            while it.next(&tree) {
                walked.push(it.key_bytes().to_vec());
            }
            assert_eq!(walked, model.keys().cloned().collect::<Vec<_>>());
            let mut walked = Vec::new();
            it.seek(&tree, SeekOp::Last, b"");
            while it.prev(&tree) {
                walked.push(it.key_bytes().to_vec());
            }
            assert_eq!(walked, model.keys().rev().cloned().collect::<Vec<_>>());
        }
    }
}
