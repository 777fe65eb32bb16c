use mdfs::mdfs::{Mdfs, Step};
use mdfs::words::{words_pair_combinations, WordSlot, WordVariant};
use roaring::RoaringBitmap;
use std::cell::Cell;

fn bitmap(ids: &[u32]) -> RoaringBitmap {
    let mut b = RoaringBitmap::new();
    for &id in ids {
        b.insert(id);
    }
    b
}

fn slot(variants: &[(&str, &[u32])]) -> WordSlot {
    let mut all = RoaringBitmap::new();
    let mut vs = Vec::new();
    for (word, ids) in variants {
        let docids = bitmap(ids);
        all |= &docids;
        vs.push(WordVariant { word: word.to_string(), typos: 0, docids });
    }
    WordSlot { variants: vs, docids: all }
}

/// Runs the step machine to the next batch, looking pairs up in `store`.
fn next_batch<F>(m: &mut Mdfs, store: &F) -> Result<Option<RoaringBitmap>, String>
where
    F: Fn(&str, &str, u8) -> Result<Option<RoaringBitmap>, String>,
{
    loop {
        match m.next_step() {
            Step::Batch(b) => return Ok(Some(b)),
            Step::Exhausted => return Ok(None),
            Step::Searching => {}
            Step::Lookup { pair, proximity } => {
                let mut found = Vec::new();
                for (w1, w2) in m.lookup_pairs(pair) {
                    found.push(store(w1, w2, proximity)?);
                }
                m.provide_lookups(pair, proximity, found);
            }
        }
    }
}

fn ids(b: &RoaringBitmap) -> Vec<u32> {
    b.iter().collect()
}

#[test]
fn two_slots_two_proximities() {
    let words = vec![slot(&[("hello", &[5, 9])]), slot(&[("world", &[5, 9])])];
    let store = |w1: &str, w2: &str, p: u8| -> Result<Option<RoaringBitmap>, String> {
        assert_eq!((w1, w2), ("hello", "world"));
        Ok(match p {
            2 => Some(bitmap(&[5])),
            3 => Some(bitmap(&[9])),
            _ => None,
        })
    };
    let mut m = Mdfs::new(words, bitmap(&[5, 9]));
    assert_eq!(m.mana(), 1);
    let first = next_batch(&mut m, &store).unwrap().unwrap();
    assert_eq!(ids(&first), vec![5]);
    assert_eq!(m.mana(), 3);
    let second = next_batch(&mut m, &store).unwrap().unwrap();
    assert_eq!(ids(&second), vec![9]);
    assert_eq!(m.mana(), 4);
    assert_eq!(next_batch(&mut m, &store).unwrap(), None);
    assert!(m.candidates().is_empty());
}

#[test]
fn only_unconstrained_pairs_match() {
    let words = vec![
        slot(&[("a", &[1, 2, 3])]),
        slot(&[("b", &[1, 2, 3])]),
        slot(&[("c", &[1, 2, 3])]),
    ];
    let store = |_: &str, _: &str, _: u8| -> Result<Option<RoaringBitmap>, String> { Ok(None) };
    let mut m = Mdfs::new(words, bitmap(&[1, 2, 3]));
    assert_eq!(m.mana(), 2);
    let batch = next_batch(&mut m, &store).unwrap().unwrap();
    assert_eq!(ids(&batch), vec![1, 2, 3]);
    // Found at mana 16, the next search starts at 17.
    assert_eq!(m.mana(), 17);
    assert_eq!(next_batch(&mut m, &store).unwrap(), None);
    assert!(m.candidates().is_empty());
}

#[test]
fn store_failure_aborts_the_batch() {
    let words = vec![
        slot(&[("a", &[1, 2])]),
        slot(&[("b", &[1, 2])]),
        slot(&[("c", &[1, 2])]),
    ];
    let calls = Cell::new(0u32);
    let store = |_: &str, _: &str, _: u8| -> Result<Option<RoaringBitmap>, String> {
        calls.set(calls.get() + 1);
        if calls.get() == 2 {
            Err("store unreadable".to_string())
        } else {
            Ok(Some(bitmap(&[1, 2])))
        }
    };
    let mut m = Mdfs::new(words, bitmap(&[1, 2]));
    assert_eq!(next_batch(&mut m, &store), Err("store unreadable".to_string()));
    assert_eq!(calls.get(), 2);
    assert_eq!(ids(m.candidates()), vec![1, 2]);
}

#[test]
fn single_slot_hands_out_all_candidates_once() {
    let store = |_: &str, _: &str, _: u8| -> Result<Option<RoaringBitmap>, String> {
        panic!("no pair to look up")
    };
    let mut m = Mdfs::new(vec![slot(&[("alone", &[4, 7])])], bitmap(&[4, 7, 8]));
    let batch = next_batch(&mut m, &store).unwrap().unwrap();
    assert_eq!(ids(&batch), vec![4, 7, 8]);
    assert_eq!(next_batch(&mut m, &store).unwrap(), None);
    assert_eq!(next_batch(&mut m, &store).unwrap(), None);
}

#[test]
fn no_slot_and_no_candidate_is_exhausted() {
    let store = |_: &str, _: &str, _: u8| -> Result<Option<RoaringBitmap>, String> { Ok(None) };
    let mut m = Mdfs::new(Vec::new(), RoaringBitmap::new());
    assert_eq!(next_batch(&mut m, &store).unwrap(), None);
    let mut m = Mdfs::new(Vec::new(), bitmap(&[3]));
    assert_eq!(ids(&next_batch(&mut m, &store).unwrap().unwrap()), vec![3]);
    assert_eq!(next_batch(&mut m, &store).unwrap(), None);
}

#[test]
fn pruning_drops_disjoint_pairs() {
    let w1 = slot(&[("cat", &[1, 2]), ("cut", &[3])]);
    let w2 = slot(&[("sat", &[2]), ("set", &[3, 4]), ("sit", &[9])]);
    let pairs = words_pair_combinations(&w1, &w2);
    assert_eq!(pairs, vec![("cat", "sat"), ("cut", "set")]);
    let empty = slot(&[]);
    assert!(words_pair_combinations(&w1, &empty).is_empty());
}

#[test]
fn lookups_of_several_pairs_are_united() {
    let words = vec![
        slot(&[("new", &[1, 2]), ("now", &[3])]),
        slot(&[("york", &[1, 2, 3])]),
    ];
    let store = |w1: &str, _: &str, p: u8| -> Result<Option<RoaringBitmap>, String> {
        Ok(match (w1, p) {
            ("new", 1) => Some(bitmap(&[1])),
            ("now", 1) => Some(bitmap(&[3])),
            ("new", 4) => Some(bitmap(&[2])),
            _ => None,
        })
    };
    let mut m = Mdfs::new(words, bitmap(&[1, 2, 3, 10]));
    assert_eq!(ids(&next_batch(&mut m, &store).unwrap().unwrap()), vec![1, 3]);
    assert_eq!(ids(&next_batch(&mut m, &store).unwrap().unwrap()), vec![2]);
    // Document 10 holds no pair: it comes only when the pair is unconstrained.
    assert_eq!(ids(&next_batch(&mut m, &store).unwrap().unwrap()), vec![10]);
    assert_eq!(next_batch(&mut m, &store).unwrap(), None);
}

#[test]
fn batches_partition_the_candidates_in_rising_mana() {
    let words = vec![
        slot(&[("a", &[1, 2, 3, 4, 5, 6])]),
        slot(&[("b", &[1, 2, 3, 4, 5, 6])]),
        slot(&[("c", &[1, 2, 3, 4, 5, 6])]),
    ];
    let store = |w1: &str, _: &str, p: u8| -> Result<Option<RoaringBitmap>, String> {
        Ok(match (w1, p) {
            ("a", 1) => Some(bitmap(&[1, 2, 3])),
            ("b", 1) => Some(bitmap(&[2, 4])),
            ("a", 2) => Some(bitmap(&[4, 5])),
            ("b", 3) => Some(bitmap(&[1, 5])),
            _ => None,
        })
    };
    let initial = bitmap(&[1, 2, 3, 4, 5, 6, 7]);
    let mut m = Mdfs::new(words, initial.clone());
    let mut seen = RoaringBitmap::new();
    let mut last_mana = 0;
    let mut batches = Vec::new();
    while let Some(b) = next_batch(&mut m, &store).unwrap() {
        assert!(!b.is_empty());
        assert!(b.is_disjoint(&seen));
        assert!(b.is_disjoint(m.candidates()));
        assert!(m.mana() > last_mana);
        last_mana = m.mana();
        seen |= &b;
        batches.push(ids(&b));
    }
    seen |= m.candidates();
    assert_eq!(seen, initial);
    assert_eq!(batches, vec![vec![2], vec![4], vec![1], vec![5], vec![3], vec![6, 7]]);
}
