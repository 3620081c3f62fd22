use keyed_trie::{DecodeError, DuplicatePath, Trie};

type Entry = (Vec<i32>, i32);

fn collect_entries(t: &Trie<i32, i32>) -> Vec<Entry> {
    let mut items = Vec::new();
    let mut it = t.iter();
    while let Some(e) = it.next() {
        items.push(e);
    }
    items
}

fn iter_test_data() -> Trie<i32, i32> {
    let mut t: Trie<i32, i32> = Trie::new(None);
    t.insert(&[1], 1).unwrap();
    t.insert(&[1, 1], 11).unwrap();
    t.insert(&[1, 2], 12).unwrap();
    t.insert(&[1, 2, 1], 121).unwrap();
    t.insert(&[1, 2, 2], 122).unwrap();
    t.insert(&[1, 3, 1, 1, 1], 13111).unwrap();
    t
}

#[test]
fn single_key_value() {
    let mut t: Trie<i32, i32> = Trie::new(None);
    t.insert(&[1, 2, 3], 123).unwrap();
    assert_eq!(t.fetch(&[1, 2, 3]), Some(123));
}

#[test]
fn single_key_value_no_invalid() {
    let mut t: Trie<i32, i32> = Trie::new(None);
    t.insert(&[1, 2, 3], 123).unwrap();
    assert_eq!(t.fetch(&[1, 2, 4]), None);
    assert_eq!(t.fetch(&[1, 2]), None);
    assert_eq!(t.fetch(&[2]), None);
}

#[test]
fn single_key_value_some_root() {
    let mut t: Trie<i32, i32> = Trie::new(Some(0));
    t.insert(&[1, 2, 3], 123).unwrap();
    assert_eq!(t.fetch(&[0, 1, 2, 3]), None);
    assert_eq!(t.fetch(&[1, 2, 3]), Some(123));
}

#[test]
fn iter_order() {
    let t = iter_test_data();
    let items = collect_entries(&t);
    let pos_1 = items.iter().position(|k| k == &(vec![1i32], 1i32)).unwrap();
    let pos_11 = items.iter().position(|k| k == &(vec![1i32, 1], 11i32)).unwrap();
    let pos_12 = items.iter().position(|k| k == &(vec![1i32, 2], 12i32)).unwrap();
    let pos_121 = items.iter().position(|k| k == &(vec![1i32, 2, 1], 121i32)).unwrap();
    let pos_122 = items.iter().position(|k| k == &(vec![1i32, 2, 2], 122i32)).unwrap();
    let pos_13111 = items.iter().position(|k| k == &(vec![1i32, 3, 1, 1, 1], 13111i32)).unwrap();
    assert!(pos_1 == 0);
    assert!(pos_11 > pos_1);
    assert!(pos_12 > pos_1);
    assert!(pos_121 > pos_12);
    assert!(pos_122 > pos_12);
    assert!(pos_13111 > pos_1);
}

#[test]
fn iter_key_order() {
    let t = iter_test_data();
    let mut keys = Vec::new();
    let mut it = t.keys();
    while let Some(k) = it.next() {
        keys.push(k);
    }
    let pos_1 = keys.iter().position(|k| k == &vec![1i32]).unwrap();
    let pos_11 = keys.iter().position(|k| k == &vec![1i32, 1]).unwrap();
    let pos_12 = keys.iter().position(|k| k == &vec![1i32, 2]).unwrap();
    let pos_121 = keys.iter().position(|k| k == &vec![1i32, 2, 1]).unwrap();
    let pos_122 = keys.iter().position(|k| k == &vec![1i32, 2, 2]).unwrap();
    let pos_13111 = keys.iter().position(|k| k == &vec![1i32, 3, 1, 1, 1]).unwrap();
    assert!(pos_1 == 0);
    assert!(pos_11 > pos_1);
    assert!(pos_12 > pos_1);
    assert!(pos_121 > pos_12);
    assert!(pos_122 > pos_12);
    assert!(pos_13111 > pos_1);
}

#[test]
fn iter_value_order() {
    let t = iter_test_data();
    let mut vals = Vec::new();
    let mut it = t.values();
    while let Some(v) = it.next() {
        vals.push(v);
    }
    let pos_1 = vals.iter().position(|v| v == &1i32).unwrap();
    let pos_11 = vals.iter().position(|v| v == &11i32).unwrap();
    let pos_12 = vals.iter().position(|v| v == &12i32).unwrap();
    let pos_121 = vals.iter().position(|v| v == &121i32).unwrap();
    let pos_122 = vals.iter().position(|v| v == &122i32).unwrap();
    let pos_13111 = vals.iter().position(|v| v == &13111i32).unwrap();
    assert!(pos_1 == 0);
    assert!(pos_11 > pos_1);
    assert!(pos_12 > pos_1);
    assert!(pos_121 > pos_12);
    assert!(pos_122 > pos_12);
    assert!(pos_13111 > pos_1);
}

#[test]
fn serialize_none_vs_unit() {
    let mut t: Trie<&str, ()> = Trie::new(None);
    t.insert(&["yes_exist"], ()).unwrap();
    let encoded: Vec<u8> = serde_cbor::to_vec(&t.to_parts()).unwrap();
    let parts: Vec<(Option<()>, Vec<(&str, usize)>)> = serde_cbor::de::from_slice(&encoded).unwrap();
    let out: Trie<&str, ()> = Trie::from_parts(&parts).unwrap();
    assert_eq!(out.fetch(&["yes_exist"]), out.fetch(&["no_exist"]));
}

#[test]
fn serialize_simple() {
    let mut t: Trie<i32, i32> = Trie::new(None);
    t.insert(&[1, 1], 11).unwrap();
    t.insert(&[2, 1, 1], 211).unwrap();
    let encoded: Vec<u8> = serde_cbor::to_vec(&t.to_parts()).unwrap();
    let parts: Vec<(Option<i32>, Vec<(i32, usize)>)> = serde_cbor::de::from_slice(&encoded).unwrap();
    let out: Trie<i32, i32> = Trie::from_parts(&parts).unwrap();
    assert_eq!(out.fetch(&[1, 1]), Some(11));
    assert_eq!(out.fetch(&[2, 1, 1]), Some(211));
}

#[test]
fn scenario_fetch_and_full_walk() {
    let t = iter_test_data();
    assert_eq!(t.fetch(&[1]), Some(1));
    assert_eq!(t.fetch(&[1, 2]), Some(12));
    assert_eq!(t.fetch(&[1, 2, 3]), None);
    assert_eq!(t.fetch(&[1, 3]), None);
    let items = collect_entries(&t);
    assert_eq!(items.len(), 6);
    assert_eq!(items[0], (vec![1], 1));
    let mut sorted = items.clone();
    sorted.sort();
    assert_eq!(
        sorted,
        vec![
            (vec![1], 1),
            (vec![1, 1], 11),
            (vec![1, 2], 12),
            (vec![1, 2, 1], 121),
            (vec![1, 2, 2], 122),
            (vec![1, 3, 1, 1, 1], 13111),
        ]
    );
}

#[test]
fn prefix_entries_come_first() {
    let t = iter_test_data();
    let items = collect_entries(&t);
    for (a, ea) in items.iter().enumerate() {
        for (b, eb) in items.iter().enumerate() {
            if ea.0.len() < eb.0.len() && eb.0.starts_with(&ea.0) {
                assert!(a < b);
            }
        }
    }
}

#[test]
fn duplicate_insert_is_refused() {
    let mut t: Trie<i32, i32> = Trie::new(None);
    assert_eq!(t.insert(&[4, 5], 45), Ok(()));
    assert_eq!(t.insert(&[4, 5], 99), Err(DuplicatePath));
    assert_eq!(t.fetch(&[4, 5]), Some(45));
    assert_eq!(t.insert(&[4], 4), Ok(()));
    assert_eq!(t.fetch(&[4]), Some(4));
}

#[test]
fn duplicate_insert_at_root() {
    let mut t: Trie<i32, i32> = Trie::new(Some(7));
    assert_eq!(t.insert(&[], 8), Err(DuplicatePath));
    assert_eq!(t.fetch(&[]), Some(7));
    let mut u: Trie<i32, i32> = Trie::new(None);
    assert_eq!(u.fetch(&[]), None);
    assert_eq!(u.insert(&[], 8), Ok(()));
    assert_eq!(u.fetch(&[]), Some(8));
}

#[test]
fn empty_trie_walk_ends_and_stays_ended() {
    let t: Trie<i32, i32> = Trie::new(None);
    let mut it = t.iter();
    assert_eq!(it.next(), None);
    assert_eq!(it.next(), None);
    let mut keys = t.keys();
    assert_eq!(keys.next(), None);
    let mut vals = t.values();
    assert_eq!(vals.next(), None);
}

#[test]
fn exhausted_walk_does_not_repeat() {
    let mut t: Trie<i32, i32> = Trie::new(None);
    t.insert(&[3], 3).unwrap();
    let mut it = t.iter();
    assert_eq!(it.next(), Some((vec![3], 3)));
    assert_eq!(it.next(), None);
    assert_eq!(it.next(), None);
}

#[test]
fn root_value_comes_first() {
    let mut t: Trie<i32, i32> = Trie::new(Some(0));
    t.insert(&[9, 9], 99).unwrap();
    let items = collect_entries(&t);
    assert_eq!(items, vec![(vec![], 0), (vec![9, 9], 99)]);
}

#[test]
fn walk_under_given_path() {
    let mut t: Trie<i32, i32> = Trie::new(Some(0));
    t.insert(&[2], 2).unwrap();
    let mut it = t.iter_impl(&[7, 8]);
    assert_eq!(it.next(), Some((vec![7, 8], 0)));
    assert_eq!(it.next(), Some((vec![7, 8, 2], 2)));
    assert_eq!(it.next(), None);
}

#[test]
fn unit_values_are_told_from_absence() {
    let mut t: Trie<&str, ()> = Trie::new(None);
    t.insert(&["x"], ()).unwrap();
    assert_eq!(t.fetch(&["x"]), Some(()));
    assert_eq!(t.fetch(&["nonexistent"]), None);
    assert_ne!(t.fetch(&["x"]), t.fetch(&["nonexistent"]));
}

#[test]
fn unit_values_round_trip_as_absence() {
    let mut t: Trie<&str, ()> = Trie::new(None);
    t.insert(&["x"], ()).unwrap();
    let encoded: Vec<u8> = serde_cbor::to_vec(&t.to_parts()).unwrap();
    let parts: Vec<(Option<()>, Vec<(&str, usize)>)> = serde_cbor::de::from_slice(&encoded).unwrap();
    let out: Trie<&str, ()> = Trie::from_parts(&parts).unwrap();
    assert_eq!(out.fetch(&["x"]), None);
}

#[test]
fn plain_form_of_small_trie() {
    let mut t: Trie<i32, i32> = Trie::new(None);
    t.insert(&[5, 6], 56).unwrap();
    t.insert(&[5], 5).unwrap();
    let parts = t.to_parts();
    assert_eq!(
        parts,
        vec![(None, vec![(5, 1)]), (Some(5), vec![(6, 2)]), (Some(56), vec![])]
    );
}

#[test]
fn round_trip_keeps_every_entry() {
    let t = iter_test_data();
    let parts = t.to_parts();
    let out = Trie::from_parts(&parts).unwrap();
    assert_eq!(out.to_parts(), parts);
    let mut before = collect_entries(&t);
    let mut after = collect_entries(&out);
    before.sort();
    after.sort();
    assert_eq!(before, after);
    assert_eq!(out.fetch(&[1, 3, 1, 1, 1]), Some(13111));
}

#[test]
fn from_parts_rejects_empty() {
    let parts: Vec<(Option<i32>, Vec<(i32, usize)>)> = vec![];
    assert_eq!(Trie::from_parts(&parts).err(), Some(DecodeError));
}

#[test]
fn from_parts_rejects_backward_or_missing_child() {
    let back: Vec<(Option<i32>, Vec<(i32, usize)>)> = vec![(None, vec![(1, 1)]), (Some(1), vec![(2, 0)])];
    assert_eq!(Trie::from_parts(&back).err(), Some(DecodeError));
    let own: Vec<(Option<i32>, Vec<(i32, usize)>)> = vec![(None, vec![(1, 0)])];
    assert_eq!(Trie::from_parts(&own).err(), Some(DecodeError));
    let missing: Vec<(Option<i32>, Vec<(i32, usize)>)> = vec![(None, vec![(1, 5)])];
    assert_eq!(Trie::from_parts(&missing).err(), Some(DecodeError));
}

#[test]
fn from_parts_rejects_repeated_key() {
    let parts: Vec<(Option<i32>, Vec<(i32, usize)>)> =
        vec![(None, vec![(1, 1), (1, 2)]), (Some(1), vec![]), (Some(2), vec![])];
    assert_eq!(Trie::from_parts(&parts).err(), Some(DecodeError));
}

#[test]
fn from_parts_rejects_shared_node() {
    let parts: Vec<(Option<i32>, Vec<(i32, usize)>)> =
        vec![(None, vec![(1, 1), (2, 2)]), (Some(1), vec![(3, 2)]), (Some(2), vec![])];
    assert_eq!(Trie::from_parts(&parts).err(), Some(DecodeError));
}

#[test]
fn from_parts_accepts_unreached_node() {
    let parts: Vec<(Option<i32>, Vec<(i32, usize)>)> = vec![(None, vec![(1, 2)]), (Some(9), vec![]), (Some(2), vec![])];
    let t = Trie::from_parts(&parts).unwrap();
    assert_eq!(t.fetch(&[1]), Some(2));
    assert_eq!(collect_entries(&t), vec![(vec![1], 2)]);
}
