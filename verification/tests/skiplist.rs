//! Skip-list behaviour: ordered iteration, point lookup, predecessor lookup.

use komachi_db::comparator::{Cmp, Comparator, NumberComparator};
use komachi_db::level_generator::RandomLevelGenerator;
use komachi_db::skip_list::SkipList;

fn create_skip_list(max_level: usize) -> SkipList<NumberComparator, RandomLevelGenerator> {
    let level_generator = RandomLevelGenerator::new(max_level, 1, 10);
    SkipList::new(level_generator)
}

fn get_bytes(n: u32) -> Vec<u8> {
    n.to_le_bytes().to_vec()
}

fn get_u32(bytes: &[u8]) -> u32 {
    let mut array = [0u8; 4];
    array.copy_from_slice(bytes);
    u32::from_le_bytes(array)
}

fn generate_data(start: u32, end: u32) -> Vec<(u32, Vec<u8>)> {
    let mut data: Vec<u32> = (start..end).collect();
    // an unverified shuffle is enough to vary the insertion order
    for i in (1..data.len()).rev() {
        let j = (rand::random::<u32>() as usize) % (i + 1);
        data.swap(i, j);
    }
    data.into_iter().map(|k| (k, get_bytes(k))).collect()
}

#[test]
fn random_test_insert() {
    let mut skip_list = create_skip_list(9);

    let data = generate_data(0, 100);
    let mut set_vec: Vec<u32> = data.iter().map(|(key, _)| *key).collect();
    set_vec.sort();

    for (key, value) in data {
        skip_list.insert(get_bytes(key), value);
    }

    let mut iterated: Vec<u32> = Vec::new();
    let mut iter = skip_list.iter();
    while let Some((key, _)) = iter.next() {
        iterated.push(get_u32(key.as_slice()));
    }
    assert_eq!(set_vec, iterated);

    for key in set_vec.iter() {
        let mut visitor = skip_list.visitor();
        visitor.seek(get_bytes(*key).as_slice());
        assert!(visitor.valid());
        assert_eq!(visitor.key().map(|k| get_u32(k.as_slice())), Some(*key));
    }

    for _ in 0..100 {
        let key = loop {
            let result = rand::random::<u32>();
            if !set_vec.contains(&result) {
                break result;
            }
        };
        let mut visitor = skip_list.visitor();
        visitor.seek(get_bytes(key).as_slice());
        assert!(!visitor.valid());
    }
}

#[test]
fn insert_is_idempotent_per_key() {
    let mut skip_list = create_skip_list(9);
    skip_list.insert(get_bytes(7), vec![1]);
    skip_list.insert(get_bytes(7), vec![2]);
    assert_eq!(skip_list.len(), 1);
    // the earlier value wins
    let mut visitor = skip_list.visitor();
    visitor.seek(get_bytes(7).as_slice());
    assert_eq!(visitor.value().map(|v| v.clone()), Some(vec![1]));
}

#[test]
fn seek_less_or_equal_finds_predecessor() {
    let mut skip_list = create_skip_list(9);
    for key in [10u32, 20, 30] {
        skip_list.insert(get_bytes(key), get_bytes(key));
    }
    // an exact hit
    let mut v1 = skip_list.visitor();
    v1.seek_less_or_equal(get_bytes(20).as_slice());
    assert_eq!(v1.key().map(|k| get_u32(k.as_slice())), Some(20));
    // between entries: the largest strictly smaller key
    let mut v2 = skip_list.visitor();
    v2.seek_less_or_equal(get_bytes(25).as_slice());
    assert_eq!(v2.key().map(|k| get_u32(k.as_slice())), Some(20));
    // before the first entry: the visitor rests on the head, with no key
    let mut v3 = skip_list.visitor();
    v3.seek_less_or_equal(get_bytes(5).as_slice());
    assert!(v3.valid());
    assert!(v3.key().is_none());
    // past the last entry
    let mut v4 = skip_list.visitor();
    v4.seek_less_or_equal(get_bytes(99).as_slice());
    assert_eq!(v4.key().map(|k| get_u32(k.as_slice())), Some(30));
}

#[test]
fn empty_list_properties() {
    let skip_list = create_skip_list(9);
    assert!(skip_list.is_empty());
    assert_eq!(skip_list.len(), 0);
    let mut visitor = skip_list.visitor();
    visitor.seek(get_bytes(1).as_slice());
    assert!(!visitor.valid());
}

#[test]
fn memory_usage_grows() {
    let mut skip_list = create_skip_list(9);
    let before = skip_list.memory_usage();
    skip_list.insert(get_bytes(1), vec![0; 100]);
    assert!(skip_list.memory_usage() > before);
}

#[test]
fn number_comparator_orders_numerically() {
    assert_eq!(NumberComparator::compare(&[1, 0, 0, 0], &[2, 0, 0, 0]), Cmp::Less);
    assert_eq!(NumberComparator::compare(&[0, 1, 0, 0], &[255, 0, 0, 0]), Cmp::Greater);
    assert_eq!(NumberComparator::compare(&[5, 0, 0, 0], &[5, 0, 0, 0]), Cmp::Equal);
    // trailing zeros do not change the number; length breaks the tie
    assert_eq!(NumberComparator::compare(&[5], &[5, 0, 0, 0]), Cmp::Less);
    assert_eq!(NumberComparator::compare(&[], &[0, 0]), Cmp::Less);
}

#[test]
fn visitor_steps_forward_in_order() {
    let mut skip_list = create_skip_list(9);
    for key in [3u32, 1, 2] {
        skip_list.insert(get_bytes(key), get_bytes(key));
    }
    let mut visitor = skip_list.visitor();
    visitor.seek(get_bytes(1).as_slice());
    assert_eq!(visitor.key().map(|k| get_u32(k.as_slice())), Some(1));
    visitor.next();
    assert_eq!(visitor.key().map(|k| get_u32(k.as_slice())), Some(2));
    visitor.next();
    assert_eq!(visitor.key().map(|k| get_u32(k.as_slice())), Some(3));
    visitor.next();
    assert!(!visitor.valid());
}
