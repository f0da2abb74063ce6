use gmab_rust::float_key::{DomainError, FloatKey};
use gmab_rust::sorted_multi_map::SortedMultiMap;

fn key(x: f64) -> FloatKey {
    FloatKey::new(x.to_bits()).unwrap()
}

#[test]
fn test_sorted_multi_map_insert() {
    let mut map = SortedMultiMap::new();
    map.insert(key(1.0), 1);
    map.insert(key(1.0), 2);
    map.insert(key(2.0), 3);

    let entries = map.iter();
    let mut iter = entries.iter();

    assert_eq!(iter.next(), Some(&(key(1.0), 1)));
    assert_eq!(iter.next(), Some(&(key(1.0), 2)));
    assert_eq!(iter.next(), Some(&(key(2.0), 3)));
    assert_eq!(iter.next(), None);
}

#[test]
fn test_sorted_multi_map_delete() {
    let mut map = SortedMultiMap::new();
    map.insert(key(1.0), 1);
    map.insert(key(1.0), 2);
    map.insert(key(2.0), 3);

    assert!(map.delete(&key(1.0), &1));
    assert!(map.delete(&key(2.0), &3));
    assert!(!map.delete(&key(2.0), &3));

    let entries = map.iter();
    let mut iter = entries.iter();

    assert_eq!(iter.next(), Some(&(key(1.0), 2)));
    assert_eq!(iter.next(), None);
}

#[test]
fn delete_of_the_first_of_equal_keys_keeps_the_rest_in_order() {
    let mut map = SortedMultiMap::new();
    map.insert(key(1.0), 1);
    map.insert(key(1.0), 2);
    map.insert(key(2.0), 3);

    assert!(map.delete(&key(1.0), &1));
    assert_eq!(map.iter(), vec![(key(1.0), 2), (key(2.0), 3)]);
    assert!(map.delete(&key(2.0), &3));
    assert!(!map.delete(&key(2.0), &3));
    assert_eq!(map.iter(), vec![(key(1.0), 2)]);
}

#[test]
fn delete_of_an_absent_pair_changes_nothing() {
    let mut map = SortedMultiMap::new();
    map.insert(key(0.5), 7);
    map.insert(key(-3.0), 8);
    let before = map.iter();

    assert!(!map.delete(&key(0.5), &8));
    assert!(!map.delete(&key(4.0), &7));
    assert_eq!(map.iter(), before);
    assert_eq!(map.len(), 2);
}

#[test]
fn inserts_in_any_order_come_out_sorted_and_stable() {
    let inserts = [
        (3.5, 0),
        (-1.0, 1),
        (3.5, 2),
        (0.0, 3),
        (-1.0, 4),
        (f64::INFINITY, 5),
        (3.5, 6),
        (f64::NEG_INFINITY, 7),
        (-0.0, 8),
    ];
    let mut map = SortedMultiMap::new();
    for (x, v) in inserts {
        map.insert(key(x), v);
    }
    let expected = vec![
        (key(f64::NEG_INFINITY), 7),
        (key(-1.0), 1),
        (key(-1.0), 4),
        (key(0.0), 3),
        (key(0.0), 8),
        (key(3.5), 0),
        (key(3.5), 2),
        (key(3.5), 6),
        (key(f64::INFINITY), 5),
    ];
    assert_eq!(map.iter(), expected);
    assert_eq!(map.len(), 9);
}

#[test]
fn first_gives_the_leading_entries() {
    let mut map = SortedMultiMap::new();
    map.insert(key(2.0), 20);
    map.insert(key(1.0), 10);
    map.insert(key(3.0), 30);

    assert_eq!(map.first(0), vec![]);
    assert_eq!(map.first(2), vec![(key(1.0), 10), (key(2.0), 20)]);
    assert_eq!(map.first(5), map.iter());
}

#[test]
fn an_empty_index_yields_nothing() {
    let mut map = SortedMultiMap::new();
    assert_eq!(map.len(), 0);
    assert_eq!(map.iter(), vec![]);
    assert!(!map.delete(&key(1.0), &1));
}

#[test]
fn float_key_orders_as_doubles_do() {
    let values = [
        f64::NEG_INFINITY,
        -1.0e300,
        -1.5,
        -f64::MIN_POSITIVE,
        0.0,
        5.0e-324,
        1.0,
        2.25,
        f64::MAX,
        f64::INFINITY,
    ];
    for i in 0..values.len() {
        for j in 0..values.len() {
            let a = key(values[i]);
            let b = key(values[j]);
            assert_eq!(a.lt(&b), values[i] < values[j]);
            assert_eq!(a.le(&b), values[i] <= values[j]);
            assert_eq!(a == b, values[i] == values[j]);
        }
    }
}

#[test]
fn float_key_holds_both_zeros_as_one() {
    assert_eq!(key(0.0), key(-0.0));
    assert_eq!(key(-0.0).to_bits(), 0.0f64.to_bits());
    assert_eq!(key(0.0), FloatKey::zero());
}

#[test]
fn float_key_gives_the_double_back() {
    for x in [1.0, -1.0, 0.1, -123.456, f64::MAX, f64::MIN, f64::INFINITY, 5.0e-324] {
        assert_eq!(f64::from_bits(key(x).to_bits()), x);
    }
    assert_eq!(key(1.0).to_bits(), 0x3ff0_0000_0000_0000);
    assert_eq!(key(-2.0).to_bits(), 0xc000_0000_0000_0000);
    assert_eq!(FloatKey::max_finite(), key(f64::MAX));
}

#[test]
fn float_key_rejects_nan() {
    assert_eq!(FloatKey::new(f64::NAN.to_bits()), Err(DomainError::NanKey));
    assert_eq!(FloatKey::new(0x7ff0_0000_0000_0001), Err(DomainError::NanKey));
    assert_eq!(FloatKey::new(0xfff8_0000_0000_0000), Err(DomainError::NanKey));
    assert!(FloatKey::new(0x7ff0_0000_0000_0000).is_ok());
    assert!(FloatKey::new(0xfff0_0000_0000_0000).is_ok());
}
