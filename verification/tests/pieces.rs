//! The small parts that everything else is made of.

use memory_server::bytes::{push_le, read_le};
use memory_server::matched::{copy_prefix, MatchedAddress};
use memory_server::relation::{window_relation, FilterMethod, Relation};
use memory_server::requests::MemoryScanRequest;
use memory_server::table::Table;
use memory_server::text::{push_decimal, spells};
use memory_server::values::{same_bytes, DataType};

#[test]
fn numbers_are_written_lowest_byte_first() {
    let mut out: Vec<u8> = vec![9];
    push_le(&mut out, 0x0102_0304, 4);
    assert_eq!(out, vec![9, 4, 3, 2, 1]);
    push_le(&mut out, 0x1ff, 1);
    assert_eq!(out[5], 0xff);
    push_le(&mut out, 7, 0);
    assert_eq!(out.len(), 6);
}

#[test]
fn written_numbers_are_read_back() {
    for number in [0u64, 1, 255, 256, 0xdead_beef, u64::MAX] {
        let mut out: Vec<u8> = vec![1, 2];
        push_le(&mut out, number, 8);
        assert_eq!(read_le(&out, 2, 8), number);
    }
    assert_eq!(read_le(&[1, 2, 3], 1, 2), 0x0302);
    assert_eq!(read_le(&[1], 1, 0), 0);
}

#[test]
fn windows_are_compared_from_the_front() {
    let old = [0, 1, 2, 3];
    let new = [0, 2, 1, 3];
    assert_eq!(window_relation(&new, &old, 0, 4), Relation::Greater);
    assert_eq!(window_relation(&new, &old, 2, 2), Relation::Less);
    assert_eq!(window_relation(&new, &old, 3, 1), Relation::Equal);
    assert_eq!(window_relation(&new, &old, 4, 0), Relation::Equal);
}

#[test]
fn unordered_values_have_changed_and_nothing_else() {
    let methods = [
        ("changed", true),
        ("unchanged", false),
        ("increased", false),
        ("decreased", false),
        ("exact", false),
        ("Changed", false),
    ];
    for (name, expected) in methods {
        let method = FilterMethod::parse(&name.to_string());
        assert_eq!(method.accepts(Relation::Unordered), expected);
    }
}

#[test]
fn kinds_are_told_by_name_and_have_a_size() {
    let kinds = [
        ("int8", DataType::Int8, 1),
        ("uint8", DataType::Uint8, 1),
        ("int16", DataType::Int16, 2),
        ("uint16", DataType::Uint16, 2),
        ("int32", DataType::Int32, 4),
        ("uint32", DataType::Uint32, 4),
        ("int64", DataType::Int64, 8),
        ("uint64", DataType::Uint64, 8),
        ("float", DataType::Float, 4),
        ("double", DataType::Double, 8),
        ("utf-8", DataType::Utf8, 1),
        ("utf-16", DataType::Utf16, 1),
        ("aob", DataType::Aob, 1),
        ("regex", DataType::Regex, 1),
        ("Int8", DataType::Other, 1),
        ("", DataType::Other, 1),
    ];
    for (name, kind, size) in kinds {
        assert_eq!(DataType::parse(&name.to_string()), kind);
        assert_eq!(kind.size(), size);
    }
}

#[test]
fn bytes_are_the_same_or_not() {
    assert!(same_bytes(&[], &[]));
    assert!(same_bytes(&[1, 2], &[1, 2]));
    assert!(!same_bytes(&[1, 2], &[1, 3]));
    assert!(!same_bytes(&[1], &[1, 2]));
}

#[test]
fn texts_are_spelled_exactly() {
    assert!(spells(&"exact".to_string(), "exact"));
    assert!(!spells(&"Exact".to_string(), "exact"));
    assert!(!spells(&"exact ".to_string(), "exact"));
}

#[test]
fn numbers_are_written_in_decimal() {
    for number in [0, 9, 10, -10, 65536, i32::MAX, i32::MIN] {
        let mut out = "n=".to_string();
        push_decimal(&mut out, number);
        assert_eq!(out, format!("n={}", number));
    }
}

#[test]
fn tables_hold_one_value_per_name() {
    let mut table: Table<u8> = Table::new();
    let (a, b) = ("a".to_string(), "b".to_string());
    assert!(!table.contains(&a));
    assert_eq!(table.get(&a), None);
    assert_eq!(table.take(&a), None);
    table.insert(&a, 1);
    table.insert(&b, 2);
    table.insert(&a, 3);
    assert_eq!(table.get(&a), Some(&3));
    assert_eq!(table.get(&b), Some(&2));
    assert_eq!(table.take(&a), Some(3));
    assert!(!table.contains(&a));
    assert_eq!(table.get(&b), Some(&2));
}

#[test]
fn copies_are_the_same_again() {
    let list = vec![
        MatchedAddress { address: 1, value: "aa".to_string() },
        MatchedAddress { address: 2, value: "bb".to_string() },
    ];
    assert_eq!(list[1].copy(), list[1]);
    assert_eq!(copy_prefix(&list, 1), vec![list[0].copy()]);
    assert_eq!(copy_prefix(&list, 0), vec![]);
    let request = MemoryScanRequest {
        pattern: "p".to_string(),
        address_ranges: vec![(1, 2), (3, 4)],
        find_type: "exact".to_string(),
        data_type: "aob".to_string(),
        scan_id: "s".to_string(),
        align: 5,
        return_as_json: true,
        do_suspend: false,
    };
    assert_eq!(format!("{:?}", request.copy()), format!("{:?}", request));
}
