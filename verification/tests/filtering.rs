//! Filtering remembered chunks and remembered matches.

use memory_server::chunks::Chunk;
use memory_server::filter::{
    filter_chunk, finish_chunk_filter, finish_value_filter, judge_value, memory_filter_handler,
    FilterStep, ValueRead, Verdict,
};
use memory_server::matched::MatchedAddress;
use memory_server::order::sort_by_address;
use memory_server::relation::FilterMethod;
use memory_server::reply::{Body, Reply, STATUS_BAD_REQUEST};
use memory_server::requests::{MemoryFilterRequest, MemoryScanRequest};
use memory_server::snapshot::MemoryEntry;
use memory_server::store::{ScanStore, LISTING_LIMIT};

fn options(id: &str, find_type: &str, align: usize) -> MemoryScanRequest {
    MemoryScanRequest {
        pattern: String::new(),
        address_ranges: vec![],
        find_type: find_type.to_string(),
        data_type: "uint8".to_string(),
        scan_id: id.to_string(),
        align,
        return_as_json: true,
        do_suspend: false,
    }
}

fn filter(pattern: &str, data_type: &str, method: &str) -> MemoryFilterRequest {
    MemoryFilterRequest {
        pattern: pattern.to_string(),
        data_type: data_type.to_string(),
        scan_id: "scan".to_string(),
        filter_method: method.to_string(),
        return_as_json: true,
        do_suspend: false,
    }
}

fn hit(address: usize, value: &str) -> MatchedAddress {
    MatchedAddress { address, value: value.to_string() }
}

fn refusal(message: &str) -> Reply {
    Reply {
        status: STATUS_BAD_REQUEST,
        content_type: None,
        body: Body::Text(message.to_string()),
    }
}

fn verdict(data_type: &str, method: &str, old: &str, new: &[u8]) -> Option<bool> {
    let request = filter("", data_type, method);
    match judge_value(&request, &hit(0x10, old), Some(&new.to_vec())) {
        Some(Verdict::Keep(_)) => Some(true),
        Some(Verdict::Drop) => Some(false),
        Some(Verdict::InvalidHex) => panic!("hexadecimal value refused"),
        None => None,
    }
}

/// What the four methods say of a value, in the order changed, unchanged, increased, decreased.
fn methods(data_type: &str, old: &str, new: &[u8]) -> Vec<bool> {
    ["changed", "unchanged", "increased", "decreased"]
        .iter()
        .map(|method| verdict(data_type, method, old, new).unwrap())
        .collect()
}

const SAME: [bool; 4] = [false, true, false, false];
const ROSE: [bool; 4] = [true, false, true, false];
const FELL: [bool; 4] = [true, false, false, true];
const DIFFERS: [bool; 4] = [true, false, false, false];
const NOTHING: [bool; 4] = [false, false, false, false];

#[test]
fn captured_chunk_gives_its_bytes_back() {
    let bytes: Vec<u8> = (0..5000u32).map(|i| (i * i % 251) as u8).collect();
    let entry = MemoryEntry::capture(0x7000, &bytes);
    assert_eq!(entry.address(), 0x7000);
    assert_eq!(entry.len(), 5000);
    assert_eq!(entry.data(), bytes);
    assert_eq!(entry.offsets(), Some(vec![]));
    let empty = MemoryEntry::capture(0x7000, &vec![]);
    assert_eq!(empty.len(), 0);
    assert_eq!(empty.data(), vec![]);
}

#[test]
fn first_filter_looks_at_every_aligned_offset() {
    let entry = MemoryEntry::capture(0x1002, &vec![1, 2, 3, 4, 5, 6, 7, 8, 9]);
    let (entry, found) = entry
        .refilter(Some(&vec![1, 2, 3, 4, 5, 6, 7, 8, 9]), 4, 2, FilterMethod::Unchanged)
        .unwrap();
    assert_eq!(found, 2);
    assert_eq!(entry.offsets(), Some(vec![2, 6]));
    assert_eq!(
        entry.matches(2).unwrap(),
        vec![hit(0x1004, "0304"), hit(0x1008, "0708")]
    );
}

#[test]
fn later_filters_look_at_survivors_only() {
    let entry = MemoryEntry::capture(0, &vec![10, 10, 10, 10]);
    let (entry, found) =
        entry.refilter(Some(&vec![11, 10, 12, 9]), 1, 1, FilterMethod::Increased).unwrap();
    assert_eq!(found, 2);
    assert_eq!(entry.offsets(), Some(vec![0, 2]));
    assert_eq!(entry.data(), vec![11, 10, 12, 9]);
    let (entry, found) =
        entry.refilter(Some(&vec![11, 99, 13, 99]), 1, 1, FilterMethod::Unchanged).unwrap();
    assert_eq!(found, 1);
    assert_eq!(entry.offsets(), Some(vec![0]));
    assert_eq!(entry.matches(1).unwrap(), vec![hit(0, "0b")]);
    let (entry, found) =
        entry.refilter(Some(&vec![5, 5, 5, 5]), 1, 1, FilterMethod::Increased).unwrap();
    assert_eq!(found, 0);
    assert_eq!(entry.offsets(), Some(vec![]));
    let (entry, found) =
        entry.refilter(Some(&vec![6, 6, 6, 6]), 1, 1, FilterMethod::Increased).unwrap();
    assert_eq!(found, 0);
    assert_eq!(entry.matches(1).unwrap(), vec![]);
}

#[test]
fn remembered_chunks_compare_byte_by_byte_from_the_front() {
    let old = vec![0x00, 0x02];
    let new = vec![0x01, 0x01];
    for (method, found) in [
        (FilterMethod::Increased, 1),
        (FilterMethod::Decreased, 0),
        (FilterMethod::Changed, 1),
        (FilterMethod::Unchanged, 0),
        (FilterMethod::Exact, 0),
        (FilterMethod::Other, 0),
    ] {
        let entry = MemoryEntry::capture(0, &old);
        assert_eq!(entry.refilter(Some(&new), 1, 2, method).unwrap().1, found);
    }
}

#[test]
fn changed_and_unchanged_share_out_all_offsets() {
    let old: Vec<u8> = (0..64).collect();
    let mut new = old.clone();
    new[5] = 200;
    new[40] = 0;
    let changed = MemoryEntry::capture(0, &old)
        .refilter(Some(&new), 1, 1, FilterMethod::Changed)
        .unwrap();
    let unchanged = MemoryEntry::capture(0, &old)
        .refilter(Some(&new), 1, 1, FilterMethod::Unchanged)
        .unwrap();
    assert_eq!(changed.0.offsets(), Some(vec![5, 40]));
    assert_eq!(changed.1 + unchanged.1, 64);
}

#[test]
fn quiet_memory_stays_unchanged() {
    let data: Vec<u8> = (0..100).map(|i| i * 3 % 7).collect();
    let mut entry = MemoryEntry::capture(0x40, &data);
    for _ in 0..3 {
        let (next, found) = entry.refilter(Some(&data), 4, 4, FilterMethod::Unchanged).unwrap();
        assert_eq!(found, 25);
        entry = next;
    }
    let (_, found) = entry.refilter(Some(&data), 4, 4, FilterMethod::Changed).unwrap();
    assert_eq!(found, 0);
}

#[test]
fn unread_chunk_stays_as_it_is() {
    let entry = MemoryEntry::capture(0x10, &vec![1, 2]);
    let (entry, found) = entry.refilter(None, 0, 1, FilterMethod::Changed).unwrap();
    assert_eq!(found, 0);
    assert_eq!(entry.data(), vec![1, 2]);
    let (entry, found) =
        entry.refilter(Some(&vec![1, 2]), 1, 1, FilterMethod::Unchanged).unwrap();
    assert_eq!(found, 2);
    let (entry, found) = entry.refilter(None, 1, 1, FilterMethod::Changed).unwrap();
    assert_eq!(found, 0);
    assert_eq!(entry.offsets(), Some(vec![0, 1]));
}

#[test]
fn filter_without_alignment_needs_nothing_to_look_at() {
    let entry = MemoryEntry::capture(0x10, &vec![1]);
    assert!(entry.refilter(Some(&vec![1]), 0, 1, FilterMethod::Changed).is_none());
    let entry = MemoryEntry::capture(0x10, &vec![]);
    assert!(entry.refilter(Some(&vec![]), 0, 1, FilterMethod::Changed).is_some());
}

#[test]
fn wider_values_need_not_lie_inside_the_chunk() {
    let entry = MemoryEntry::capture(0, &vec![1, 2, 3]);
    let (entry, _) = entry.refilter(Some(&vec![1, 2, 3]), 1, 1, FilterMethod::Unchanged).unwrap();
    assert!(entry.matches(1).is_some());
    assert!(entry.matches(2).is_none());
}

#[test]
fn chunk_filter_takes_kind_and_method_from_the_request() {
    let scan = options("scan", "unknown", 4);
    let entry = MemoryEntry::capture(0, &vec![0, 0, 0, 1, 0, 0, 0, 1]);
    let request = filter("", "int32", "increased");
    let (entry, found) =
        filter_chunk(&request, &scan, entry, Some(&vec![0, 0, 0, 2, 0, 0, 0, 1])).unwrap();
    assert_eq!(found, 1);
    assert_eq!(entry.offsets(), Some(vec![0]));
    let unaligned = options("scan", "unknown", 0);
    let entry = MemoryEntry::capture(0, &vec![0]);
    assert!(filter_chunk(&request, &unaligned, entry, Some(&vec![0])).is_none());
}

#[test]
fn filter_without_process_is_refused() {
    let store = ScanStore::new();
    match memory_filter_handler(None, &filter("", "uint8", "changed"), &store) {
        FilterStep::Answer(reply) => assert_eq!(reply, refusal("Pid not set")),
        _ => panic!("refusal expected"),
    }
}

#[test]
fn filter_of_a_scan_that_holds_nothing_is_refused() {
    let mut store = ScanStore::new();
    store.begin_scan(&options("scan", "exact", 1));
    match memory_filter_handler(Some(1), &filter("", "uint8", "changed"), &store) {
        FilterStep::Answer(reply) => assert_eq!(reply, refusal("Scanid not found")),
        _ => panic!("refusal expected"),
    }
}

#[test]
fn remembered_chunks_come_before_remembered_matches() {
    let mut store = ScanStore::new();
    let id = "scan".to_string();
    store.begin_scan(&options("scan", "unknown", 1));
    store.put_positions(&id, vec![hit(0x30, "0102")]);
    match memory_filter_handler(Some(7), &filter("0a0b0c", "uint8", "changed"), &store) {
        FilterStep::Values { pid, suspend, values } => {
            assert_eq!(pid, 7);
            assert!(!suspend);
            assert_eq!(values, vec![ValueRead { address: 0x30, size: 6, keep: 2 }]);
        }
        _ => panic!("values expected"),
    }
    store.put_entries(&id, vec![MemoryEntry::capture(0x100, &vec![0; 9])]);
    let mut suspending = filter("", "uint8", "changed");
    suspending.do_suspend = true;
    match memory_filter_handler(Some(7), &suspending, &store) {
        FilterStep::Chunks { pid, suspend, chunks } => {
            assert_eq!(pid, 7);
            assert!(suspend);
            assert_eq!(chunks, vec![Chunk { start: 0x100, size: 9 }]);
        }
        _ => panic!("chunks expected"),
    }
    store.put_entries(&id, vec![]);
    match memory_filter_handler(Some(7), &filter("", "uint8", "changed"), &store) {
        FilterStep::Chunks { chunks, .. } => assert_eq!(chunks, vec![]),
        _ => panic!("chunks expected"),
    }
}

#[test]
fn read_values_are_cut_or_filled_up() {
    let read = ValueRead { address: 0, size: 4, keep: 2 };
    assert_eq!(read.settle(vec![1, 2, 3, 4]), vec![1, 2]);
    assert_eq!(read.settle(vec![1]), vec![1, 0]);
    assert_eq!(read.settle(vec![]), vec![0, 0]);
}

#[test]
fn whole_numbers_are_compared_as_numbers() {
    assert_eq!(methods("uint8", "ff", &[0x01]), FELL);
    assert_eq!(methods("int8", "ff", &[0x01]), ROSE);
    assert_eq!(methods("int8", "80", &[0x7f]), ROSE);
    assert_eq!(methods("uint16", "0001", &[0xff, 0x00]), FELL);
    assert_eq!(methods("int16", "0080", &[0xff, 0x7f]), ROSE);
    assert_eq!(methods("uint32", "00000001", &[0xff, 0xff, 0xff, 0x00]), FELL);
    assert_eq!(methods("int32", "ffffffff", &[0, 0, 0, 0]), ROSE);
    assert_eq!(methods("int32", "00000080", &[0xff, 0xff, 0xff, 0x7f]), ROSE);
    assert_eq!(methods("uint64", "0000000000000080", &[0xff; 8]), ROSE);
    assert_eq!(methods("int64", "0000000000000080", &[0xff; 8]), ROSE);
    assert_eq!(methods("int64", "0000000000000000", &[0xff; 8]), FELL);
    assert_eq!(methods("uint16", "0102", &[1, 2]), SAME);
}

#[test]
fn whole_numbers_of_another_width_have_no_answer() {
    assert_eq!(verdict("int16", "changed", "01", &[1, 0]), None);
    assert_eq!(verdict("int16", "changed", "0100", &[1]), None);
    assert_eq!(verdict("uint64", "changed", "01", &[1]), None);
    assert_eq!(verdict("uint8", "changed", "", &[]), None);
}

fn hex_text(bytes: &[u8]) -> String {
    bytes.iter().map(|b| format!("{:02x}", b)).collect()
}

#[test]
fn floating_point_numbers_are_ordered_as_the_machine_orders_them() {
    let numbers = [
        f32::NEG_INFINITY,
        -1.5,
        -1.0e-40,
        -0.0,
        0.0,
        1.0e-45,
        0.1,
        3.0e38,
        f32::INFINITY,
        f32::NAN,
        -f32::NAN,
    ];
    for old in numbers {
        for new in numbers {
            let expected = vec![new != old, new == old, new > old, new < old];
            assert_eq!(methods("float", &hex_text(&old.to_le_bytes()), &new.to_le_bytes()), expected);
            let (old, new) = (old as f64, new as f64);
            assert_eq!(
                methods("double", &hex_text(&old.to_le_bytes()), &new.to_le_bytes()),
                vec![new != old, new == old, new > old, new < old]
            );
        }
    }
}

#[test]
fn floating_point_numbers_need_enough_bytes() {
    assert_eq!(verdict("float", "changed", "000000", &[0; 4]), None);
    assert_eq!(verdict("float", "changed", "00000000", &[0; 3]), None);
    assert_eq!(verdict("double", "changed", "0000000000000000", &[0; 7]), None);
    assert_eq!(methods("float", "0000000001", &[0, 0, 0, 0, 9]), SAME);
}

#[test]
fn text_is_told_apart_and_not_ordered() {
    assert_eq!(methods("utf-8", "6162", b"ab"), SAME);
    assert_eq!(methods("utf-8", "6162", b"ac"), DIFFERS);
    assert_eq!(methods("utf-8", "ff", &[0xfe]), SAME);
    assert_eq!(methods("utf-8", "ff", &[]), SAME);
    assert_eq!(methods("utf-8", "c3a4", "ä".as_bytes()), SAME);
    assert_eq!(methods("utf-16", "61006200", &[0x61, 0, 0x62, 0]), SAME);
    assert_eq!(methods("utf-16", "6100ff", &[0x61, 0, 0]), SAME);
    assert_eq!(methods("utf-16", "6100", &[0, 0x61]), DIFFERS);
    assert_eq!(methods("utf-16", "61006200", &[0x61, 0]), DIFFERS);
    assert_eq!(methods("aob", "0102", &[1, 2]), SAME);
    assert_eq!(methods("aob", "0102", &[1, 3]), DIFFERS);
    assert_eq!(methods("aob", "0102", &[1]), DIFFERS);
}

#[test]
fn unknown_kinds_and_methods_keep_nothing() {
    assert_eq!(methods("int128", "01", &[2]), NOTHING);
    assert_eq!(verdict("uint8", "risen", "01", &[2]), Some(false));
}

#[test]
fn exact_filter_keeps_the_pattern() {
    let request = filter("0A0b", "uint16", "exact");
    assert_eq!(
        judge_value(&request, &hit(0x20, "ffff"), Some(&vec![0x0a, 0x0b])),
        Some(Verdict::Keep(hit(0x20, "0a0b")))
    );
    assert_eq!(
        judge_value(&request, &hit(0x20, "ffff"), Some(&vec![0x0a, 0x0c])),
        Some(Verdict::Drop)
    );
    assert_eq!(
        judge_value(&request, &hit(0x20, "not hex"), Some(&vec![0x0a, 0x0b])),
        Some(Verdict::Keep(hit(0x20, "0a0b")))
    );
}

#[test]
fn kept_match_carries_the_bytes_just_read() {
    let request = filter("", "uint16", "increased");
    assert_eq!(
        judge_value(&request, &hit(0x20, "0100"), Some(&vec![0xfe, 0x01])),
        Some(Verdict::Keep(hit(0x20, "fe01")))
    );
}

#[test]
fn unread_match_goes() {
    let request = filter("zz", "uint16", "exact");
    assert_eq!(judge_value(&request, &hit(1, "0100"), None), Some(Verdict::Drop));
}

#[test]
fn text_that_is_not_hexadecimal_is_refused() {
    let request = filter("0", "uint8", "exact");
    assert_eq!(
        judge_value(&request, &hit(1, "00"), Some(&vec![0])),
        Some(Verdict::InvalidHex)
    );
    let request = filter("00", "uint8", "changed");
    assert_eq!(
        judge_value(&request, &hit(1, "0g"), Some(&vec![0])),
        Some(Verdict::InvalidHex)
    );
}

#[test]
fn regular_expression_filter_keeps_what_matches() {
    let request = filter("b+c", "regex", "decreased");
    assert_eq!(
        judge_value(&request, &hit(9, "zz"), Some(&b"abbc".to_vec())),
        Some(Verdict::Keep(hit(9, "61626263")))
    );
    assert_eq!(judge_value(&request, &hit(9, "zz"), Some(&b"abb".to_vec())), Some(Verdict::Drop));
    let refused = filter("(", "regex", "exact");
    assert_eq!(judge_value(&refused, &hit(9, "zz"), Some(&b"(".to_vec())), Some(Verdict::Drop));
}

#[test]
fn value_filter_replaces_what_is_remembered() {
    let mut store = ScanStore::new();
    let id = "scan".to_string();
    store.begin_scan(&options("scan", "exact", 1));
    store.put_positions(&id, vec![hit(1, "01"), hit(2, "01"), hit(3, "01")]);
    let verdicts = vec![Verdict::Keep(hit(1, "05")), Verdict::Drop, Verdict::Keep(hit(3, "06"))];
    let reply = finish_value_filter(&mut store, &filter("", "uint8", "increased"), verdicts);
    assert_eq!(
        reply.body,
        Body::Matches {
            matched_addresses: vec![hit(1, "05"), hit(3, "06")],
            found: 2,
            is_rounded: false,
        }
    );
    assert_eq!(store.positions_of(&id).unwrap(), &vec![hit(1, "05"), hit(3, "06")]);
}

#[test]
fn refused_value_filter_changes_nothing() {
    let mut store = ScanStore::new();
    let id = "scan".to_string();
    store.begin_scan(&options("scan", "exact", 1));
    store.put_positions(&id, vec![hit(1, "01"), hit(2, "01")]);
    let verdicts = vec![Verdict::Keep(hit(1, "05")), Verdict::InvalidHex];
    let reply = finish_value_filter(&mut store, &filter("z", "uint8", "exact"), verdicts);
    assert_eq!(reply, refusal("Invalid hex pattern"));
    assert_eq!(store.positions_of(&id).unwrap(), &vec![hit(1, "01"), hit(2, "01")]);
}

#[test]
fn few_values_are_listed_by_address_and_chunks_forgotten() {
    let mut store = ScanStore::new();
    let id = "scan".to_string();
    let scan = options("scan", "unknown", 1);
    store.begin_scan(&scan);
    store.put_entries(
        &id,
        vec![
            MemoryEntry::capture(0x2000, &vec![1, 2]),
            MemoryEntry::capture(0x1000, &vec![3, 4]),
            MemoryEntry::capture(0x1800, &vec![5]),
        ],
    );
    let request = filter("", "uint8", "changed");
    let mut results = vec![];
    let reads = [Some(vec![1u8, 9]), Some(vec![8, 7]), None];
    for (entry, read) in store.take_entries(&id).unwrap().into_iter().zip(reads.iter()) {
        results.push(filter_chunk(&request, &scan, entry, read.as_ref()).unwrap());
    }
    let reply = finish_chunk_filter(&mut store, &request, results).unwrap();
    let listed = vec![hit(0x1000, "08"), hit(0x1001, "07"), hit(0x2001, "09")];
    match reply.body {
        Body::Matches { matched_addresses, found, is_rounded } => {
            assert_eq!(matched_addresses, listed);
            assert_eq!(found, 3);
            assert!(!is_rounded);
        }
        _ => panic!("matches expected"),
    }
    assert!(store.entries_of(&id).is_none());
    assert_eq!(store.positions_of(&id).unwrap(), &listed);
}

#[test]
fn many_values_stay_in_their_chunks() {
    let mut store = ScanStore::new();
    let id = "scan".to_string();
    let scan = options("scan", "unknown", 1);
    store.begin_scan(&scan);
    store.put_positions(&id, vec![hit(1, "01")]);
    let data = vec![7u8; LISTING_LIMIT];
    let request = filter("", "uint8", "unchanged");
    let entry = MemoryEntry::capture(0x1000, &data);
    let filtered = filter_chunk(&request, &scan, entry, Some(&data)).unwrap();
    let reply = finish_chunk_filter(&mut store, &request, vec![filtered]).unwrap();
    assert_eq!(
        reply.body,
        Body::Matches { matched_addresses: vec![], found: LISTING_LIMIT, is_rounded: false }
    );
    assert_eq!(store.entries_of(&id).unwrap().len(), 1);
    assert_eq!(store.positions_of(&id).unwrap(), &vec![]);
}

#[test]
fn values_outside_their_chunks_are_not_listed() {
    let mut store = ScanStore::new();
    let id = "scan".to_string();
    let scan = options("scan", "unknown", 1);
    store.begin_scan(&scan);
    let entry = MemoryEntry::capture(0, &vec![1, 2]);
    let narrow = filter("", "uint8", "unchanged");
    let filtered = filter_chunk(&narrow, &scan, entry, Some(&vec![1, 2])).unwrap();
    let wide = filter("", "uint16", "unchanged");
    assert!(finish_chunk_filter(&mut store, &wide, vec![filtered]).is_none());
    assert_eq!(store.entries_of(&id).unwrap().len(), 1);
}

#[test]
fn matches_are_put_in_the_order_of_their_addresses() {
    let sorted = sort_by_address(vec![
        hit(5, "a"),
        hit(1, "b"),
        hit(5, "c"),
        hit(0, "d"),
        hit(1, "e"),
    ]);
    assert_eq!(
        sorted,
        vec![hit(0, "d"), hit(1, "b"), hit(1, "e"), hit(5, "a"), hit(5, "c")]
    );
    assert_eq!(sort_by_address(vec![]), vec![]);
}
