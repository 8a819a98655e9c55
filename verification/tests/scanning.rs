//! Cutting ranges, searching chunks and remembering what was found.

use memory_server::chunks::{plan_chunks, plan_ranges, Chunk, CHUNK_SIZE};
use memory_server::matched::MatchedAddress;
use memory_server::reply::{Body, ContentType, Reply, STATUS_BAD_REQUEST, STATUS_OK};
use memory_server::requests::MemoryScanRequest;
use memory_server::scan::{
    check_places, matches_of_places, matches_of_spans, memory_scan_handler, scan_chunk, ChunkScan,
    FindType, ScanStep,
};
use memory_server::store::{reply_with_results, RecordedChunk, ScanStore, MAX_RESULTS};

fn scan_request(pattern: &str, find_type: &str, data_type: &str, align: usize) -> MemoryScanRequest {
    MemoryScanRequest {
        pattern: pattern.to_string(),
        address_ranges: vec![(0x1000, 0x2000)],
        find_type: find_type.to_string(),
        data_type: data_type.to_string(),
        scan_id: "scan".to_string(),
        align,
        return_as_json: true,
        do_suspend: false,
    }
}

fn found_at(address: usize, value: &str) -> MatchedAddress {
    MatchedAddress { address, value: value.to_string() }
}

fn search(request: &MemoryScanRequest, base: usize, bytes: &[u8]) -> ChunkScan {
    scan_chunk(request, base, Some(&bytes.to_vec())).unwrap()
}

#[test]
fn empty_range_has_no_chunks() {
    assert_eq!(plan_chunks(0x4000, 0x4000), Some(vec![]));
    assert_eq!(plan_chunks(usize::MAX, usize::MAX), Some(vec![]));
}

#[test]
fn ranges_are_cut_at_sixteen_mebibytes() {
    let whole = 16 * 1024 * 1024;
    assert_eq!(CHUNK_SIZE, whole);
    assert_eq!(
        plan_chunks(0x1000, 0x1000 + whole),
        Some(vec![Chunk { start: 0x1000, size: whole }])
    );
    assert_eq!(
        plan_chunks(0x1000, 0x1000 + 2 * whole + 5),
        Some(vec![
            Chunk { start: 0x1000, size: whole },
            Chunk { start: 0x1000 + whole, size: whole },
            Chunk { start: 0x1000 + 2 * whole, size: 5 },
        ])
    );
}

#[test]
fn chunks_cover_a_range_without_gaps() {
    let start = 0x7000_0123;
    let end = start + 3 * CHUNK_SIZE + 77;
    let chunks = plan_chunks(start, end).unwrap();
    let mut at = start;
    for chunk in &chunks {
        assert_eq!(chunk.start, at);
        assert!(chunk.size > 0 && chunk.size <= CHUNK_SIZE);
        at += chunk.size;
    }
    assert_eq!(at, end);
}

#[test]
fn ranges_that_cannot_be_cut_have_no_plan() {
    assert_eq!(plan_chunks(2, 1), None);
    assert_eq!(plan_chunks(0, usize::MAX), None);
    assert_eq!(plan_chunks(usize::MAX - 10, usize::MAX), None);
}

#[test]
fn first_place_is_reported_at_its_own_address() {
    let request = scan_request("deadbeef", "exact", "aob", 1);
    let chunk = search(&request, 0x1000, &[0, 0, 0xde, 0xad, 0xbe, 0xef, 0]);
    assert_eq!(chunk.positions, vec![found_at(0x1002, "deadbeef")]);
    assert_eq!(chunk.found, 1);
    assert!(chunk.snapshot.is_none());
}

#[test]
fn later_places_are_pushed_up_by_earlier_ones() {
    let request = scan_request("01", "exact", "uint8", 1);
    let chunk = search(&request, 0x1000, &[0, 1, 0, 1, 1]);
    assert_eq!(
        chunk.positions,
        vec![
            found_at(0x1000 + 1, "01"),
            found_at(0x1000 + (1 + 1) + 3, "01"),
            found_at(0x1000 + (1 + 1) + (3 + 1) + 4, "01"),
        ]
    );
    assert_eq!(chunk.found, 3);
}

#[test]
fn places_do_not_overlap() {
    let request = scan_request("aaaa", "exact", "aob", 1);
    let chunk = search(&request, 0, &[0xaa, 0xaa, 0xaa, 0xaa, 0xaa]);
    assert_eq!(chunk.positions, vec![found_at(0, "aaaa"), found_at(1 + 2, "aaaa")]);
}

#[test]
fn unaligned_addresses_are_left_out() {
    let request = scan_request("05", "exact", "uint8", 4);
    let chunk = search(&request, 0x1000, &[0, 5, 0, 0, 0]);
    assert_eq!(chunk.positions, vec![]);
    assert_eq!(chunk.found, 0);
    let chunk = search(&request, 0x1000, &[0, 0, 0, 0, 5]);
    assert_eq!(chunk.positions, vec![found_at(0x1004, "05")]);
}

#[test]
fn pattern_is_kept_as_it_was_written() {
    let request = scan_request("aBCd", "exact", "aob", 1);
    let chunk = search(&request, 0x10, &[0xab, 0xcd]);
    assert_eq!(chunk.positions, vec![found_at(0x10, "aBCd")]);
}

#[test]
fn empty_pattern_stands_everywhere() {
    let request = scan_request("", "exact", "aob", 1);
    let chunk = search(&request, 0, &[7, 7]);
    assert_eq!(chunk.positions, vec![found_at(0, ""), found_at(1 + 1, ""), found_at(1 + 2 + 2, "")]);
}

#[test]
fn pattern_that_is_not_hexadecimal_matches_nothing() {
    for pattern in ["0", "zz", "0g", "0x", " 00"] {
        let chunk = search(&scan_request(pattern, "exact", "aob", 1), 0, &[0, 0, 0]);
        assert_eq!(chunk.positions, vec![]);
        assert_eq!(chunk.found, 0);
    }
}

#[test]
fn no_alignment_is_an_answer_only_without_places() {
    let request = scan_request("ff", "exact", "aob", 0);
    assert!(scan_chunk(&request, 0, Some(&vec![0xff])).is_none());
    assert_eq!(search(&request, 0, &[0]).found, 0);
    let request = scan_request("a", "exact", "regex", 0);
    assert!(scan_chunk(&request, 0, Some(&b"a".to_vec())).is_none());
    assert_eq!(search(&request, 0, b"b").found, 0);
}

#[test]
fn addresses_beyond_the_address_space_have_no_answer() {
    let request = scan_request("01", "exact", "aob", 1);
    assert!(scan_chunk(&request, usize::MAX - 3, Some(&vec![1, 0, 1])).is_some());
    assert!(scan_chunk(&request, usize::MAX - 2, Some(&vec![1, 0])).is_some());
    assert!(scan_chunk(&request, usize::MAX - 2, Some(&vec![0, 1])).is_some());
    assert!(scan_chunk(&request, usize::MAX - 3, Some(&vec![0, 1, 1])).is_none());
}

#[test]
fn countable_places_are_told_from_others() {
    assert!(check_places(0, &vec![]));
    assert!(check_places(usize::MAX - 5, &vec![5]));
    assert!(!check_places(usize::MAX - 5, &vec![6]));
    assert!(!check_places(0, &vec![usize::MAX]));
    assert!(!check_places(0, &vec![3, usize::MAX - 4]));
    assert!(check_places(0, &vec![3, usize::MAX - 5]));
}

#[test]
fn places_become_matches_at_drifting_addresses() {
    let places = vec![0, 1, 10];
    assert_eq!(
        matches_of_places(100, 1, &places, &"aa".to_string()),
        vec![found_at(100, "aa"), found_at(102, "aa"), found_at(113, "aa")]
    );
    assert_eq!(
        matches_of_places(100, 2, &places, &"aa".to_string()),
        vec![found_at(100, "aa"), found_at(102, "aa")]
    );
}

#[test]
fn spans_become_matches_with_their_bytes() {
    let buffer = b"xxabcd".to_vec();
    assert_eq!(
        matches_of_spans(0x20, 2, &buffer, &vec![(2, 4), (3, 5), (4, 6)]),
        vec![found_at(0x22, "6162"), found_at(0x24, "6364")]
    );
}

#[test]
fn regular_expressions_report_true_addresses_and_bytes() {
    let request = scan_request("a+b", "exact", "regex", 1);
    let chunk = search(&request, 0x1000, b"aab.ab.b");
    assert_eq!(chunk.positions, vec![found_at(0x1000, "616162"), found_at(0x1004, "6162")]);
    assert_eq!(chunk.found, 2);
    let aligned = search(&scan_request("a+b", "exact", "regex", 8), 0x1000, b"aab.ab.b");
    assert_eq!(aligned.positions, vec![found_at(0x1000, "616162")]);
}

#[test]
fn regular_expressions_match_raw_bytes() {
    let request = scan_request(r"(?-u)\xff\x00", "exact", "regex", 1);
    let chunk = search(&request, 0, &[0, 0xff, 0, 0xff]);
    assert_eq!(chunk.positions, vec![found_at(1, "ff00")]);
}

#[test]
fn refused_regular_expression_matches_nothing() {
    let chunk = search(&scan_request("(", "exact", "regex", 1), 0, b"((");
    assert_eq!(chunk.positions, vec![]);
    assert_eq!(chunk.found, 0);
}

#[test]
fn unknown_scan_remembers_the_chunk() {
    for (kind, expected) in [
        ("int8", 21),
        ("int16", 10),
        ("uint16", 10),
        ("int32", 5),
        ("float", 5),
        ("int64", 2),
        ("double", 2),
        ("utf-8", 21),
    ] {
        let bytes: Vec<u8> = (0..21).collect();
        let chunk = search(&scan_request("", "unknown", kind, 0), 0x500, &bytes);
        assert_eq!(chunk.positions, vec![]);
        assert_eq!(chunk.found, expected);
        let entry = chunk.snapshot.unwrap();
        assert_eq!(entry.address(), 0x500);
        assert_eq!(entry.len(), 21);
        assert_eq!(entry.data(), bytes);
        assert_eq!(entry.offsets(), Some(vec![]));
    }
}

#[test]
fn other_find_types_find_nothing() {
    let chunk = search(&scan_request("01", "fuzzy", "uint8", 1), 0, &[1, 1]);
    assert_eq!(chunk.found, 0);
    assert!(chunk.snapshot.is_none());
    assert_eq!(FindType::parse(&"Exact".to_string()), FindType::Other);
}

#[test]
fn unread_chunk_gives_nothing() {
    let chunk = scan_chunk(&scan_request("01", "unknown", "uint8", 0), 0, None).unwrap();
    assert_eq!(chunk.positions, vec![]);
    assert_eq!(chunk.found, 0);
    assert!(chunk.snapshot.is_none());
}

#[test]
fn scan_without_process_is_refused_and_changes_nothing() {
    let mut store = ScanStore::new();
    let request = scan_request("01", "exact", "uint8", 1);
    let step = memory_scan_handler(None, &request, &mut store);
    assert_eq!(
        step,
        Some(ScanStep::Answer(Reply {
            status: STATUS_BAD_REQUEST,
            content_type: None,
            body: Body::Text("Pid not set".to_string()),
        }))
    );
    assert!(store.options_of(&"scan".to_string()).is_none());
}

#[test]
fn scan_goes_to_the_chosen_process() {
    let mut store = ScanStore::new();
    let request = scan_request("01", "exact", "uint8", 1);
    assert_eq!(
        memory_scan_handler(Some(42), &request, &mut store),
        Some(ScanStep::Scan {
            pid: 42,
            suspend: false,
            ranges: vec![vec![Chunk { start: 0x1000, size: 0x1000 }]],
        })
    );
    let options = store.options_of(&"scan".to_string()).unwrap();
    assert_eq!(options.pattern, "01");
    assert_eq!(options.address_ranges, vec![(0x1000, 0x2000)]);
    assert!(store.positions_of(&"scan".to_string()).is_none());
    assert!(store.entries_of(&"scan".to_string()).is_none());
}

#[test]
fn finished_scan_lists_its_matches() {
    let mut store = ScanStore::new();
    let request = scan_request("01", "exact", "uint8", 1);
    memory_scan_handler(Some(1), &request, &mut store);
    let id = request.scan_id.clone();
    let first = store.record_chunk(&id, search(&request, 0x1000, &[0, 1]));
    let second = store.record_chunk(&id, search(&request, 0x1800, &[1]));
    let reply = store.finish_scan(&request, vec![first, second]);
    assert_eq!(
        reply,
        Reply {
            status: STATUS_OK,
            content_type: Some(ContentType::Json),
            body: Body::Matches {
                matched_addresses: vec![found_at(0x1001, "01"), found_at(0x1800, "01")],
                found: 2,
                is_rounded: false,
            },
        }
    );
    assert_eq!(store.positions_of(&id).unwrap().len(), 2);
}

#[test]
fn recording_order_does_not_change_what_is_remembered() {
    let request = scan_request("01", "exact", "uint8", 1);
    let id = request.scan_id.clone();
    let many = vec![1u8; 3];
    let mut remembered: Vec<Vec<(usize, String)>> = vec![];
    for order in [[0usize, 1], [1, 0]] {
        let mut store = ScanStore::new();
        store.begin_scan(&request);
        let mut handed: Vec<Option<RecordedChunk>> = vec![None, None];
        for at in order {
            let chunk = search(&request, 0x1000 * (at + 1), &many);
            handed[at] = Some(store.record_chunk(&id, chunk));
        }
        let chunks = handed.into_iter().map(|chunk| chunk.unwrap()).collect();
        store.finish_scan(&request, chunks);
        let list = store.positions_of(&id).unwrap();
        remembered.push(list.iter().map(|m| (m.address, m.value.clone())).collect());
    }
    assert_eq!(remembered[0], remembered[1]);
    assert_eq!(remembered[0].len(), 6);
}

#[test]
fn count_alone_is_answered_where_asked() {
    let mut store = ScanStore::new();
    let mut request = scan_request("", "unknown", "int32", 4);
    request.return_as_json = false;
    store.begin_scan(&request);
    let id = request.scan_id.clone();
    let chunk = store.record_chunk(&id, search(&request, 0, &[0; 64]));
    let reply = store.finish_scan(&request, vec![chunk]);
    assert_eq!(reply.body, Body::Found(16));
    assert_eq!(store.entries_of(&id).unwrap().len(), 1);
    assert_eq!(store.positions_of(&id).unwrap().len(), 0);
}

#[test]
fn chunk_with_too_many_matches_is_remembered_at_once() {
    let mut store = ScanStore::new();
    let request = scan_request(".", "exact", "regex", 1);
    let id = request.scan_id.clone();
    store.begin_scan(&request);
    let many = search(&request, 0x10_0000, &vec![b'a'; MAX_RESULTS + 1]);
    assert_eq!(many.found, MAX_RESULTS + 1);
    let many = store.record_chunk(&id, many);
    assert_eq!(many.positions.len(), 0);
    assert_eq!(many.found, MAX_RESULTS + 1);
    assert_eq!(store.positions_of(&id).unwrap().len(), MAX_RESULTS + 1);
    let few = store.record_chunk(&id, search(&request, 0x100, b"b"));
    assert_eq!(few.positions, vec![found_at(0x100, "62")]);
    let reply = store.finish_scan(&request, vec![few, many]);
    match reply.body {
        Body::Matches { matched_addresses, found, is_rounded } => {
            assert_eq!(matched_addresses.len(), MAX_RESULTS);
            assert_eq!(matched_addresses[0], found_at(0x10_0000, "61"));
            assert_eq!(found, MAX_RESULTS + 2);
            assert!(is_rounded);
        }
        _ => panic!("matches expected"),
    }
    assert_eq!(store.positions_of(&id).unwrap().len(), MAX_RESULTS + 2);
    assert_eq!(store.positions_of(&id).unwrap()[MAX_RESULTS + 1].address, 0x100);
}

#[test]
fn chunk_with_the_most_matches_is_handed_back() {
    let mut store = ScanStore::new();
    let request = scan_request(".", "exact", "regex", 1);
    let id = request.scan_id.clone();
    store.begin_scan(&request);
    let chunk = search(&request, 0, &vec![b'a'; MAX_RESULTS]);
    let chunk = store.record_chunk(&id, chunk);
    assert_eq!(chunk.positions.len(), MAX_RESULTS);
    assert!(store.positions_of(&id).is_none());
    match store.finish_scan(&request, vec![chunk]).body {
        Body::Matches { matched_addresses, is_rounded, .. } => {
            assert_eq!(matched_addresses.len(), MAX_RESULTS);
            assert!(!is_rounded);
        }
        _ => panic!("matches expected"),
    }
}

#[test]
fn new_scan_forgets_its_old_matches_and_no_others() {
    let mut store = ScanStore::new();
    let mine = scan_request("01", "exact", "uint8", 1);
    let mut other = scan_request("01", "exact", "uint8", 1);
    other.scan_id = "other".to_string();
    for request in [&mine, &other] {
        store.begin_scan(request);
        let chunk = store.record_chunk(&request.scan_id, search(request, 0, &[1]));
        store.finish_scan(request, vec![chunk]);
    }
    store.begin_scan(&mine);
    assert_eq!(store.positions_of(&mine.scan_id).unwrap().len(), 0);
    assert_eq!(store.positions_of(&other.scan_id).unwrap().len(), 1);
}

#[test]
fn rounding_is_told_for_many_unknown_values() {
    let none = vec![];
    let rounded = |find, found| match reply_with_results(find, true, &none, found).body {
        Body::Matches { is_rounded, .. } => is_rounded,
        _ => panic!("matches expected"),
    };
    assert!(!rounded(FindType::Unknown, 1_000_000));
    assert!(rounded(FindType::Unknown, 1_000_001));
    assert!(!rounded(FindType::Exact, 1_000_001));
    assert!(!rounded(FindType::Other, 1_000_001));
}

#[test]
fn counts_start_over_behind_the_largest() {
    let mut store = ScanStore::new();
    let mut request = scan_request("", "unknown", "uint8", 1);
    request.return_as_json = false;
    store.begin_scan(&request);
    let chunks = vec![
        RecordedChunk { positions: vec![], found: usize::MAX },
        RecordedChunk { positions: vec![], found: 3 },
    ];
    assert_eq!(store.finish_scan(&request, chunks).body, Body::Found(2));
}

#[test]
fn every_range_is_planned() {
    let ranges = vec![(0x10, 0x10 + CHUNK_SIZE + 1), (5, 5), (0, 3)];
    let planned = plan_ranges(&ranges).unwrap();
    assert_eq!(
        planned,
        vec![
            vec![
                Chunk { start: 0x10, size: CHUNK_SIZE },
                Chunk { start: 0x10 + CHUNK_SIZE, size: 1 },
            ],
            vec![],
            vec![Chunk { start: 0, size: 3 }],
        ]
    );
    assert_eq!(plan_ranges(&vec![]), Some(vec![]));
    assert_eq!(plan_ranges(&vec![(0, 1), (2, 1)]), None);
}

#[test]
fn scan_asks_for_suspension_and_for_all_chunks() {
    let mut store = ScanStore::new();
    let mut request = scan_request("01", "exact", "uint8", 1);
    request.do_suspend = true;
    request.address_ranges = vec![(8, 10), (0, 4)];
    assert_eq!(
        memory_scan_handler(Some(1), &request, &mut store),
        Some(ScanStep::Scan {
            pid: 1,
            suspend: true,
            ranges: vec![
                vec![Chunk { start: 8, size: 2 }],
                vec![Chunk { start: 0, size: 4 }],
            ],
        })
    );
    request.address_ranges = vec![(4, 0)];
    assert_eq!(memory_scan_handler(Some(1), &request, &mut store), None);
}

#[test]
fn matches_of_a_chunk_never_fall_in_address() {
    let bytes = b"a.aa..aaa.b".to_vec();
    for (pattern, kind) in [("a*", "regex"), ("a", "regex"), ("61", "aob"), ("", "aob")] {
        let chunk = search(&scan_request(pattern, "exact", kind, 1), 0x100, &bytes);
        assert!(chunk.found > 1);
        for pair in chunk.positions.windows(2) {
            assert!(pair[0].address <= pair[1].address);
        }
    }
}

#[test]
fn unread_chunk_changes_neither_list_nor_count() {
    let request = scan_request("01", "exact", "uint8", 1);
    let id = request.scan_id.clone();
    let mut replies = vec![];
    for with_unread in [false, true] {
        let mut store = ScanStore::new();
        store.begin_scan(&request);
        let mut recorded = vec![store.record_chunk(&id, search(&request, 0x1000, &[1]))];
        if with_unread {
            let unread = scan_chunk(&request, 0x1400, None).unwrap();
            recorded.push(store.record_chunk(&id, unread));
        }
        recorded.push(store.record_chunk(&id, search(&request, 0x1800, &[0, 1])));
        replies.push(store.finish_scan(&request, recorded));
    }
    assert_eq!(replies[0], replies[1]);
}

#[test]
fn matches_of_regular_expressions_lie_inside_the_chunk() {
    let bytes = b"xx.xxx.x".to_vec();
    for pattern in ["x+", "x*", ".", "$"] {
        let chunk = search(&scan_request(pattern, "exact", "regex", 1), 0x200, &bytes);
        assert!(chunk.found > 0);
        for m in &chunk.positions {
            assert!(0x200 <= m.address);
            assert!(m.address + m.value.len() / 2 <= 0x200 + bytes.len());
        }
    }
}
