//! Whole sessions: a scan followed by filters.

use memory_server::chunks::Chunk;
use memory_server::filter::{
    filter_chunk, finish_chunk_filter, finish_value_filter, judge_value, memory_filter_handler,
    FilterStep,
};
use memory_server::matched::MatchedAddress;
use memory_server::reply::Body;
use memory_server::requests::{MemoryFilterRequest, MemoryScanRequest};
use memory_server::scan::{memory_scan_handler, scan_chunk, ScanStep};
use memory_server::store::ScanStore;

/// The memory of an imagined process, from address zero on.
struct Memory {
    bytes: Vec<u8>,
}

impl Memory {
    fn read(&self, start: usize, size: usize) -> Option<Vec<u8>> {
        self.bytes.get(start..start + size).map(|bytes| bytes.to_vec())
    }
}

fn request_for(pattern: &str, find_type: &str, data_type: &str, end: usize) -> MemoryScanRequest {
    MemoryScanRequest {
        pattern: pattern.to_string(),
        address_ranges: vec![(0, end)],
        find_type: find_type.to_string(),
        data_type: data_type.to_string(),
        scan_id: "session".to_string(),
        align: 1,
        return_as_json: true,
        do_suspend: false,
    }
}

fn filter_for(pattern: &str, data_type: &str, method: &str) -> MemoryFilterRequest {
    MemoryFilterRequest {
        pattern: pattern.to_string(),
        data_type: data_type.to_string(),
        scan_id: "session".to_string(),
        filter_method: method.to_string(),
        return_as_json: true,
        do_suspend: false,
    }
}

fn scan_all(store: &mut ScanStore, request: &MemoryScanRequest, memory: &Memory) -> Body {
    let ranges = match memory_scan_handler(Some(1), request, store) {
        Some(ScanStep::Scan { ranges, .. }) => ranges,
        _ => panic!("chunks expected"),
    };
    let mut recorded = vec![];
    for Chunk { start, size } in ranges.into_iter().flatten() {
        let bytes = memory.read(start, size);
        let scanned = scan_chunk(request, start, bytes.as_ref()).unwrap();
        recorded.push(store.record_chunk(&request.scan_id, scanned));
    }
    store.finish_scan(request, recorded).body
}

fn filter_all(store: &mut ScanStore, request: &MemoryFilterRequest, memory: &Memory) -> Body {
    match memory_filter_handler(Some(1), request, store) {
        FilterStep::Answer(reply) => reply.body,
        FilterStep::Chunks { chunks, .. } => {
            let options = store.options_of(&request.scan_id).unwrap().copy();
            let entries = store.take_entries(&request.scan_id).unwrap();
            let results = entries
                .into_iter()
                .zip(chunks)
                .map(|(entry, Chunk { start, size })| {
                    let bytes = memory.read(start, size);
                    filter_chunk(request, &options, entry, bytes.as_ref()).unwrap()
                })
                .collect();
            finish_chunk_filter(store, request, results).unwrap().body
        }
        FilterStep::Values { values, .. } => {
            let positions = store.positions_of(&request.scan_id).unwrap();
            let verdicts = positions
                .iter()
                .zip(values)
                .map(|(m, read)| {
                    let bytes = memory.read(read.address, read.size);
                    let bytes = bytes.map(|bytes| read.settle(bytes));
                    judge_value(request, m, bytes.as_ref()).unwrap()
                })
                .collect();
            finish_value_filter(store, request, verdicts).body
        }
    }
}

fn listed(body: Body) -> Vec<(usize, String)> {
    match body {
        Body::Matches { matched_addresses, found, .. } => {
            assert_eq!(found, matched_addresses.len());
            matched_addresses
                .into_iter()
                .map(|MatchedAddress { address, value }| (address, value))
                .collect()
        }
        _ => panic!("matches expected"),
    }
}

#[test]
fn regular_expression_session_narrows_down() {
    let mut memory = Memory { bytes: b"hp=10;mp=20;hp=30;".to_vec() };
    let mut store = ScanStore::new();
    let found = listed(scan_all(&mut store, &request_for("hp=..", "exact", "regex", 18), &memory));
    assert_eq!(found.len(), 2);
    assert_eq!(found[0], (0, "68703d3130".to_string()));
    assert_eq!(found[1], (12, "68703d3330".to_string()));
    memory.bytes[3] = b'9';
    let kept = listed(filter_all(&mut store, &filter_for("12345", "aob", "changed"), &memory));
    assert_eq!(kept, vec![(0, "68703d3930".to_string())]);
    let kept = listed(filter_all(&mut store, &filter_for("12345", "aob", "changed"), &memory));
    assert_eq!(kept, vec![]);
}

#[test]
fn unknown_session_narrows_down_to_a_list() {
    let mut memory = Memory { bytes: (0..40).collect() };
    let mut store = ScanStore::new();
    let body = scan_all(&mut store, &request_for("", "unknown", "uint8", 40), &memory);
    assert_eq!(
        body,
        Body::Matches { matched_addresses: vec![], found: 40, is_rounded: false }
    );
    memory.bytes[7] = 70;
    memory.bytes[20] = 0;
    let kept = listed(filter_all(&mut store, &filter_for("", "uint8", "changed"), &memory));
    assert_eq!(kept, vec![(7, "46".to_string()), (20, "00".to_string())]);
    memory.bytes[7] = 71;
    let kept = listed(filter_all(&mut store, &filter_for("00", "uint8", "increased"), &memory));
    assert_eq!(kept, vec![(7, "47".to_string())]);
    let kept = listed(filter_all(&mut store, &filter_for("47", "uint8", "exact"), &memory));
    assert_eq!(kept, vec![(7, "47".to_string())]);
}

#[test]
fn session_without_matches_is_still_found() {
    let memory = Memory { bytes: vec![0; 8] };
    let mut store = ScanStore::new();
    let found = listed(scan_all(&mut store, &request_for("ff", "exact", "uint8", 8), &memory));
    assert_eq!(found, vec![]);
    let kept = listed(filter_all(&mut store, &filter_for("zz", "uint8", "exact"), &memory));
    assert_eq!(kept, vec![]);
}

#[test]
fn pattern_of_a_filter_must_be_hexadecimal() {
    let memory = Memory { bytes: vec![9, 9] };
    let mut store = ScanStore::new();
    scan_all(&mut store, &request_for("09", "exact", "uint8", 2), &memory);
    let before = store.positions_of(&"session".to_string()).unwrap().len();
    let refused = filter_all(&mut store, &filter_for("9", "uint8", "exact"), &memory);
    assert_eq!(refused, Body::Text("Invalid hex pattern".to_string()));
    assert_eq!(store.positions_of(&"session".to_string()).unwrap().len(), before);
}

#[test]
fn memory_that_is_gone_is_dropped_from_a_list() {
    let mut memory = Memory { bytes: vec![5, 0, 0, 0] };
    let mut store = ScanStore::new();
    scan_all(&mut store, &request_for("05", "exact", "uint8", 4), &memory);
    memory.bytes.clear();
    let kept = listed(filter_all(&mut store, &filter_for("05", "uint8", "exact"), &memory));
    assert_eq!(kept, vec![]);
}
