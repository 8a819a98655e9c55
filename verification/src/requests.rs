//! What clients ask for.

use vstd::prelude::*;

verus! {

/// Choose the process to inspect.
#[derive(Debug)]
pub struct OpenProcess {
    pub pid: i32,
}

/// Read `size` bytes at `address`.
#[derive(Debug)]
pub struct ReadMemoryRequest {
    pub address: usize,
    pub size: usize,
}

/// Write `buffer` at `address`.
#[derive(Debug)]
pub struct WriteMemoryRequest {
    pub address: usize,
    pub buffer: Vec<u8>,
}

/// Search address ranges for a value, or remember them for later filters.
#[derive(Debug)]
pub struct MemoryScanRequest {
    pub pattern: String,
    pub address_ranges: Vec<(usize, usize)>,
    pub find_type: String,
    pub data_type: String,
    pub scan_id: String,
    pub align: usize,
    pub return_as_json: bool,
    pub do_suspend: bool,
}

/// Narrow down what an earlier scan found.
#[derive(Debug)]
pub struct MemoryFilterRequest {
    pub pattern: String,
    pub data_type: String,
    pub scan_id: String,
    pub filter_method: String,
    pub return_as_json: bool,
    pub do_suspend: bool,
}

/// The contents of a scan request.
#[verifier::ext_equal]
pub struct ScanRequestView {
    pub pattern: Seq<char>,
    pub address_ranges: Seq<(usize, usize)>,
    pub find_type: Seq<char>,
    pub data_type: Seq<char>,
    pub scan_id: Seq<char>,
    pub align: usize,
    pub return_as_json: bool,
    pub do_suspend: bool,
}

/// The contents of a filter request.
#[verifier::ext_equal]
pub struct FilterRequestView {
    pub pattern: Seq<char>,
    pub data_type: Seq<char>,
    pub scan_id: Seq<char>,
    pub filter_method: Seq<char>,
    pub return_as_json: bool,
    pub do_suspend: bool,
}

impl View for MemoryScanRequest {
    type V = ScanRequestView;

    open spec fn view(&self) -> ScanRequestView {
        ScanRequestView {
            pattern: self.pattern@,
            address_ranges: self.address_ranges@,
            find_type: self.find_type@,
            data_type: self.data_type@,
            scan_id: self.scan_id@,
            align: self.align,
            return_as_json: self.return_as_json,
            do_suspend: self.do_suspend,
        }
    }
}

impl View for MemoryFilterRequest {
    type V = FilterRequestView;

    open spec fn view(&self) -> FilterRequestView {
        FilterRequestView {
            pattern: self.pattern@,
            data_type: self.data_type@,
            scan_id: self.scan_id@,
            filter_method: self.filter_method@,
            return_as_json: self.return_as_json,
            do_suspend: self.do_suspend,
        }
    }
}

impl MemoryScanRequest {
    /// The same request again.
    pub fn copy(&self) -> (r: MemoryScanRequest)
        ensures
            r@ == self@,
    {
        let mut ranges: Vec<(usize, usize)> = Vec::with_capacity(self.address_ranges.len());
        let mut i: usize = 0;
        while i < self.address_ranges.len()
            invariant
                i <= self.address_ranges.len(),
                ranges@ == self.address_ranges@.take(i as int),
            decreases self.address_ranges.len() - i,
        {
            ranges.push(self.address_ranges[i]);
            i = i + 1;
            assert(ranges@ =~= self.address_ranges@.take(i as int));
        }
        assert(ranges@ =~= self.address_ranges@);
        MemoryScanRequest {
            pattern: self.pattern.clone(),
            address_ranges: ranges,
            find_type: self.find_type.clone(),
            data_type: self.data_type.clone(),
            scan_id: self.scan_id.clone(),
            align: self.align,
            return_as_json: self.return_as_json,
            do_suspend: self.do_suspend,
        }
    }
}

} // verus!
