//! Narrowing down what a scan found.

use vstd::prelude::*;
use vstd::utf8::encode_utf8;

use crate::chunks::Chunk;
use crate::hexcode::{decode, encode, hex_decoded, hex_encoded};
use crate::matched::{joined, views, MatchView, MatchedAddress};
use crate::order::{by_address, sort_by_address};
use crate::relation::{filter_method, FilterMethod};
use crate::reply::{no_process, refusal, Reply, ReplyView};
use crate::requests::{FilterRequestView, MemoryFilterRequest, MemoryScanRequest};
use crate::scan::{find_type, FindType};
use crate::search::{any_span, regex_spans};
use crate::snapshot::{EntryView, MemoryEntry};
use crate::store::{
    entry_views, reply_with_results, result_reply, wrapped_total, ScanStore, StoreView,
    LISTING_LIMIT,
};
use crate::values::{data_type, same_bytes, DataType};

verus! {

/// The read that a remembered match asks for: `size` bytes at `address`, of which as many as the
/// remembered value has are kept.
#[derive(Clone, Copy, Debug, PartialEq, Eq, Structural)]
pub struct ValueRead {
    pub address: usize,
    pub size: usize,
    pub keep: usize,
}

/// How many bytes a text takes in UTF-8.
pub open spec fn text_len(text: Seq<char>) -> usize {
    encode_utf8(text).len() as usize
}

/// The read that a remembered match asks for: as many bytes as the pattern has letters, of which
/// one is kept for every two digits of the value.
pub open spec fn value_read(pattern: Seq<char>, m: MatchView) -> ValueRead {
    ValueRead {
        address: m.address,
        size: text_len(pattern),
        keep: (text_len(m.value) / 2) as usize,
    }
}

/// The bytes kept of a read: cut where it gave more, filled up with zeros where it gave less.
pub open spec fn settled(bytes: Seq<u8>, keep: nat) -> Seq<u8> {
    Seq::new(
        keep,
        |i: int|
            if i < bytes.len() {
                bytes[i]
            } else {
                0u8
            },
    )
}

impl ValueRead {
    /// The bytes kept of a read.
    pub fn settle(&self, bytes: Vec<u8>) -> (r: Vec<u8>)
        ensures
            r@ == settled(bytes@, self.keep as nat),
    {
        let mut bytes: Vec<u8> = bytes;
        bytes.resize(self.keep, 0);
        bytes
    }
}

/// What a filter request asks of the service.
pub enum FilterStep {
    /// Answer at once.
    Answer(Reply),
    /// Suspend the process where that is asked for, read these chunks of it, filter each with what
    /// it now holds, and finish.
    Chunks { pid: i32, suspend: bool, chunks: Vec<Chunk> },
    /// Suspend the process where that is asked for, read these values of it, judge each, and
    /// finish.
    Values { pid: i32, suspend: bool, values: Vec<ValueRead> },
}

/// What a filter request asks of the service.
#[verifier::ext_equal]
pub enum FilterStepView {
    Answer(ReplyView),
    Chunks { pid: i32, suspend: bool, chunks: Seq<Chunk> },
    Values { pid: i32, suspend: bool, values: Seq<ValueRead> },
}

impl View for FilterStep {
    type V = FilterStepView;

    open spec fn view(&self) -> FilterStepView {
        match *self {
            FilterStep::Answer(reply) => FilterStepView::Answer(reply@),
            FilterStep::Chunks { pid, suspend, chunks } => FilterStepView::Chunks {
                pid,
                suspend,
                chunks: chunks@,
            },
            FilterStep::Values { pid, suspend, values } => FilterStepView::Values {
                pid,
                suspend,
                values: values@,
            },
        }
    }
}

/// The chunk that a remembered chunk has to be read from again.
pub open spec fn entry_chunk(entry: EntryView) -> Chunk {
    Chunk { start: entry.address, size: entry.data.len() as usize }
}

/// What a filter request asks of the service: nothing without a process; otherwise the remembered
/// chunks are filtered where there are any, and the remembered matches where there are not.
pub open spec fn filter_step(
    pid_state: Option<i32>,
    request: FilterRequestView,
    store: StoreView,
) -> FilterStepView {
    match pid_state {
        None => FilterStepView::Answer(no_process()),
        Some(pid) => if store.memory.contains_key(request.scan_id) {
            FilterStepView::Chunks {
                pid,
                suspend: request.do_suspend,
                chunks: store.memory[request.scan_id].map_values(
                    |entry: EntryView| entry_chunk(entry),
                ),
            }
        } else if store.positions.contains_key(request.scan_id) {
            FilterStepView::Values {
                pid,
                suspend: request.do_suspend,
                values: store.positions[request.scan_id].map_values(
                    |m: MatchView| value_read(request.pattern, m),
                ),
            }
        } else {
            FilterStepView::Answer(refusal("Scanid not found"@))
        },
    }
}

/// Decides what a filter request asks for. The scan that it names must have been begun.
pub fn memory_filter_handler(
    pid_state: Option<i32>,
    filter_request: &MemoryFilterRequest,
    store: &ScanStore,
) -> (r: FilterStep)
    requires
        pid_state is Some ==> store@.options.contains_key(filter_request.scan_id@),
    ensures
        r@ == filter_step(pid_state, filter_request@, store@),
{
    let pid: i32 = match pid_state {
        Some(pid) => pid,
        None => return FilterStep::Answer(Reply::pid_not_set()),
    };
    if let Some(entries) = store.entries_of(&filter_request.scan_id) {
        let mut reads: Vec<Chunk> = Vec::with_capacity(entries.len());
        let mut i: usize = 0;
        while i < entries.len()
            invariant
                i <= entries.len(),
                reads.len() == i,
                forall|k: int|
                    0 <= k < i ==> #[trigger] reads@[k] == entry_chunk(entries@[k]@),
            decreases entries.len() - i,
        {
            reads.push(Chunk { start: entries[i].address(), size: entries[i].len() });
            i = i + 1;
        }
        assert(reads@ =~= entry_views(entries@).map_values(|entry: EntryView| entry_chunk(entry)));
        return FilterStep::Chunks { pid, suspend: filter_request.do_suspend, chunks: reads };
    }
    if let Some(positions) = store.positions_of(&filter_request.scan_id) {
        let size: usize = filter_request.pattern.as_str().len();
        let mut reads: Vec<ValueRead> = Vec::with_capacity(positions.len());
        let mut i: usize = 0;
        while i < positions.len()
            invariant
                i <= positions.len(),
                size == text_len(filter_request.pattern@),
                reads.len() == i,
                forall|k: int|
                    0 <= k < i ==> #[trigger] reads@[k] == value_read(
                        filter_request.pattern@,
                        positions@[k]@,
                    ),
            decreases positions.len() - i,
        {
            let m: &MatchedAddress = &positions[i];
            reads.push(
                ValueRead { address: m.address, size, keep: m.value.as_str().len() / 2 },
            );
            i = i + 1;
        }
        assert(reads@ =~= views(positions@).map_values(
            |m: MatchView| value_read(filter_request.pattern@, m),
        ));
        return FilterStep::Values { pid, suspend: filter_request.do_suspend, values: reads };
    }
    FilterStep::Answer(Reply::refuse("Scanid not found"))
}

/// What becomes of a remembered match.
#[derive(Debug, PartialEq, Eq)]
pub enum Verdict {
    /// It stays, with the value it has now.
    Keep(MatchedAddress),
    /// It goes.
    Drop,
    /// The pattern or the remembered value is not hexadecimal.
    InvalidHex,
}

/// What becomes of a remembered match.
#[verifier::ext_equal]
pub enum VerdictView {
    Keep(MatchView),
    Drop,
    InvalidHex,
}

impl View for Verdict {
    type V = VerdictView;

    open spec fn view(&self) -> VerdictView {
        match *self {
            Verdict::Keep(m) => VerdictView::Keep(m@),
            Verdict::Drop => VerdictView::Drop,
            Verdict::InvalidHex => VerdictView::InvalidHex,
        }
    }
}

/// Keeps the address with the value just read, or lets it go.
pub open spec fn kept_if(keep: bool, address: usize, buffer: Seq<u8>) -> VerdictView {
    if keep {
        VerdictView::Keep(MatchView { address, value: hex_encoded(buffer) })
    } else {
        VerdictView::Drop
    }
}

/// What becomes of a remembered match whose bytes are now `buffer`. There is no answer where the
/// bytes cannot be read as a value of the kind asked for.
pub open spec fn judged(request: FilterRequestView, m: MatchView, buffer: Seq<u8>) -> Option<
    VerdictView,
> {
    let kind = data_type(request.data_type);
    let method = filter_method(request.filter_method);
    if kind == DataType::Regex {
        match regex_spans(request.pattern, buffer) {
            Some(spans) => Some(kept_if(spans.len() > 0, m.address, buffer)),
            None => Some(VerdictView::Drop),
        }
    } else if method == FilterMethod::Exact {
        match hex_decoded(request.pattern) {
            Some(bytes) => Some(kept_if(buffer == bytes, m.address, buffer)),
            None => Some(VerdictView::InvalidHex),
        }
    } else {
        match hex_decoded(m.value) {
            Some(old) => if kind.reads(buffer) && kind.reads(old) {
                Some(kept_if(kind.satisfied(method, buffer, old), m.address, buffer))
            } else {
                None
            },
            None => Some(VerdictView::InvalidHex),
        }
    }
}

/// What becomes of a remembered match; what cannot be read goes.
pub open spec fn judged_if_read(
    request: FilterRequestView,
    m: MatchView,
    buffer: Option<Seq<u8>>,
) -> Option<VerdictView> {
    match buffer {
        Some(bytes) => judged(request, m, bytes),
        None => Some(VerdictView::Drop),
    }
}

/// Keeps the address with the value just read, or lets it go.
fn keep_if(keep: bool, address: usize, buffer: &Vec<u8>) -> (r: Verdict)
    ensures
        r@ == kept_if(keep, address, buffer@),
{
    if keep {
        Verdict::Keep(MatchedAddress { address, value: encode(buffer.as_slice()) })
    } else {
        Verdict::Drop
    }
}

/// Judges a remembered match by the bytes kept of its read, or by none where it could not be read.
pub fn judge_value(
    request: &MemoryFilterRequest,
    m: &MatchedAddress,
    buffer: Option<&Vec<u8>>,
) -> (r: Option<Verdict>)
    ensures
        (match r {
            Some(verdict) => Some(verdict@),
            None => None,
        }) == judged_if_read(
            request@,
            m@,
            match buffer {
                Some(bytes) => Some(bytes@),
                None => None,
            },
        ),
{
    let bytes: &Vec<u8> = match buffer {
        Some(bytes) => bytes,
        None => return Some(Verdict::Drop),
    };
    let kind: DataType = DataType::parse(&request.data_type);
    let method: FilterMethod = FilterMethod::parse(&request.filter_method);
    if kind == DataType::Regex {
        return match any_span(request.pattern.as_str(), bytes.as_slice()) {
            Some(found) => Some(keep_if(found, m.address, bytes)),
            None => Some(Verdict::Drop),
        };
    }
    if method == FilterMethod::Exact {
        return match decode(request.pattern.as_str()) {
            Some(wanted) => {
                let same: bool = same_bytes(bytes.as_slice(), wanted.as_slice());
                Some(keep_if(same, m.address, bytes))
            },
            None => Some(Verdict::InvalidHex),
        };
    }
    match decode(m.value.as_str()) {
        Some(old) => match kind.check(method, bytes.as_slice(), old.as_slice()) {
            Some(keep) => Some(keep_if(keep, m.address, bytes)),
            None => None,
        },
        None => Some(Verdict::InvalidHex),
    }
}

/// The match that a verdict keeps.
pub open spec fn kept_match(verdict: VerdictView) -> Option<MatchView> {
    match verdict {
        VerdictView::Keep(m) => Some(m),
        _ => None,
    }
}

/// The verdicts of a list.
pub open spec fn verdict_views(verdicts: Seq<Verdict>) -> Seq<VerdictView> {
    verdicts.map_values(|verdict: Verdict| verdict@)
}

/// The matches that verdicts keep, in order.
pub open spec fn kept_matches(verdicts: Seq<VerdictView>) -> Seq<MatchView> {
    verdicts.filter_map(|verdict: VerdictView| kept_match(verdict))
}

/// The store after a filter of remembered matches, and the reply.
pub open spec fn value_filter_ended(
    store: StoreView,
    request: FilterRequestView,
    verdicts: Seq<VerdictView>,
) -> (StoreView, ReplyView) {
    if verdicts.contains(VerdictView::InvalidHex) {
        (store, refusal("Invalid hex pattern"@))
    } else {
        let kept = kept_matches(verdicts);
        (
            store.replaced(request.scan_id, kept),
            result_reply(
                find_type(store.options[request.scan_id].find_type),
                request.return_as_json,
                kept,
                kept.len() as usize,
            ),
        )
    }
}

/// Ends a filter of remembered matches. One pattern or value that is not hexadecimal refuses the
/// whole request and changes nothing; otherwise the matches that stay replace those remembered.
#[verifier::loop_isolation(false)]
pub fn finish_value_filter(
    store: &mut ScanStore,
    request: &MemoryFilterRequest,
    verdicts: Vec<Verdict>,
) -> (r: Reply)
    requires
        old(store)@.options.contains_key(request.scan_id@),
    ensures
        (final(store)@, r@) == value_filter_ended(
            old(store)@,
            request@,
            verdict_views(verdicts@),
        ),
{
    let ghost all = verdict_views(verdicts@);
    let ghost before = store@;
    let count: usize = verdicts.len();
    let mut verdicts: Vec<Verdict> = verdicts;
    let mut kept: Vec<MatchedAddress> = Vec::new();
    let mut i: usize = 0;
    assert(all.take(0) =~= Seq::empty());
    assert(views(kept@) =~= kept_matches(all.take(0)));
    while i < count
        invariant
            i <= count == all.len(),
            verdicts.len() == count,
            store@ == before,
            forall|k: int| i <= k < count ==> (#[trigger] verdicts@[k])@ == all[k],
            forall|k: int| 0 <= k < i ==> #[trigger] all[k] != VerdictView::InvalidHex,
            views(kept@) == kept_matches(all.take(i as int)),
        decreases count - i,
    {
        let mut verdict: Verdict = Verdict::Drop;
        std::mem::swap(&mut verdicts[i], &mut verdict);
        assert(verdict@ == all[i as int]);
        assert(all.take(i + 1).drop_last() =~= all.take(i as int));
        let ghost so_far = views(kept@);
        match verdict {
            Verdict::Keep(m) => {
                kept.push(m);
                assert(views(kept@) =~= so_far + seq![m@]);
            },
            Verdict::Drop => {},
            Verdict::InvalidHex => {
                assert(all.contains(VerdictView::InvalidHex));
                return Reply::refuse("Invalid hex pattern");
            },
        }
        i = i + 1;
    }
    assert(all.take(count as int) =~= all);
    let find: FindType = match store.options_of(&request.scan_id) {
        Some(options) => FindType::parse(&options.find_type),
        None => FindType::Other,
    };
    let reply: Reply = reply_with_results(find, request.return_as_json, &kept, kept.len());
    store.put_positions(&request.scan_id, kept);
    reply
}

/// Filters a remembered chunk against what it holds now, with the alignment of its scan. A chunk
/// that could not be read stays as it is. There is no answer where the offsets of the last filter
/// cannot be read again, or where there is an offset to look at but no alignment.
pub fn filter_chunk(
    request: &MemoryFilterRequest,
    options: &MemoryScanRequest,
    entry: MemoryEntry,
    buffer: Option<&Vec<u8>>,
) -> (r: Option<(MemoryEntry, usize)>)
    requires
        buffer matches Some(new) ==> new.len() == entry.spec_len(),
    ensures
        r is None <==> buffer is Some && (!entry@.has_candidates() || (options.align == 0
            && entry@.candidates().len() > 0)),
        r matches Some((filtered, found)) ==> {
            let new = match buffer {
                Some(new) => Some(new@),
                None => None,
            };
            let size = data_type(request.data_type@).spec_size();
            let method = filter_method(request.filter_method@);
            &&& filtered@ == entry@.refiltered(new, options.align, size, method)
            &&& found == entry@.refound(new, options.align, size, method)
        },
{
    let size: usize = DataType::parse(&request.data_type).size();
    let method: FilterMethod = FilterMethod::parse(&request.filter_method);
    entry.refilter(buffer, options.align, size, method)
}

/// The chunks as their filters left them.
pub open spec fn filtered_views(results: Seq<(MemoryEntry, usize)>) -> Seq<EntryView> {
    results.map_values(|result: (MemoryEntry, usize)| result.0@)
}

/// How many values were found in each chunk.
pub open spec fn filtered_counts(results: Seq<(MemoryEntry, usize)>) -> Seq<usize> {
    results.map_values(|result: (MemoryEntry, usize)| result.1)
}

/// The matches of several chunks, in the order of the chunks.
pub open spec fn entry_matches(entries: Seq<EntryView>, size: usize) -> Seq<MatchView> {
    joined(entries.map_values(|entry: EntryView| entry.matches(size)))
}

/// Whether the surviving offsets of all chunks can be read again and their values lie inside the
/// chunks.
pub open spec fn all_fit(entries: Seq<EntryView>, size: usize) -> bool {
    forall|i: int| 0 <= i < entries.len() ==> (#[trigger] entries[i]).fits(size)
}

/// The store after a filter of remembered chunks: where few enough values were found they are
/// listed in the order of their addresses and the chunks are forgotten; otherwise the chunks stay
/// and nothing is listed.
pub open spec fn chunks_filtered(
    store: StoreView,
    id: Seq<char>,
    size: usize,
    entries: Seq<EntryView>,
    found: usize,
) -> StoreView {
    if found < LISTING_LIMIT {
        StoreView {
            positions: store.positions.insert(id, by_address(entry_matches(entries, size))),
            memory: store.memory.remove(id),
            ..store
        }
    } else {
        StoreView {
            positions: store.positions.insert(id, Seq::empty()),
            memory: store.memory.insert(id, entries),
            ..store
        }
    }
}

/// The matches of all chunks in the order of their addresses, where all of them can be read and lie
/// inside their chunks.
fn list_entries(entries: &Vec<MemoryEntry>, size: usize) -> (r: Option<Vec<MatchedAddress>>)
    ensures
        r is Some <==> all_fit(entry_views(entries@), size),
        r matches Some(list) ==> views(list@) == by_address(
            entry_matches(entry_views(entries@), size),
        ),
{
    let ghost all = entry_views(entries@);
    let mut out: Vec<MatchedAddress> = Vec::new();
    let mut i: usize = 0;
    assert(all.take(0) =~= Seq::empty());
    assert(entry_matches(all.take(0), size) =~= Seq::empty()) by {
        assert(all.take(0).map_values(|entry: EntryView| entry.matches(size)) =~= Seq::empty());
    }
    assert(views(out@) =~= entry_matches(all.take(0), size));
    while i < entries.len()
        invariant
            i <= entries.len(),
            all == entry_views(entries@),
            forall|k: int| 0 <= k < i ==> (#[trigger] all[k]).fits(size),
            views(out@) == entry_matches(all.take(i as int), size),
        decreases entries.len() - i,
    {
        assert(all[i as int] == entries@[i as int]@);
        let mut part: Vec<MatchedAddress> = match entries[i].matches(size) {
            Some(part) => part,
            None => return None,
        };
        let ghost so_far = views(out@);
        let ghost more = views(part@);
        proof {
            let lists = all.take(i + 1).map_values(|entry: EntryView| entry.matches(size));
            assert(lists.drop_last() =~= all.take(i as int).map_values(
                |entry: EntryView| entry.matches(size),
            ));
            assert(lists.last() == more);
        }
        out.append(&mut part);
        assert(views(out@) =~= so_far + more);
        i = i + 1;
    }
    assert(all.take(i as int) =~= all);
    Some(sort_by_address(out))
}

/// The store after a filter of remembered chunks, and the reply, where there is one.
pub open spec fn chunk_filter_ended(
    store: StoreView,
    request: FilterRequestView,
    entries: Seq<EntryView>,
    found: usize,
) -> (StoreView, Option<ReplyView>) {
    let size = data_type(request.data_type).spec_size();
    let id = request.scan_id;
    if found < LISTING_LIMIT && !all_fit(entries, size) {
        (StoreView { memory: store.memory.insert(id, entries), ..store }, None)
    } else {
        let after = chunks_filtered(store, id, size, entries, found);
        (
            after,
            Some(
                result_reply(
                    find_type(store.options[id].find_type),
                    request.return_as_json,
                    after.positions[id],
                    found,
                ),
            ),
        )
    }
}

/// Ends a filter of remembered chunks, given each chunk as its filter left it with how many values
/// were found in it. There is no answer where a value to be listed does not lie inside its chunk or
/// its offset cannot be read again; the chunks then stay.
pub fn finish_chunk_filter(
    store: &mut ScanStore,
    request: &MemoryFilterRequest,
    results: Vec<(MemoryEntry, usize)>,
) -> (r: Option<Reply>)
    requires
        old(store)@.options.contains_key(request.scan_id@),
    ensures
        (
            final(store)@,
            match r {
                Some(reply) => Some(reply@),
                None => None,
            },
        ) == chunk_filter_ended(
            old(store)@,
            request@,
            filtered_views(results@),
            wrapped_total(filtered_counts(results@)),
        ),
{
    let ghost before = store@;
    let ghost all = filtered_views(results@);
    let ghost counts = filtered_counts(results@);
    let count: usize = results.len();
    let size: usize = DataType::parse(&request.data_type).size();
    let mut results: Vec<(MemoryEntry, usize)> = results;
    let mut backwards: Vec<MemoryEntry> = Vec::with_capacity(count);
    let mut entries: Vec<MemoryEntry> = Vec::with_capacity(count);
    let mut found: usize = 0;
    let mut i: usize = 0;
    assert(counts.take(0) =~= Seq::empty());
    while i < count
        invariant
            i <= count == results.len(),
            counts == filtered_counts(results@),
            found == wrapped_total(counts.take(i as int)),
        decreases count - i,
    {
        assert(counts.take(i + 1).drop_last() =~= counts.take(i as int));
        found = found.wrapping_add(results[i].1);
        i = i + 1;
    }
    assert(counts.take(count as int) =~= counts);
    while results.len() > 0
        invariant
            results.len() + backwards.len() == count == all.len(),
            forall|k: int| 0 <= k < results.len() ==> (#[trigger] results@[k]).0@ == all[k],
            forall|k: int|
                0 <= k < backwards.len() ==> (#[trigger] backwards@[k])@ == all[count - 1 - k],
        decreases results.len(),
    {
        if let Some((entry, _)) = results.pop() {
            backwards.push(entry);
        }
    }
    while backwards.len() > 0
        invariant
            entries.len() + backwards.len() == count == all.len(),
            forall|k: int|
                0 <= k < backwards.len() ==> (#[trigger] backwards@[k])@ == all[count - 1 - k],
            forall|k: int| 0 <= k < entries.len() ==> (#[trigger] entries@[k])@ == all[k],
        decreases backwards.len(),
    {
        if let Some(entry) = backwards.pop() {
            entries.push(entry);
        }
    }
    assert(entry_views(entries@) =~= all);
    let find: FindType = match store.options_of(&request.scan_id) {
        Some(options) => FindType::parse(&options.find_type),
        None => FindType::Other,
    };
    let listed: Vec<MatchedAddress> = if found < LISTING_LIMIT {
        match list_entries(&entries, size) {
            Some(list) => {
                let _ = store.take_entries(&request.scan_id);
                list
            },
            None => {
                store.put_entries(&request.scan_id, entries);
                return None;
            },
        }
    } else {
        store.put_entries(&request.scan_id, entries);
        Vec::new()
    };
    let ghost final_list = views(listed@);
    let reply: Reply = reply_with_results(find, request.return_as_json, &listed, found);
    store.put_positions(&request.scan_id, listed);
    proof {
        if found >= LISTING_LIMIT {
            assert(final_list =~= Seq::empty());
        }
        assert(store@ =~~= chunks_filtered(before, request.scan_id@, size, all, found));
    }
    Some(reply)
}

} // verus!
