//! What holds of the service as a whole: of scans whatever the order in which their chunks are
//! searched, of what is remembered, and of what filters do to it.

use vstd::prelude::*;

use crate::block::{holds_sized, is_settled, LZ4_MAX_INPUT};
use crate::chunks::Chunk;
use crate::filter::{
    chunks_filtered, entry_matches, filter_step, judged, judged_if_read, kept_matches,
    FilterStepView, VerdictView,
};
use crate::hexcode::{hex_decoded, hex_encoded, is_hex, law_hex_round_trip};
use crate::matched::{joined, MatchView};
use crate::memory::{
    all_frames, frame, frames_read, law_frames_split, memory_step, several_reply, split_frames,
    MemoryStepView,
};
use crate::order::{at_address, by_address, is_ordered, law_by_address};
use crate::process::{process_step, ProcessStepView};
use crate::relation::{filter_method, law_byte_relation_equal, FilterMethod};
use crate::reply::{no_process, served, BodyView, ContentType};
use crate::requests::{FilterRequestView, ScanRequestView};
use crate::scan::{
    all_hex, all_reported, drift, find_type, lemma_place_matches, lemma_span_matches, reported,
    scan_step, scanned, scanned_if_read, ChunkView, FindType, ScanStepView,
};
use crate::scan_laws::law_joined;
use crate::search::{occurrences, regex_spans};
use crate::snapshot::{reread, EntryView};
use crate::store::{
    handed_back, limited, list_of, result_reply, wrapped_total, StoreView, LISTING_LIMIT,
    MAX_RESULTS,
};
use crate::values::{data_type, DataType};

verus! {

/// The store after the searches of several chunks were recorded one after the other.
pub open spec fn recorded_all(store: StoreView, id: Seq<char>, chunks: Seq<ChunkView>) -> StoreView
    decreases chunks.len(),
{
    if chunks.len() == 0 {
        store
    } else {
        recorded_all(store, id, chunks.drop_last()).recorded(id, chunks.last())
    }
}

/// The lists that chunks hand back.
pub open spec fn all_handed_back(chunks: Seq<ChunkView>) -> Seq<Seq<MatchView>> {
    chunks.map_values(|chunk: ChunkView| handed_back(chunk))
}

/// The matches of a chunk that are remembered as soon as it is recorded.
pub open spec fn kept_at_once(chunk: ChunkView) -> Seq<MatchView> {
    if chunk.positions.len() > MAX_RESULTS {
        chunk.positions
    } else {
        Seq::empty()
    }
}

/// The chunk itself, where it is remembered.
pub open spec fn snapshot_list(chunk: ChunkView) -> Seq<EntryView> {
    match chunk.snapshot {
        Some(entry) => seq![entry],
        None => Seq::empty(),
    }
}

/// The store after a whole scan: its chunks recorded in one order, and what they handed back put
/// behind it in another.
pub open spec fn scan_finished(
    store: StoreView,
    id: Seq<char>,
    recorded: Seq<ChunkView>,
    chunks: Seq<ChunkView>,
) -> StoreView {
    recorded_all(store, id, recorded).extended(id, joined(all_handed_back(chunks)))
}

proof fn lemma_recorded_all(store: StoreView, id: Seq<char>, chunks: Seq<ChunkView>)
    ensures
        list_of(recorded_all(store, id, chunks).positions, id) == list_of(store.positions, id)
            + joined(chunks.map_values(|chunk: ChunkView| kept_at_once(chunk))),
        list_of(recorded_all(store, id, chunks).memory, id) == list_of(store.memory, id) + joined(
            chunks.map_values(|chunk: ChunkView| snapshot_list(chunk)),
        ),
        recorded_all(store, id, chunks).options == store.options,
    decreases chunks.len(),
{
    let kept = chunks.map_values(|chunk: ChunkView| kept_at_once(chunk));
    let snapshots = chunks.map_values(|chunk: ChunkView| snapshot_list(chunk));
    let after = recorded_all(store, id, chunks);
    if chunks.len() == 0 {
        assert(list_of(after.positions, id) =~= list_of(store.positions, id) + joined(kept));
        assert(list_of(after.memory, id) =~= list_of(store.memory, id) + joined(snapshots));
    } else {
        let front = chunks.drop_last();
        lemma_recorded_all(store, id, front);
        assert(kept.drop_last() =~= front.map_values(|chunk: ChunkView| kept_at_once(chunk)));
        assert(snapshots.drop_last() =~= front.map_values(
            |chunk: ChunkView| snapshot_list(chunk),
        ));
        assert(list_of(after.positions, id) =~= list_of(store.positions, id) + joined(kept));
        assert(list_of(after.memory, id) =~= list_of(store.memory, id) + joined(snapshots));
    }
}

proof fn lemma_multiset_add<T>(a: Seq<T>, b: Seq<T>)
    ensures
        (a + b).to_multiset() == a.to_multiset().add(b.to_multiset()),
{
    vstd::seq_lib::lemma_multiset_commutative(a, b);
}

/// Taking one list out of several takes its elements out of the whole.
proof fn lemma_joined_remove<T>(lists: Seq<Seq<T>>, i: int)
    requires
        0 <= i < lists.len(),
    ensures
        joined(lists).to_multiset() == joined(lists.remove(i)).to_multiset().add(
            lists[i].to_multiset(),
        ),
    decreases lists.len(),
{
    let front = lists.drop_last();
    let last = lists.last();
    lemma_multiset_add(joined(front), last);
    if i == lists.len() - 1 {
        assert(lists.remove(i) =~= front);
    } else {
        lemma_joined_remove(front, i);
        assert(lists.remove(i).drop_last() =~= front.remove(i));
        assert(lists.remove(i).last() == last);
        lemma_multiset_add(joined(front.remove(i)), last);
        assert(joined(lists).to_multiset() =~= joined(lists.remove(i)).to_multiset().add(
            lists[i].to_multiset(),
        ));
    }
}

/// The elements of several lists do not depend on the order of the lists.
proof fn lemma_joined_permuted<S, T>(a: Seq<S>, b: Seq<S>, f: spec_fn(S) -> Seq<T>)
    requires
        a.to_multiset() == b.to_multiset(),
    ensures
        joined(a.map_values(f)).to_multiset() == joined(b.map_values(f)).to_multiset(),
    decreases a.len(),
{
    broadcast use vstd::seq_lib::group_to_multiset_ensures;

    assert(a.len() == a.to_multiset().len());
    assert(b.len() == b.to_multiset().len());
    if a.len() == 0 {
        assert(a.map_values(f) =~= b.map_values(f));
    } else {
        let x = a.last();
        assert(a.contains(x));
        assert(b.to_multiset().count(x) > 0);
        let i = choose|i: int| 0 <= i < b.len() && b[i] == x;
        let front = a.drop_last();
        let rest = b.remove(i);
        assert(a.remove(a.len() - 1) =~= front);
        assert(front.to_multiset() =~= rest.to_multiset());
        lemma_joined_permuted(front, rest, f);
        lemma_joined_remove(a.map_values(f), a.len() - 1);
        lemma_joined_remove(b.map_values(f), i);
        assert(a.map_values(f).remove(a.len() - 1) =~= front.map_values(f));
        assert(b.map_values(f).remove(i) =~= rest.map_values(f));
    }
}

/// Splitting each list in two splits the whole.
proof fn lemma_joined_split<S, T>(
    s: Seq<S>,
    f: spec_fn(S) -> Seq<T>,
    g: spec_fn(S) -> Seq<T>,
    whole: spec_fn(S) -> Seq<T>,
)
    requires
        forall|x: S| #[trigger] whole(x) == f(x) + g(x),
    ensures
        joined(s.map_values(whole)).to_multiset() == joined(s.map_values(f)).to_multiset().add(
            joined(s.map_values(g)).to_multiset(),
        ),
    decreases s.len(),
{
    broadcast use vstd::seq_lib::group_to_multiset_ensures;

    if s.len() == 0 {
        assert(joined(s.map_values(whole)).to_multiset() =~= joined(
            s.map_values(f),
        ).to_multiset().add(joined(s.map_values(g)).to_multiset()));
    } else {
        let front = s.drop_last();
        let x = s.last();
        lemma_joined_split(front, f, g, whole);
        assert(s.map_values(whole).drop_last() =~= front.map_values(whole));
        assert(s.map_values(f).drop_last() =~= front.map_values(f));
        assert(s.map_values(g).drop_last() =~= front.map_values(g));
        lemma_multiset_add(joined(front.map_values(whole)), whole(x));
        lemma_multiset_add(joined(front.map_values(f)), f(x));
        lemma_multiset_add(joined(front.map_values(g)), g(x));
        lemma_multiset_add(f(x), g(x));
        assert(joined(s.map_values(whole)).to_multiset() =~= joined(
            s.map_values(f),
        ).to_multiset().add(joined(s.map_values(g)).to_multiset()));
    }
}

/// In whatever order the chunks of a scan are recorded, the scan ends up remembering the same
/// matches and the same chunks, each as often: those it remembered before and all that were found.
pub proof fn law_scan_order(
    store: StoreView,
    id: Seq<char>,
    recorded: Seq<ChunkView>,
    chunks: Seq<ChunkView>,
)
    requires
        recorded.to_multiset() == chunks.to_multiset(),
    ensures
        list_of(scan_finished(store, id, recorded, chunks).positions, id).to_multiset() == list_of(
            store.positions,
            id,
        ).to_multiset().add(
            joined(chunks.map_values(|chunk: ChunkView| chunk.positions)).to_multiset(),
        ),
        list_of(scan_finished(store, id, recorded, chunks).memory, id).to_multiset() == list_of(
            store.memory,
            id,
        ).to_multiset().add(
            joined(chunks.map_values(|chunk: ChunkView| snapshot_list(chunk))).to_multiset(),
        ),
{
    let kept = |chunk: ChunkView| kept_at_once(chunk);
    let handed = |chunk: ChunkView| handed_back(chunk);
    let snapshots = |chunk: ChunkView| snapshot_list(chunk);
    let whole = |chunk: ChunkView| chunk.positions;
    let before = list_of(store.positions, id);
    lemma_recorded_all(store, id, recorded);
    lemma_joined_permuted(recorded, chunks, kept);
    lemma_joined_permuted(recorded, chunks, snapshots);
    assert forall|chunk: ChunkView| #[trigger] whole(chunk) == kept(chunk) + handed(chunk) by {
        assert(chunk.positions =~= kept_at_once(chunk) + handed_back(chunk));
    }
    lemma_joined_split(chunks, kept, handed, whole);
    let spilled = joined(recorded.map_values(kept));
    let rest = joined(chunks.map_values(handed));
    assert(list_of(scan_finished(store, id, recorded, chunks).positions, id) == before + spilled
        + rest);
    lemma_multiset_add(before + spilled, rest);
    lemma_multiset_add(before, spilled);
    lemma_multiset_add(list_of(store.memory, id), joined(recorded.map_values(snapshots)));
    assert(list_of(scan_finished(store, id, recorded, chunks).positions, id).to_multiset()
        =~= before.to_multiset().add(joined(chunks.map_values(whole)).to_multiset()));
}

/// Whether two stores agree about one scan.
pub open spec fn same_scan(a: StoreView, b: StoreView, id: Seq<char>) -> bool {
    &&& a.positions.contains_key(id) == b.positions.contains_key(id)
    &&& a.positions.contains_key(id) ==> a.positions[id] == b.positions[id]
    &&& a.memory.contains_key(id) == b.memory.contains_key(id)
    &&& a.memory.contains_key(id) ==> a.memory[id] == b.memory[id]
    &&& a.options.contains_key(id) == b.options.contains_key(id)
    &&& a.options.contains_key(id) ==> a.options[id] == b.options[id]
}

/// Nothing that is done for one scan touches another.
pub proof fn law_other_scans_untouched(
    store: StoreView,
    request: ScanRequestView,
    chunk: ChunkView,
    more: Seq<MatchView>,
    size: usize,
    entries: Seq<EntryView>,
    found: usize,
    other: Seq<char>,
)
    requires
        other != request.scan_id,
    ensures
        same_scan(store.begun(request), store, other),
        same_scan(store.recorded(request.scan_id, chunk), store, other),
        same_scan(store.extended(request.scan_id, more), store, other),
        same_scan(store.replaced(request.scan_id, more), store, other),
        same_scan(chunks_filtered(store, request.scan_id, size, entries, found), store, other),
{
}

/// A scan that begins remembers nothing of what its identifier held before, and its options are
/// remembered and stay remembered whatever is recorded, listed or filtered.
pub proof fn law_scan_begins_afresh(
    store: StoreView,
    request: ScanRequestView,
    chunk: ChunkView,
    more: Seq<MatchView>,
    size: usize,
    entries: Seq<EntryView>,
    found: usize,
)
    ensures
        list_of(store.begun(request).positions, request.scan_id).len() == 0,
        list_of(store.begun(request).memory, request.scan_id).len() == 0,
        store.begun(request).options.contains_pair(request.scan_id, request),
        store.recorded(request.scan_id, chunk).options == store.options,
        store.extended(request.scan_id, more).options == store.options,
        store.replaced(request.scan_id, more).options == store.options,
        chunks_filtered(store, request.scan_id, size, entries, found).options == store.options,
{
}

/// The count that a scan tells of its chunks.
pub open spec fn told(chunks: Seq<ChunkView>) -> usize {
    wrapped_total(chunks.map_values(|chunk: ChunkView| chunk.found as usize))
}

/// The number of matches that chunks give together.
pub open spec fn match_total(chunks: Seq<ChunkView>) -> nat
    decreases chunks.len(),
{
    if chunks.len() == 0 {
        0
    } else {
        match_total(chunks.drop_last()) + chunks.last().positions.len()
    }
}

proof fn lemma_match_totals(chunks: Seq<ChunkView>)
    requires
        match_total(chunks) <= usize::MAX,
        forall|i: int|
            0 <= i < chunks.len() ==> (#[trigger] chunks[i]).found == chunks[i].positions.len(),
    ensures
        joined(chunks.map_values(|chunk: ChunkView| chunk.positions)).len() == match_total(chunks),
        told(chunks) == match_total(chunks),
    decreases chunks.len(),
{
    if chunks.len() > 0 {
        let front = chunks.drop_last();
        assert forall|i: int| 0 <= i < front.len() implies (#[trigger] front[i]).found
            == front[i].positions.len() by {
            assert(front[i] == chunks[i]);
        }
        lemma_match_totals(front);
        assert(chunks[chunks.len() - 1].found == chunks.last().positions.len());
        assert(chunks.map_values(|chunk: ChunkView| chunk.positions).drop_last()
            =~= front.map_values(|chunk: ChunkView| chunk.positions));
        assert(chunks.map_values(|chunk: ChunkView| chunk.found as usize).drop_last()
            =~= front.map_values(|chunk: ChunkView| chunk.found as usize));
    }
}

/// A finished search for a value tells exactly as many matches as it then remembers.
pub proof fn law_scan_counted(
    store: StoreView,
    request: ScanRequestView,
    recorded: Seq<ChunkView>,
    chunks: Seq<ChunkView>,
)
    requires
        recorded.to_multiset() == chunks.to_multiset(),
        match_total(chunks) <= usize::MAX,
        forall|i: int|
            0 <= i < chunks.len() ==> (#[trigger] chunks[i]).found == chunks[i].positions.len(),
    ensures
        ({
            let after = scan_finished(store.begun(request), request.scan_id, recorded, chunks);
            after.positions[request.scan_id].len() == told(chunks)
        }),
{
    broadcast use vstd::seq_lib::group_to_multiset_ensures;

    let begun = store.begun(request);
    let after = scan_finished(begun, request.scan_id, recorded, chunks);
    let all = joined(chunks.map_values(|chunk: ChunkView| chunk.positions));
    law_scan_order(begun, request.scan_id, recorded, chunks);
    lemma_match_totals(chunks);
    let before = list_of(begun.positions, request.scan_id);
    assert(before.len() == 0);
    assert(after.positions[request.scan_id].to_multiset().len() == before.to_multiset().len()
        + all.to_multiset().len());
}

proof fn lemma_recorded_all_add(
    store: StoreView,
    id: Seq<char>,
    a: Seq<ChunkView>,
    b: Seq<ChunkView>,
)
    ensures
        recorded_all(store, id, a + b) == recorded_all(recorded_all(store, id, a), id, b),
    decreases b.len(),
{
    if b.len() == 0 {
        assert(a + b =~= a);
    } else {
        lemma_recorded_all_add(store, id, a, b.drop_last());
        assert((a + b).drop_last() =~= a + b.drop_last());
    }
}

proof fn lemma_zero_not_counted(a: Seq<usize>, b: Seq<usize>)
    ensures
        wrapped_total(a.push(0) + b) == wrapped_total(a + b),
    decreases b.len(),
{
    if b.len() == 0 {
        assert(a.push(0) + b =~= a.push(0));
        assert(a.push(0).drop_last() =~= a);
        assert(a + b =~= a);
    } else {
        lemma_zero_not_counted(a, b.drop_last());
        assert((a.push(0) + b).drop_last() =~= a.push(0) + b.drop_last());
        assert((a + b).drop_last() =~= a + b.drop_last());
    }
}

/// A chunk that could not be read changes nothing: wherever among the others it is recorded and
/// handed back, the scan remembers the same and its reply lists and counts the same.
pub proof fn law_unread_chunk(
    store: StoreView,
    request: ScanRequestView,
    base: usize,
    earlier: Seq<ChunkView>,
    later: Seq<ChunkView>,
    before: Seq<ChunkView>,
    behind: Seq<ChunkView>,
)
    ensures
        scanned_if_read(request, base, None) matches Some(unread) && {
            let id = request.scan_id;
            let with = scan_finished(
                store,
                id,
                earlier.push(unread) + later,
                before.push(unread) + behind,
            );
            let without = scan_finished(store, id, earlier + later, before + behind);
            let find = find_type(request.find_type);
            &&& with == without
            &&& told(before.push(unread) + behind) == told(before + behind)
            &&& result_reply(
                find,
                request.return_as_json,
                with.positions[id],
                told(before.push(unread) + behind),
            ) == result_reply(
                find,
                request.return_as_json,
                without.positions[id],
                told(before + behind),
            )
        },
{
    let unread = scanned_if_read(request, base, None)->0;
    let id = request.scan_id;
    let mid = recorded_all(store, id, earlier);
    assert(earlier.push(unread).drop_last() =~= earlier);
    assert(recorded_all(store, id, earlier.push(unread)) == mid);
    lemma_recorded_all_add(store, id, earlier.push(unread), later);
    lemma_recorded_all_add(store, id, earlier, later);
    let left = all_handed_back(before);
    let right = all_handed_back(behind);
    assert(all_handed_back(before.push(unread) + behind) =~= left.push(Seq::empty()) + right);
    assert(all_handed_back(before + behind) =~= left + right);
    law_joined(Seq::empty(), left.push(Seq::empty()), right);
    law_joined(Seq::empty(), left, right);
    assert(left.push(Seq::empty()).drop_last() =~= left);
    assert(joined(left.push(Seq::empty())) =~= joined(left));
    let counts = |chunk: ChunkView| chunk.found as usize;
    assert((before.push(unread) + behind).map_values(counts) =~= before.map_values(counts).push(0)
        + behind.map_values(counts));
    assert((before + behind).map_values(counts) =~= before.map_values(counts)
        + behind.map_values(counts));
    lemma_zero_not_counted(before.map_values(counts), behind.map_values(counts));
}

/// A scan that has been finished or filtered once is found by every later filter.
pub proof fn law_scan_found_again(
    store: StoreView,
    more: Seq<MatchView>,
    size: usize,
    entries: Seq<EntryView>,
    found: usize,
    pid: i32,
    request: FilterRequestView,
)
    ensures
        filter_step(Some(pid), request, store.extended(request.scan_id, more)) !is Answer,
        filter_step(Some(pid), request, store.replaced(request.scan_id, more)) !is Answer,
        filter_step(
            Some(pid),
            request,
            chunks_filtered(store, request.scan_id, size, entries, found),
        ) !is Answer,
{
}

/// After a filter of remembered chunks a scan either lists matches or keeps chunks, never both.
pub proof fn law_listed_or_kept(
    store: StoreView,
    id: Seq<char>,
    size: usize,
    entries: Seq<EntryView>,
    found: usize,
)
    ensures
        chunks_filtered(store, id, size, entries, found).memory.contains_key(id) <==> found
            >= LISTING_LIMIT,
        chunks_filtered(store, id, size, entries, found).memory.contains_key(id)
            ==> chunks_filtered(store, id, size, entries, found).positions[id].len() == 0,
{
}

/// What a filter of remembered chunks lists never falls in address, and lists of each address
/// what the chunks hold there, in the order of the chunks.
pub proof fn law_listing_ordered(
    store: StoreView,
    id: Seq<char>,
    size: usize,
    entries: Seq<EntryView>,
    found: usize,
    address: usize,
)
    requires
        found < LISTING_LIMIT,
    ensures
        is_ordered(chunks_filtered(store, id, size, entries, found).positions[id]),
        at_address(chunks_filtered(store, id, size, entries, found).positions[id], address)
            == at_address(entry_matches(entries, size), address),
{
    law_by_address(entry_matches(entries, size));
}

/// How many offsets several chunks hold.
pub open spec fn offset_counts(entries: Seq<EntryView>) -> Seq<usize> {
    entries.map_values(|entry: EntryView| entry.offsets.len() as usize)
}

/// How many offsets several chunks hold together.
pub open spec fn offset_total(entries: Seq<EntryView>) -> nat
    decreases entries.len(),
{
    if entries.len() == 0 {
        0
    } else {
        offset_total(entries.drop_last()) + entries.last().offsets.len()
    }
}

/// Whether every surviving offset of several chunks is read again, as it is wherever a machine word
/// takes eight bytes.
pub open spec fn all_reread(entries: Seq<EntryView>) -> bool {
    forall|i: int|
        0 <= i < entries.len() ==> reread((#[trigger] entries[i]).offsets) == entries[i].offsets
}

proof fn lemma_offset_totals(entries: Seq<EntryView>, size: usize)
    requires
        offset_total(entries) <= usize::MAX,
        all_reread(entries),
    ensures
        entry_matches(entries, size).len() == offset_total(entries),
        wrapped_total(offset_counts(entries)) == offset_total(entries),
    decreases entries.len(),
{
    let lists = entries.map_values(|entry: EntryView| entry.matches(size));
    if entries.len() > 0 {
        let front = entries.drop_last();
        assert forall|i: int| 0 <= i < front.len() implies reread(
            (#[trigger] front[i]).offsets,
        ) == front[i].offsets by {
            assert(front[i] == entries[i]);
        }
        lemma_offset_totals(front, size);
        assert(entries[entries.len() - 1] == entries.last());
        assert(lists.drop_last() =~= front.map_values(|entry: EntryView| entry.matches(size)));
        assert(offset_counts(entries).drop_last() =~= offset_counts(front));
    }
}

/// Where every chunk could be read and every offset is read again, a filter lists exactly as many
/// matches as it found.
pub proof fn law_listing_complete(
    store: StoreView,
    id: Seq<char>,
    size: usize,
    entries: Seq<EntryView>,
)
    requires
        offset_total(entries) < LISTING_LIMIT,
        all_reread(entries),
    ensures
        wrapped_total(offset_counts(entries)) == offset_total(entries),
        chunks_filtered(
            store,
            id,
            size,
            entries,
            wrapped_total(offset_counts(entries)),
        ).positions[id].len() == offset_total(entries),
{
    lemma_offset_totals(entries, size);
    law_by_address(entry_matches(entries, size));
}

/// A filter only narrows: what survives was a candidate, lies at an aligned address and inside
/// the chunk, and is counted.
pub proof fn law_filter_narrows(
    entry: EntryView,
    new: Seq<u8>,
    align: usize,
    size: usize,
    method: FilterMethod,
    offset: usize,
)
    ensures
        entry.refiltered(Some(new), align, size, method).offsets.contains(offset) <==> {
            &&& entry.candidates().contains(offset)
            &&& entry.keeps(new, align, size, method, offset)
        },
        entry.refiltered(Some(new), align, size, method).offsets.len() <= entry.candidates().len(),
        entry.refound(Some(new), align, size, method) == entry.refiltered(
            Some(new),
            align,
            size,
            method,
        ).offsets.len(),
{
    let pred = |offset: usize| entry.keeps(new, align, size, method, offset);
    let all = entry.candidates();
    all.lemma_filter_len(pred);
    if all.filter(pred).contains(offset) {
        all.lemma_filter_contains_rev(pred, offset);
        let i = choose|i: int|
            0 <= i < all.filter(pred).len() && all.filter(pred)[i] == offset;
        all.lemma_filter_pred(pred, i);
    }
    if all.contains(offset) && entry.keeps(new, align, size, method, offset) {
        let i = choose|i: int| 0 <= i < all.len() && all[i] == offset;
        all.lemma_filter_contains(pred, i);
    }
}

/// Every candidate at an aligned address inside the chunk survives exactly one of the filters for
/// what has changed and for what has not.
pub proof fn law_changed_or_unchanged(
    entry: EntryView,
    new: Seq<u8>,
    align: usize,
    size: usize,
    offset: usize,
)
    requires
        entry.candidates().contains(offset),
        (entry.address + offset) % (align as int) == 0,
        offset + size <= entry.data.len(),
    ensures
        entry.survivors(new, align, size, FilterMethod::Changed).contains(offset)
            != entry.survivors(new, align, size, FilterMethod::Unchanged).contains(offset),
{
    law_filter_narrows(entry, new, align, size, FilterMethod::Changed, offset);
    law_filter_narrows(entry, new, align, size, FilterMethod::Unchanged, offset);
}

/// Memory that still holds what it held has not changed, risen or fallen anywhere, and is
/// unchanged at every candidate at an aligned address inside the chunk.
pub proof fn law_quiet_memory(entry: EntryView, align: usize, size: usize, offset: usize)
    ensures
        !entry.survivors(entry.data, align, size, FilterMethod::Changed).contains(offset),
        !entry.survivors(entry.data, align, size, FilterMethod::Increased).contains(offset),
        !entry.survivors(entry.data, align, size, FilterMethod::Decreased).contains(offset),
        entry.survivors(entry.data, align, size, FilterMethod::Unchanged).contains(offset) <==> {
            &&& entry.candidates().contains(offset)
            &&& (entry.address + offset) % (align as int) == 0
            &&& offset + size <= entry.data.len()
        },
{
    let window = entry.data.subrange(offset as int, offset + size);
    law_byte_relation_equal(window, window);
    law_filter_narrows(entry, entry.data, align, size, FilterMethod::Changed, offset);
    law_filter_narrows(entry, entry.data, align, size, FilterMethod::Increased, offset);
    law_filter_narrows(entry, entry.data, align, size, FilterMethod::Decreased, offset);
    law_filter_narrows(entry, entry.data, align, size, FilterMethod::Unchanged, offset);
}

/// Filtering for what has not changed twice over memory that has come to rest finds the same
/// places the second time, where the places found first are read again.
pub proof fn law_unchanged_settles(
    entry: EntryView,
    new: Seq<u8>,
    align: usize,
    size: usize,
    offset: usize,
)
    requires
        new.len() == entry.data.len(),
        ({
            let once = entry.refiltered(Some(new), align, size, FilterMethod::Unchanged);
            reread(once.offsets) == once.offsets
        }),
    ensures
        ({
            let once = entry.refiltered(Some(new), align, size, FilterMethod::Unchanged);
            let twice = once.refiltered(Some(new), align, size, FilterMethod::Unchanged);
            twice.offsets.contains(offset) <==> once.offsets.contains(offset)
        }),
{
    let once = entry.refiltered(Some(new), align, size, FilterMethod::Unchanged);
    law_filter_narrows(entry, new, align, size, FilterMethod::Unchanged, offset);
    law_quiet_memory(once, align, size, offset);
}

/// A match that a filter keeps is at the address it was at and carries the bytes just read, and
/// an exact filter keeps only what equals its pattern.
pub proof fn law_kept_match(request: FilterRequestView, m: MatchView, buffer: Seq<u8>)
    ensures
        judged(request, m, buffer) matches Some(VerdictView::Keep(kept)) ==> {
            &&& kept.address == m.address
            &&& kept.value == hex_encoded(buffer)
            &&& hex_decoded(kept.value) == Some(buffer)
        },
        judged(request, m, buffer) matches Some(VerdictView::Keep(kept)) && data_type(
            request.data_type,
        ) != DataType::Regex && filter_method(request.filter_method) == FilterMethod::Exact
            ==> hex_decoded(request.pattern) == Some(buffer),
{
    law_hex_round_trip(buffer);
}

proof fn lemma_drift_nonnegative(places: Seq<usize>, i: int)
    requires
        0 <= i <= places.len(),
    ensures
        drift(places, i) >= i,
    decreases i,
{
    if i > 0 {
        lemma_drift_nonnegative(places, i - 1);
    }
}

/// What a scan finds in a chunk has hexadecimal values, a search for a value counts exactly the
/// matches it gives, and a scan for unknown values gives none but remembers the chunk.
pub proof fn law_scan_matches(request: ScanRequestView, base: usize, buffer: Seq<u8>)
    ensures
        scanned(request, base, buffer) matches Some(chunk) ==> {
            &&& all_hex(chunk.positions)
            &&& find_type(request.find_type) != FindType::Unknown ==> chunk.found
                == chunk.positions.len() && chunk.snapshot is None
            &&& find_type(request.find_type) == FindType::Unknown ==> {
                &&& chunk.positions.len() == 0
                &&& chunk.snapshot matches Some(entry)
                &&& entry.data == buffer
                &&& entry.address == base
            }
        },
{
    if find_type(request.find_type) == FindType::Exact {
        if data_type(request.data_type) == DataType::Regex {
            if let Some(spans) = regex_spans(request.pattern, buffer) {
                lemma_span_matches(base, request.align, buffer, spans);
            }
        } else if let Some(needle) = hex_decoded(request.pattern) {
            lemma_place_matches(
                all_reported(base, occurrences(buffer, needle, 0)),
                request.align,
                request.pattern,
            );
        }
    }
}

/// The first place of a value in a chunk is reported at its own address; every later one is
/// reported above its own address, and the reported addresses rise.
pub proof fn law_reported_addresses(base: usize, places: Seq<usize>, i: int)
    requires
        0 <= i < places.len(),
    ensures
        i == 0 ==> reported(base, places, i) == base + places[i],
        i > 0 ==> reported(base, places, i) > base + places[i],
        i > 0 ==> reported(base, places, i) > reported(base, places, i - 1),
{
    lemma_drift_nonnegative(places, i);
}

/// Whether every remembered value is hexadecimal.
pub open spec fn remembers_hex(store: StoreView) -> bool {
    forall|id: Seq<char>| #[trigger]
        store.positions.contains_key(id) ==> all_hex(store.positions[id])
}

proof fn lemma_hex_add(a: Seq<MatchView>, b: Seq<MatchView>)
    requires
        all_hex(a),
        all_hex(b),
    ensures
        all_hex(a + b),
{
    assert forall|i: int| 0 <= i < (a + b).len() implies is_hex((#[trigger] (a + b)[i]).value) by {
        if i < a.len() {
            assert((a + b)[i] == a[i]);
        } else {
            assert((a + b)[i] == b[i - a.len()]);
        }
    }
}

proof fn lemma_hex_joined(lists: Seq<Seq<MatchView>>)
    requires
        forall|i: int| 0 <= i < lists.len() ==> all_hex(#[trigger] lists[i]),
    ensures
        all_hex(joined(lists)),
    decreases lists.len(),
{
    if lists.len() > 0 {
        let front = lists.drop_last();
        assert forall|i: int| 0 <= i < front.len() implies all_hex(#[trigger] front[i]) by {
            assert(front[i] == lists[i]);
        }
        lemma_hex_joined(front);
        lemma_hex_add(joined(front), lists.last());
    }
}

proof fn lemma_hex_ordered(list: Seq<MatchView>)
    requires
        all_hex(list),
    ensures
        all_hex(by_address(list)),
{
    let ordered = by_address(list);
    law_by_address(list);
    assert forall|i: int| 0 <= i < ordered.len() implies is_hex((#[trigger] ordered[i]).value) by {
        let m = ordered[i];
        let pred = |x: MatchView| x.address == m.address;
        ordered.lemma_filter_contains(pred, i);
        assert(at_address(ordered, m.address) == at_address(list, m.address));
        assert(at_address(list, m.address).contains(m));
        list.lemma_filter_contains_rev(pred, m);
        let j = choose|j: int| 0 <= j < list.len() && list[j] == m;
        assert(is_hex(list[j].value));
    }
}

/// Every value remembered stays hexadecimal: beginning a scan, recording and listing what it found
/// and listing what filters leave all keep it so. A remembered value is therefore never the reason
/// for which a filter is refused.
pub proof fn law_values_stay_hex(
    store: StoreView,
    request: ScanRequestView,
    chunk: ChunkView,
    handed: Seq<Seq<MatchView>>,
    size: usize,
    entries: Seq<EntryView>,
    found: usize,
)
    requires
        remembers_hex(store),
        all_hex(chunk.positions),
        forall|i: int| 0 <= i < handed.len() ==> all_hex(#[trigger] handed[i]),
    ensures
        remembers_hex(StoreView::empty()),
        remembers_hex(store.begun(request)),
        remembers_hex(store.recorded(request.scan_id, chunk)),
        remembers_hex(store.extended(request.scan_id, joined(handed))),
        remembers_hex(store.replaced(request.scan_id, joined(handed))),
        remembers_hex(chunks_filtered(store, request.scan_id, size, entries, found)),
{
    let id = request.scan_id;
    let before = list_of(store.positions, id);
    lemma_hex_add(before, chunk.positions);
    lemma_hex_joined(handed);
    lemma_hex_add(before, joined(handed));
    let lists = entries.map_values(|entry: EntryView| entry.matches(size));
    assert forall|i: int| 0 <= i < lists.len() implies all_hex(#[trigger] lists[i]) by {
        let entry = entries[i];
        assert forall|k: int| 0 <= k < lists[i].len() implies is_hex(
            (#[trigger] lists[i][k]).value,
        ) by {
            let offset = entry.offsets[k];
            law_hex_round_trip(entry.data.subrange(offset as int, offset + size));
        }
    }
    lemma_hex_joined(lists);
    lemma_hex_ordered(entry_matches(entries, size));
}

/// A filter of remembered matches keeps values hexadecimal, and refuses only for the sake of the
/// pattern.
pub proof fn law_judged_hex(request: FilterRequestView, m: MatchView, buffer: Seq<u8>)
    requires
        is_hex(m.value),
    ensures
        judged(request, m, buffer) matches Some(VerdictView::Keep(kept)) ==> is_hex(kept.value),
        judged(request, m, buffer) == Some(VerdictView::InvalidHex) ==> {
            &&& filter_method(request.filter_method) == FilterMethod::Exact
            &&& !is_hex(request.pattern)
        },
{
    law_hex_round_trip(buffer);
}

/// A reply lists at most as many matches as the limit allows, always the first ones, and says that
/// it is not the whole exactly where some are left out or an unknown value has too many places.
pub proof fn law_reply_limited(
    find: FindType,
    positions: Seq<MatchView>,
    found: usize,
)
    ensures
        result_reply(find, true, positions, found).body matches BodyView::Matches {
            matched_addresses,
            found: told,
            is_rounded,
        } && {
            &&& told == found
            &&& matched_addresses.len() <= MAX_RESULTS
            &&& matched_addresses.is_prefix_of(positions)
            &&& is_rounded <==> matched_addresses.len() < positions.len() || (find
                == FindType::Unknown && found > LISTING_LIMIT)
        },
{
    assert(limited(positions).is_prefix_of(positions));
}

/// Whether verdicts are those on a list of matches, given what was read for each.
pub open spec fn verdicts_on(
    request: FilterRequestView,
    list: Seq<MatchView>,
    buffers: Seq<Option<Seq<u8>>>,
    verdicts: Seq<VerdictView>,
) -> bool {
    &&& buffers.len() == list.len()
    &&& verdicts.len() == list.len()
    &&& forall|i: int|
        0 <= i < list.len() ==> judged_if_read(request, list[i], buffers[i]) == Some(
            #[trigger] verdicts[i],
        )
}

/// Whether a match stands at the `i`th address of a list with the value that was read there.
pub open spec fn stands_again(
    m: MatchView,
    list: Seq<MatchView>,
    buffers: Seq<Option<Seq<u8>>>,
    i: int,
) -> bool {
    &&& 0 <= i < list.len()
    &&& m.address == list[i].address
    &&& buffers[i] matches Some(buffer) && m.value == hex_encoded(buffer)
}

/// Which of a list of verdicts keep their match, in order.
pub open spec fn keeping(verdicts: Seq<VerdictView>) -> Seq<int>
    decreases verdicts.len(),
{
    if verdicts.len() == 0 {
        Seq::empty()
    } else {
        let before = keeping(verdicts.drop_last());
        if verdicts.last() is Keep {
            before.push(verdicts.len() - 1)
        } else {
            before
        }
    }
}

/// A filter of remembered matches only narrows: what it keeps stands, in the same order, at
/// addresses that were remembered, each with the bytes that were read there.
pub proof fn law_value_filter_narrows(
    request: FilterRequestView,
    list: Seq<MatchView>,
    buffers: Seq<Option<Seq<u8>>>,
    verdicts: Seq<VerdictView>,
)
    requires
        verdicts_on(request, list, buffers, verdicts),
    ensures
        kept_matches(verdicts).len() <= list.len(),
        all_hex(kept_matches(verdicts)),
        keeping(verdicts).len() == kept_matches(verdicts).len(),
        forall|j: int, k: int|
            0 <= j < k < keeping(verdicts).len() ==> keeping(verdicts)[j] < keeping(verdicts)[k],
        forall|k: int|
            0 <= k < kept_matches(verdicts).len() ==> stands_again(
                #[trigger] kept_matches(verdicts)[k],
                list,
                buffers,
                keeping(verdicts)[k],
            ),
        forall|i: int|
            0 <= i < verdicts.len() && (#[trigger] verdicts[i]) is Keep ==> keeping(
                verdicts,
            ).contains(i),
    decreases list.len(),
{
    let kept = kept_matches(verdicts);
    let places = keeping(verdicts);
    if list.len() > 0 {
        let last = list.len() - 1;
        let front = list.drop_last();
        let fewer = verdicts.drop_last();
        let reads = buffers.drop_last();
        assert forall|i: int| 0 <= i < front.len() implies judged_if_read(
            request,
            front[i],
            reads[i],
        ) == Some(#[trigger] fewer[i]) by {
            assert(fewer[i] == verdicts[i]);
        }
        law_value_filter_narrows(request, front, reads, fewer);
        let before = kept_matches(fewer);
        let earlier = keeping(fewer);
        assert(judged_if_read(request, list[last], buffers[last]) == Some(verdicts[last]));
        if let Some(buffer) = buffers[last] {
            law_hex_round_trip(buffer);
        }
        assert forall|k: int| 0 <= k < kept.len() implies is_hex((#[trigger] kept[k]).value) by {
            if k < before.len() {
                assert(kept[k] == before[k]);
            }
        }
        assert forall|k: int| 0 <= k < kept.len() implies stands_again(
            #[trigger] kept[k],
            list,
            buffers,
            places[k],
        ) by {
            if k < before.len() {
                assert(kept[k] == before[k]);
                assert(stands_again(before[k], front, reads, earlier[k]));
            }
        }
        assert forall|j: int, k: int| 0 <= j < k < places.len() implies places[j] < places[k] by {
            assert(stands_again(before[j], front, reads, earlier[j]));
        }
        assert forall|i: int|
            0 <= i < verdicts.len() && (#[trigger] verdicts[i]) is Keep implies places.contains(
            i,
        ) by {
            if i < last {
                assert(fewer[i] == verdicts[i]);
                let k = choose|k: int| 0 <= k < earlier.len() && earlier[k] == i;
                assert(places[k] == i);
            } else {
                assert(places[places.len() - 1] == i);
            }
        }
    }
}

/// Whether a payload stands for what was read: none for a read that failed, and otherwise one
/// that restores to the bytes.
pub open spec fn payload_holds(payload: Option<Seq<u8>>, outcome: Option<Seq<u8>>) -> bool {
    match outcome {
        Some(data) => payload matches Some(sized) && holds_sized(sized, data),
        None => payload is None,
    }
}

/// The payload in the frame of a read.
pub open spec fn framed_payload(bytes: Seq<u8>, outcome: Option<Seq<u8>>) -> Option<Seq<u8>> {
    match outcome {
        Some(data) => Some(
            choose|payload: Seq<u8>|
                holds_sized(payload, data) && bytes == #[trigger] frame(Some(payload)),
        ),
        None => None,
    }
}

/// Whether a row of frames tells what was read: it comes apart into as many payloads as there were
/// reads, each of which stands for its read.
pub open spec fn tells(bytes: Seq<u8>, outcomes: Seq<Option<Seq<u8>>>) -> bool {
    &&& split_frames(bytes) matches Some(payloads)
    &&& payloads.len() == outcomes.len()
    &&& forall|i: int|
        0 <= i < outcomes.len() ==> payload_holds(#[trigger] payloads[i], outcomes[i])
}

/// Whether frames are those of reads that are not too long.
pub open spec fn all_framed(frames: Seq<Seq<u8>>, outcomes: Seq<Option<Seq<u8>>>) -> bool {
    &&& frames.len() == outcomes.len()
    &&& forall|i: int|
        0 <= i < outcomes.len() && (#[trigger] outcomes[i]) is Some ==> outcomes[i]->0.len()
            <= LZ4_MAX_INPUT
    &&& forall|i: int| 0 <= i < frames.len() ==> frames_read(#[trigger] frames[i], outcomes[i])
}

/// The reply to several reads tells everything that was read: its bytes come apart into as many
/// payloads as there were reads, and each restores to the bytes of its read or tells that the read
/// failed.
pub proof fn law_reads_restored(frames: Seq<Seq<u8>>, outcomes: Seq<Option<Seq<u8>>>)
    requires
        all_framed(frames, outcomes),
    ensures
        tells(joined(frames), outcomes),
{
    let payloads = Seq::new(frames.len(), |i: int| framed_payload(frames[i], outcomes[i]));
    assert forall|i: int| 0 <= i < frames.len() implies {
        &&& payload_holds(#[trigger] payloads[i], outcomes[i])
        &&& frames[i] == frame(payloads[i])
        &&& payloads[i] is Some ==> payloads[i]->0.len() <= u32::MAX
    } by {
        assert(frames_read(frames[i], outcomes[i]));
        if let Some(data) = outcomes[i] {
            assert(data.len() <= LZ4_MAX_INPUT);
        }
    }
    assert(frames =~= all_frames(payloads));
    law_frames_split(payloads);
}

/// Whether a read is framed alike every time: one that failed, and one whose compressed block is
/// settled, as every block is where words take eight bytes.
pub open spec fn is_framed_alike(outcome: Option<Seq<u8>>) -> bool {
    match outcome {
        Some(data) => is_settled(data.len()),
        None => true,
    }
}

/// A read is framed alike every time, unless it is long and words take less than eight bytes.
pub proof fn law_framed_alike(a: Seq<u8>, b: Seq<u8>, outcome: Option<Seq<u8>>)
    requires
        is_framed_alike(outcome),
        frames_read(a, outcome),
        frames_read(b, outcome),
    ensures
        a == b,
{
    if let Some(data) = outcome {
        let first = choose|payload: Seq<u8>|
            holds_sized(payload, data) && a == #[trigger] frame(Some(payload));
        let second = choose|payload: Seq<u8>|
            holds_sized(payload, data) && b == #[trigger] frame(Some(payload));
        assert(first =~= first.take(4) + first.skip(4));
        assert(second =~= second.take(4) + second.skip(4));
    }
}

/// The reply to two lists of reads is the replies to each, one after the other, and the reply to
/// no reads is empty. Of three replies made separately, to the first list, to the second and to
/// both, the last tells the same as the first two one after the other, and where every read is
/// framed alike it is the first two one after the other.
pub proof fn law_replies_concatenate(
    first: Seq<Seq<u8>>,
    second: Seq<Seq<u8>>,
    both: Seq<Seq<u8>>,
    outcomes: Seq<Option<Seq<u8>>>,
    more: Seq<Option<Seq<u8>>>,
)
    requires
        all_framed(first, outcomes),
        all_framed(second, more),
        all_framed(both, outcomes + more),
    ensures
        several_reply(Seq::empty()) == served(
            ContentType::OctetStream,
            BodyView::Bytes(Seq::empty()),
        ),
        several_reply(first + second) == served(
            ContentType::OctetStream,
            BodyView::Bytes(joined(first) + joined(second)),
        ),
        tells(joined(both), outcomes + more),
        tells(joined(first) + joined(second), outcomes + more),
        (forall|i: int|
            0 <= i < (outcomes + more).len() ==> is_framed_alike(#[trigger] (outcomes + more)[i]))
            ==> joined(both) == joined(first) + joined(second),
{
    law_joined(Seq::empty(), first, second);
    let frames = first + second;
    let all = outcomes + more;
    assert forall|i: int| 0 <= i < frames.len() implies frames_read(
        #[trigger] frames[i],
        all[i],
    ) by {
        if i < first.len() {
            assert(frames[i] == first[i] && all[i] == outcomes[i]);
        } else {
            assert(frames[i] == second[i - first.len()] && all[i] == more[i - first.len()]);
        }
    }
    law_reads_restored(both, all);
    law_reads_restored(frames, all);
    if forall|i: int| 0 <= i < all.len() ==> is_framed_alike(#[trigger] all[i]) {
        assert forall|i: int| 0 <= i < frames.len() implies frames[i] == both[i] by {
            assert(is_framed_alike(all[i]));
            assert(frames_read(frames[i], all[i]) && frames_read(both[i], all[i]));
            law_framed_alike(frames[i], both[i], all[i]);
        }
        assert(frames =~= both);
    }
}

/// Without a chosen process, requests to read, write, inspect, scan and filter are all refused in
/// the same way; with one, none of them is refused for want of it.
pub proof fn law_refused_without_process(
    pid_state: Option<i32>,
    chunks: Seq<Chunk>,
    scan: ScanRequestView,
    request: FilterRequestView,
    store: StoreView,
)
    ensures
        pid_state is None <==> scan_step(pid_state, scan) == Some(
            ScanStepView::Answer(no_process()),
        ),
        pid_state is None <==> memory_step(pid_state, chunks) == MemoryStepView::Answer(
            no_process(),
        ),
        pid_state is None <==> process_step(pid_state) == ProcessStepView::Answer(no_process()),
        pid_state is None <==> filter_step(pid_state, request, store) == FilterStepView::Answer(
            no_process(),
        ),
{
    reveal_strlit("Pid not set");
    reveal_strlit("Scanid not found");
    assert("Pid not set"@.len() != "Scanid not found"@.len());
}

} // verus!
