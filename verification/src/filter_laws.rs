//! What a filter keeps: which offsets of a remembered chunk survive and what is then listed, and
//! what becomes of a remembered match.

use vstd::prelude::*;
use vstd::utf8::{encode_utf8, is_ascii_chars_encode_utf8};

use crate::bytes::le_bytes;
use crate::filter::{
    chunk_filter_ended, chunks_filtered, entry_matches, filter_step, judged, judged_if_read,
    kept_match, kept_matches, settled, value_filter_ended, FilterStepView, VerdictView,
};
use crate::hexcode::{hex_decoded, hex_encoded, law_hex_round_trip};
use crate::matched::{joined, MatchView};
use crate::number_laws::{
    can_be_written, float_kind, in_units, law_bytes_compare, law_data_types_named,
    law_first_difference, law_floats_compare, law_methods_named, law_whole_number_read,
    law_whole_number_width, law_whole_numbers_compare, not_a_number, whole_kind, written,
};
use crate::order::{at_address, by_address, law_by_address};
use crate::relation::{byte_relation, filter_method, law_byte_relation_equal, FilterMethod};
use crate::reply::BodyView;
use crate::requests::FilterRequestView;
use crate::scan::find_type;
use crate::scan_laws::{lemma_chosen, lemma_chosen_count};
use crate::search::regex_spans;
use crate::snapshot::{
    ascending_below, can_reread, lemma_filter_ascends, reread, EntryView,
};
use crate::store::{result_reply, StoreView};
use crate::values::data_type;

verus! {

/// Where two different byte strings of one length first differ.
proof fn lemma_difference(a: Seq<u8>, b: Seq<u8>) -> (k: int)
    requires
        a.len() == b.len(),
        a != b,
    ensures
        0 <= k < a.len(),
        a[k] != b[k],
        forall|i: int| 0 <= i < k ==> a[i] == b[i],
    decreases a.len(),
{
    if a.len() == 0 {
        assert(a =~= b);
        0
    } else if a[0] != b[0] {
        0
    } else {
        let (x, y) = (a.drop_first(), b.drop_first());
        if x == y {
            assert(a =~= seq![a[0]] + x);
            assert(b =~= seq![b[0]] + y);
        }
        let k = lemma_difference(x, y);
        assert forall|i: int| 0 <= i < k + 1 implies a[i] == b[i] by {
            if i > 0 {
                assert(x[i - 1] == y[i - 1]);
            }
        }
        k + 1
    }
}

/// Whether the `size` bytes of `a` at `at` are above those of `b`: at the first of them that
/// differ, the byte of `a` is the larger number.
pub open spec fn is_above(a: Seq<u8>, b: Seq<u8>, at: int, size: int) -> bool {
    exists|k: int| #[trigger]
        first_difference(a, b, at, size, k) && a[at + k] as int > b[at + k] as int
}

/// Whether the `size` bytes at `at` first differ at the `k`th of them.
pub open spec fn first_difference(a: Seq<u8>, b: Seq<u8>, at: int, size: int, k: int) -> bool {
    &&& 0 <= k < size
    &&& a[at + k] != b[at + k]
    &&& forall|j: int| at <= j < at + k ==> a[j] == b[j]
}

/// Whether the `size` bytes at `at` are the same.
pub open spec fn is_same(a: Seq<u8>, b: Seq<u8>, at: int, size: int) -> bool {
    forall|j: int| at <= j < at + size ==> a[j] == b[j]
}

proof fn lemma_windows(a: Seq<u8>, b: Seq<u8>, at: int, size: int)
    requires
        0 <= at,
        0 <= size,
        at + size <= a.len(),
        at + size <= b.len(),
    ensures
        ({
            let relation = byte_relation(a.subrange(at, at + size), b.subrange(at, at + size));
            &&& relation == crate::relation::Relation::Greater <==> is_above(a, b, at, size)
            &&& relation == crate::relation::Relation::Less <==> is_above(b, a, at, size)
            &&& relation == crate::relation::Relation::Equal <==> is_same(a, b, at, size)
        }),
{
    let (x, y) = (a.subrange(at, at + size), b.subrange(at, at + size));
    law_byte_relation_equal(x, y);
    if x == y {
        assert forall|j: int| at <= j < at + size implies a[j] == b[j] by {
            assert(x[j - at] == y[j - at]);
        }
        assert(!is_above(a, b, at, size));
        assert(!is_above(b, a, at, size));
    } else {
        let k = lemma_difference(x, y);
        law_first_difference(x, y, k);
        assert forall|j: int| at <= j < at + k implies a[j] == b[j] by {
            assert(x[j - at] == y[j - at]);
        }
        assert(first_difference(a, b, at, size, k));
        assert(first_difference(b, a, at, size, k));
        assert(!is_same(a, b, at, size)) by {
            assert(a[at + k] != b[at + k]);
        }
        if is_above(a, b, at, size) {
            let i = choose|i: int| #[trigger]
                first_difference(a, b, at, size, i) && a[at + i] as int > b[at + i] as int;
            assert(i == k) by {
                if i < k {
                    assert(a[at + i] == b[at + i]);
                }
                if k < i {
                    assert(a[at + k] == b[at + k]);
                }
            }
        }
        if is_above(b, a, at, size) {
            let i = choose|i: int| #[trigger]
                first_difference(b, a, at, size, i) && b[at + i] as int > a[at + i] as int;
            assert(i == k) by {
                if i < k {
                    assert(a[at + i] == b[at + i]);
                }
                if k < i {
                    assert(b[at + k] == a[at + k]);
                }
            }
        }
    }
}

/// What is read again of stored offsets: all of them where words take eight bytes, and otherwise
/// none of a single one.
pub proof fn law_reread(offsets: Seq<usize>)
    ensures
        usize::BITS == 64 ==> can_reread(offsets) && reread(offsets) == offsets,
        usize::BITS != 64 ==> (can_reread(offsets) <==> offsets.len() < 2) && reread(offsets).len()
            == 0,
{
}

/// Which offsets the next filter looks at: every byte before the first filter, and what the last
/// one left afterwards.
pub proof fn law_candidates(entry: EntryView, offset: usize)
    requires
        entry.data.len() <= usize::MAX,
    ensures
        entry.is_first ==> (entry.candidates().contains(offset) <==> offset < entry.data.len())
            && entry.has_candidates(),
        !entry.is_first && usize::BITS == 64 ==> (entry.candidates().contains(offset)
            <==> entry.offsets.contains(offset)) && entry.has_candidates(),
{
    if entry.is_first && offset < entry.data.len() {
        assert(entry.candidates()[offset as int] == offset);
    }
}

/// Which offsets survive a filter: of those it looks at, the ones at aligned addresses whose value
/// lies inside the chunk and has changed, not changed, risen or fallen, the bytes being compared as
/// unsigned numbers from the front.
pub proof fn law_survivors(
    entry: EntryView,
    new: Seq<u8>,
    align: usize,
    size: usize,
    name: Seq<char>,
    offset: usize,
)
    requires
        new.len() == entry.data.len(),
    ensures
        ({
            let kept = entry.survivors(new, align, size, filter_method(name)).contains(offset);
            let old = entry.data;
            let at = offset as int;
            let looked_at = entry.candidates().contains(offset) && (entry.address + offset) % (
            align as int) == 0 && offset + size <= old.len();
            &&& name == "changed"@ ==> (kept <==> looked_at && !is_same(new, old, at, size as int))
            &&& name == "unchanged"@ ==> (kept <==> looked_at && is_same(
                new,
                old,
                at,
                size as int,
            ))
            &&& name == "increased"@ ==> (kept <==> looked_at && is_above(
                new,
                old,
                at,
                size as int,
            ))
            &&& name == "decreased"@ ==> (kept <==> looked_at && is_above(
                old,
                new,
                at,
                size as int,
            ))
            &&& name != "changed"@ && name != "unchanged"@ && name != "increased"@ && name
                != "decreased"@ ==> !kept
        }),
{
    law_methods_named(name);
    let method = filter_method(name);
    crate::laws::law_filter_narrows(entry, new, align, size, method, offset);
    if offset + size <= entry.data.len() {
        lemma_windows(new, entry.data, offset as int, size as int);
    }
}

/// What a filter makes of a chunk: it stays at its address, holds what was read, counts what
/// survived, and keeps that in ascending order without repetition. A chunk that could not be read
/// stays as it is and counts nothing.
pub proof fn law_refiltered(
    entry: EntryView,
    new: Seq<u8>,
    align: usize,
    size: usize,
    method: FilterMethod,
    i: int,
    j: int,
)
    requires
        entry.data.len() <= usize::MAX,
        ascending_below(entry.offsets, entry.data.len() as int),
    ensures
        entry.refiltered(None, align, size, method) == entry,
        entry.refound(None, align, size, method) == 0,
        ({
            let after = entry.refiltered(Some(new), align, size, method);
            &&& after.address == entry.address
            &&& after.data == new
            &&& !after.is_first
            &&& after.offsets == entry.survivors(new, align, size, method)
            &&& entry.refound(Some(new), align, size, method) == after.offsets.len()
            &&& 0 <= i < j < after.offsets.len() ==> after.offsets[i] < after.offsets[j]
        }),
{
    let pred = |offset: usize| entry.keeps(new, align, size, method, offset);
    assert(ascending_below(entry.candidates(), entry.data.len() as int));
    lemma_filter_ascends(entry.candidates(), pred, entry.data.len() as int);
}

/// The match at a surviving offset stands at the address of the chunk and the offset, and its value
/// spells the bytes that the chunk holds there.
pub proof fn law_match_at(entry: EntryView, size: usize, i: int)
    requires
        0 <= i < reread(entry.offsets).len(),
        entry.address + reread(entry.offsets)[i] <= usize::MAX,
        reread(entry.offsets)[i] + size <= entry.data.len(),
    ensures
        entry.matches(size).len() == reread(entry.offsets).len(),
        entry.matches(size)[i].address == entry.address + reread(entry.offsets)[i],
        entry.matches(size)[i].value.len() == 2 * size,
        hex_decoded(entry.matches(size)[i].value) == Some(
            entry.data.subrange(
                reread(entry.offsets)[i] as int,
                reread(entry.offsets)[i] + size,
            ),
        ),
{
    let offset = reread(entry.offsets)[i];
    law_hex_round_trip(entry.data.subrange(offset as int, offset + size));
}

/// Whether a chunk can be listed: its offsets are read again and its values lie inside it.
pub proof fn law_fits(entry: EntryView, size: usize)
    ensures
        entry.fits(size) <==> can_reread(entry.offsets) && forall|i: int|
            0 <= i < reread(entry.offsets).len() ==> #[trigger] reread(entry.offsets)[i] + size
                <= entry.data.len(),
{
}

proof fn lemma_joined_contains<T>(lists: Seq<Seq<T>>, x: T)
    ensures
        joined(lists).contains(x) <==> exists|i: int|
            0 <= i < lists.len() && (#[trigger] lists[i]).contains(x),
    decreases lists.len(),
{
    if lists.len() > 0 {
        let front = lists.drop_last();
        lemma_joined_contains(front, x);
        let all = joined(lists);
        let before = joined(front);
        if all.contains(x) {
            let k = choose|k: int| 0 <= k < all.len() && all[k] == x;
            if k < before.len() {
                assert(before[k] == x);
                let i = choose|i: int| 0 <= i < front.len() && (#[trigger] front[i]).contains(x);
                assert(lists[i].contains(x));
            } else {
                assert(lists.last()[k - before.len()] == x);
                assert(lists[lists.len() - 1].contains(x));
            }
        }
        if exists|i: int| 0 <= i < lists.len() && (#[trigger] lists[i]).contains(x) {
            let i = choose|i: int| 0 <= i < lists.len() && (#[trigger] lists[i]).contains(x);
            if i < front.len() {
                assert(front[i].contains(x));
                let k = choose|k: int| 0 <= k < before.len() && before[k] == x;
                assert(all[k] == x);
            } else {
                let k = choose|k: int| 0 <= k < lists.last().len() && lists.last()[k] == x;
                assert(all[before.len() + k] == x);
            }
        }
    }
}

/// Putting a list in order neither loses nor adds a match, and its addresses never fall.
pub proof fn law_ordered_list(list: Seq<MatchView>, m: MatchView, i: int, j: int)
    ensures
        by_address(list).len() == list.len(),
        by_address(list).contains(m) <==> list.contains(m),
        0 <= i <= j < by_address(list).len() ==> by_address(list)[i].address <= by_address(
            list,
        )[j].address,
{
    law_by_address(list);
    let ordered = by_address(list);
    let pred = |x: MatchView| x.address == m.address;
    assert(at_address(ordered, m.address) == at_address(list, m.address));
    if ordered.contains(m) {
        let k = choose|k: int| 0 <= k < ordered.len() && ordered[k] == m;
        ordered.lemma_filter_contains(pred, k);
        assert(at_address(list, m.address).contains(m));
        list.lemma_filter_contains_rev(pred, m);
    }
    if list.contains(m) {
        let k = choose|k: int| 0 <= k < list.len() && list[k] == m;
        list.lemma_filter_contains(pred, k);
        assert(at_address(ordered, m.address).contains(m));
        ordered.lemma_filter_contains_rev(pred, m);
    }
}

/// Matches at the same address keep the order they had.
pub proof fn law_order_is_stable(list: Seq<MatchView>, address: usize)
    ensures
        by_address(list).filter(|m: MatchView| m.address == address) == list.filter(
            |m: MatchView| m.address == address,
        ),
{
    law_by_address(list);
    assert(at_address(by_address(list), address) == at_address(list, address));
}

/// Whether a match is what the `e`th chunk holds at its `k`th surviving offset.
pub open spec fn is_held(
    entries: Seq<EntryView>,
    size: usize,
    m: MatchView,
    e: int,
    k: int,
) -> bool {
    &&& 0 <= e < entries.len()
    &&& 0 <= k < reread(entries[e].offsets).len()
    &&& m.address == entries[e].address + reread(entries[e].offsets)[k]
    &&& m.value == hex_encoded(
        entries[e].data.subrange(
            reread(entries[e].offsets)[k] as int,
            reread(entries[e].offsets)[k] + size,
        ),
    )
}

/// What is remembered after a filter of chunks: with fewer than a million values, a list of exactly
/// what the chunks hold at their surviving offsets, in the order of the addresses, and no chunk;
/// otherwise the chunks as they are, and no match.
pub proof fn law_chunks_listed(
    store: StoreView,
    id: Seq<char>,
    size: usize,
    entries: Seq<EntryView>,
    found: usize,
    m: MatchView,
    i: int,
    j: int,
)
    requires
        forall|e: int, k: int|
            0 <= e < entries.len() && 0 <= k < reread(entries[e].offsets).len()
                ==> entries[e].address + #[trigger] reread(entries[e].offsets)[k] <= usize::MAX,
    ensures
        ({
            let after = chunks_filtered(store, id, size, entries, found);
            let list = after.positions[id];
            &&& after.positions.contains_key(id)
            &&& after.options == store.options
            &&& found < 1_000_000 ==> {
                &&& !after.memory.contains_key(id)
                &&& list.contains(m) <==> exists|e: int, k: int| is_held(entries, size, m, e, k)
                &&& 0 <= i <= j < list.len() ==> list[i].address <= list[j].address
            }
            &&& found >= 1_000_000 ==> {
                &&& after.memory.contains_key(id) && after.memory[id] == entries
                &&& list.len() == 0
            }
        }),
{
    let lists = entries.map_values(|entry: EntryView| entry.matches(size));
    let all = entry_matches(entries, size);
    law_ordered_list(all, m, i, j);
    lemma_joined_contains(lists, m);
    if all.contains(m) {
        let e = choose|e: int| 0 <= e < lists.len() && (#[trigger] lists[e]).contains(m);
        let k = choose|k: int| 0 <= k < lists[e].len() && lists[e][k] == m;
        assert(entries[e].address + reread(entries[e].offsets)[k] <= usize::MAX);
        assert(is_held(entries, size, m, e, k));
    }
    if exists|e: int, k: int| is_held(entries, size, m, e, k) {
        let (e, k) = choose|e: int, k: int| is_held(entries, size, m, e, k);
        assert(entries[e].address + reread(entries[e].offsets)[k] <= usize::MAX);
        assert(lists[e][k] == m);
        assert(lists[e].contains(m));
    }
}

/// What a filter has read again: every remembered chunk where chunks are remembered, in order and
/// as long as it is; otherwise every remembered match, in order, of which as many bytes are kept as
/// its value spells; and nothing where neither is remembered.
pub proof fn law_filter_reads(pid: i32, request: FilterRequestView, store: StoreView, i: int)
    ensures
        ({
            let id = request.scan_id;
            let step = filter_step(Some(pid), request, store);
            &&& store.memory.contains_key(id) ==> {
                &&& step matches FilterStepView::Chunks { pid: asked, suspend, chunks }
                &&& asked == pid && suspend == request.do_suspend
                &&& chunks.len() == store.memory[id].len()
                &&& 0 <= i < chunks.len() ==> {
                    &&& chunks[i].start == store.memory[id][i].address
                    &&& store.memory[id][i].data.len() <= usize::MAX ==> chunks[i].size
                        == store.memory[id][i].data.len()
                }
            }
            &&& !store.memory.contains_key(id) && store.positions.contains_key(id) ==> {
                &&& step matches FilterStepView::Values { pid: asked, suspend, values }
                &&& asked == pid && suspend == request.do_suspend
                &&& values.len() == store.positions[id].len()
                &&& 0 <= i < values.len() ==> {
                    let m = store.positions[id][i];
                    &&& values[i].address == m.address
                    &&& encode_utf8(request.pattern).len() <= usize::MAX ==> values[i].size
                        == encode_utf8(request.pattern).len()
                    &&& hex_decoded(m.value) is Some && m.value.len() <= usize::MAX
                        ==> values[i].keep == hex_decoded(m.value)->0.len()
                }
            }
            &&& !store.memory.contains_key(id) && !store.positions.contains_key(id) ==> {
                &&& step matches FilterStepView::Answer(reply)
                &&& reply.status == 400
                &&& reply.content_type is None
                &&& reply.body == BodyView::Text("Scanid not found"@)
            }
        }),
{
    let id = request.scan_id;
    if store.positions.contains_key(id) && 0 <= i < store.positions[id].len() {
        let m = store.positions[id][i];
        if hex_decoded(m.value) is Some {
            lemma_hex_is_ascii(m.value);
        }
    }
}

proof fn lemma_hex_is_ascii(text: Seq<char>)
    requires
        hex_decoded(text) is Some,
    ensures
        encode_utf8(text).len() == text.len(),
{
    assert forall|i: int| 0 <= i < text.len() implies (text[i] as nat) < 128 by {
        assert(crate::hexcode::hex_value(text[i]) is Some);
    }
    assert(vstd::utf8::is_ascii_chars(text));
    is_ascii_chars_encode_utf8(text);
}

/// A hexadecimal pattern is read as many bytes as it has digits.
pub proof fn law_pattern_read(pid: i32, request: FilterRequestView, store: StoreView, i: int)
    requires
        hex_decoded(request.pattern) is Some,
        request.pattern.len() <= usize::MAX,
        !store.memory.contains_key(request.scan_id),
        store.positions.contains_key(request.scan_id),
        0 <= i < store.positions[request.scan_id].len(),
    ensures
        filter_step(Some(pid), request, store) matches FilterStepView::Values { values, .. }
            && values[i].size == request.pattern.len(),
{
    lemma_hex_is_ascii(request.pattern);
}

/// What is kept of a read has the length asked for: the bytes read as far as they go, and zeros
/// behind them.
pub proof fn law_settled(bytes: Seq<u8>, keep: nat, i: int)
    ensures
        settled(bytes, keep).len() == keep,
        0 <= i < keep && i < bytes.len() ==> settled(bytes, keep)[i] == bytes[i],
        bytes.len() <= i < keep ==> settled(bytes, keep)[i] == 0,
        bytes.len() == keep ==> settled(bytes, keep) == bytes,
{
    if bytes.len() == keep {
        assert(settled(bytes, keep) =~= bytes);
    }
}

/// Whether a match was kept, at its address and with the bytes just read, or dropped.
pub open spec fn is_verdict(
    verdict: Option<VerdictView>,
    keep: bool,
    m: MatchView,
    buffer: Seq<u8>,
) -> bool {
    if keep {
        &&& verdict matches Some(VerdictView::Keep(kept))
        &&& kept.address == m.address
        &&& kept.value == hex_encoded(buffer)
    } else {
        verdict == Some(VerdictView::Drop)
    }
}

/// An exact filter keeps a match exactly where the bytes read are those of the pattern, whatever
/// was remembered, and refuses a pattern that is not hexadecimal.
pub proof fn law_exact_filter(request: FilterRequestView, m: MatchView, buffer: Seq<u8>)
    requires
        request.data_type != "regex"@,
        request.filter_method == "exact"@,
    ensures
        hex_decoded(request.pattern) matches Some(wanted) ==> is_verdict(
            judged(request, m, buffer),
            buffer == wanted,
            m,
            buffer,
        ),
        hex_decoded(request.pattern) is None ==> judged(request, m, buffer) == Some(
            VerdictView::InvalidHex,
        ),
{
    law_data_types_named(request.data_type);
    law_methods_named(request.filter_method);
}

/// A filter by a regular expression keeps a match exactly where the expression matches somewhere
/// in the bytes read, whatever the method; one that is refused matches nothing.
pub proof fn law_regex_filter(request: FilterRequestView, m: MatchView, buffer: Seq<u8>)
    requires
        request.data_type == "regex"@,
    ensures
        is_verdict(
            judged(request, m, buffer),
            regex_spans(request.pattern, buffer) matches Some(spans) && spans.len() > 0,
            m,
            buffer,
        ),
{
    law_data_types_named(request.data_type);
}

/// What cannot be read again is dropped, and what can is judged by its bytes.
pub proof fn law_unread_dropped(request: FilterRequestView, m: MatchView, buffer: Seq<u8>)
    ensures
        judged_if_read(request, m, None) == Some(VerdictView::Drop),
        judged_if_read(request, m, Some(buffer)) == judged(request, m, buffer),
{
}

/// A filter that compares with what was remembered goes by the kind of value: it has an answer
/// where both can be read as that kind, and refuses a remembered value that is not hexadecimal.
pub proof fn law_typed_filter(
    request: FilterRequestView,
    m: MatchView,
    buffer: Seq<u8>,
)
    requires
        request.data_type != "regex"@,
        request.filter_method != "exact"@,
    ensures
        hex_decoded(m.value) is None ==> judged(request, m, buffer) == Some(
            VerdictView::InvalidHex,
        ),
        hex_decoded(m.value) matches Some(old) ==> {
            let kind = data_type(request.data_type);
            if kind.reads(buffer) && kind.reads(old) {
                is_verdict(
                    judged(request, m, buffer),
                    kind.satisfied(filter_method(request.filter_method), buffer, old),
                    m,
                    buffer,
                )
            } else {
                judged(request, m, buffer) is None
            }
        },
{
    law_data_types_named(request.data_type);
    law_methods_named(request.filter_method);
}

/// A filter of whole numbers: for every kind, every remembered number and every number now read,
/// each in its bytes, the match is kept exactly where the numbers satisfy the method.
pub proof fn law_whole_number_filter(
    request: FilterRequestView,
    m: MatchView,
    width: nat,
    signed: bool,
    new: int,
    old: int,
)
    requires
        whole_kind(request.data_type) == Some((width, signed)),
        can_be_written(new, width, signed),
        can_be_written(old, width, signed),
        hex_decoded(m.value) == Some(written(old, width)),
    ensures
        ({
            let buffer = written(new, width);
            let verdict = judged(request, m, buffer);
            let method = request.filter_method;
            &&& method == "changed"@ ==> is_verdict(verdict, new != old, m, buffer)
            &&& method == "unchanged"@ ==> is_verdict(verdict, new == old, m, buffer)
            &&& method == "increased"@ ==> is_verdict(verdict, new > old, m, buffer)
            &&& method == "decreased"@ ==> is_verdict(verdict, new < old, m, buffer)
            &&& method != "exact"@ && method != "changed"@ && method != "unchanged"@ && method
                != "increased"@ && method != "decreased"@ ==> is_verdict(verdict, false, m, buffer)
        }),
{
    law_data_types_named(request.data_type);
    law_methods_named(request.filter_method);
    law_whole_number_read(request.data_type, width, signed, new);
    law_whole_number_read(request.data_type, width, signed, old);
    law_whole_numbers_compare(request.data_type, width, signed, new, old);
}

/// A filter of whole numbers has no answer where either value has another width.
pub proof fn law_whole_number_filter_width(
    request: FilterRequestView,
    m: MatchView,
    width: nat,
    signed: bool,
    buffer: Seq<u8>,
    old: Seq<u8>,
)
    requires
        whole_kind(request.data_type) == Some((width, signed)),
        request.filter_method != "exact"@,
        hex_decoded(m.value) == Some(old),
    ensures
        judged(request, m, buffer) is None <==> buffer.len() != width || old.len() != width,
{
    law_data_types_named(request.data_type);
    law_methods_named(request.filter_method);
    law_whole_number_width(request.data_type, width, signed, buffer);
    law_whole_number_width(request.data_type, width, signed, old);
}

/// A filter of floating-point numbers: for every remembered number and every number now read, each
/// in the bytes of its bits, the match is kept exactly where the numbers satisfy the method.
pub proof fn law_float_filter(
    request: FilterRequestView,
    m: MatchView,
    fraction: nat,
    exponent: nat,
    new: nat,
    old: nat,
)
    requires
        float_kind(request.data_type) == Some((fraction, exponent)),
        new < vstd::arithmetic::power2::pow2(1 + fraction + exponent),
        old < vstd::arithmetic::power2::pow2(1 + fraction + exponent),
        hex_decoded(m.value) == Some(le_bytes(old, ((1 + fraction + exponent) / 8) as nat)),
    ensures
        ({
            let buffer = le_bytes(new, ((1 + fraction + exponent) / 8) as nat);
            let verdict = judged(request, m, buffer);
            let method = request.filter_method;
            let odd = not_a_number(new, fraction, exponent) || not_a_number(
                old,
                fraction,
                exponent,
            );
            let (u, v) = (in_units(new, fraction, exponent), in_units(old, fraction, exponent));
            &&& method == "changed"@ ==> is_verdict(verdict, odd || u != v, m, buffer)
            &&& method == "unchanged"@ ==> is_verdict(verdict, !odd && u == v, m, buffer)
            &&& method == "increased"@ ==> is_verdict(verdict, !odd && u > v, m, buffer)
            &&& method == "decreased"@ ==> is_verdict(verdict, !odd && u < v, m, buffer)
        }),
{
    reveal_strlit("float");
    reveal_strlit("double");
    reveal_strlit("regex");
    law_data_types_named(request.data_type);
    law_methods_named(request.filter_method);
    law_floats_compare(request.data_type, fraction, exponent, new, old);
}

/// A filter of plain bytes keeps what has changed or what has not, and a kind that is not known
/// keeps nothing.
pub proof fn law_bytes_filter(
    request: FilterRequestView,
    m: MatchView,
    buffer: Seq<u8>,
    old: Seq<u8>,
)
    requires
        hex_decoded(m.value) == Some(old),
        request.filter_method != "exact"@,
    ensures
        request.data_type == "aob"@ && request.filter_method == "changed"@ ==> is_verdict(
            judged(request, m, buffer),
            buffer != old,
            m,
            buffer,
        ),
        request.data_type == "aob"@ && request.filter_method == "unchanged"@ ==> is_verdict(
            judged(request, m, buffer),
            buffer == old,
            m,
            buffer,
        ),
        request.data_type == "aob"@ && request.filter_method != "changed"@
            && request.filter_method != "unchanged"@ ==> is_verdict(
            judged(request, m, buffer),
            false,
            m,
            buffer,
        ),
        whole_kind(request.data_type) is None && float_kind(request.data_type) is None
            && request.data_type != "utf-8"@ && request.data_type != "utf-16"@ && request.data_type
            != "aob"@ && request.data_type != "regex"@ ==> is_verdict(
            judged(request, m, buffer),
            false,
            m,
            buffer,
        ),
{
    law_data_types_named(request.data_type);
    law_methods_named(request.filter_method);
    let method = filter_method(request.filter_method);
    law_bytes_compare(request.data_type, buffer, old, method);
    law_bytes_compare(request.data_type, old, buffer, method);
}

/// The end of a filter of remembered matches: one text that is not hexadecimal refuses the whole
/// and changes nothing; otherwise the matches kept, in order, replace those of the scan and no
/// other, and are told and counted.
pub proof fn law_value_filter_ended(
    store: StoreView,
    request: FilterRequestView,
    verdicts: Seq<VerdictView>,
    i: int,
)
    ensures
        ({
            let (after, reply) = value_filter_ended(store, request, verdicts);
            let id = request.scan_id;
            let kept = after.positions[id];
            let refused = exists|k: int|
                0 <= k < verdicts.len() && #[trigger] verdicts[k] == VerdictView::InvalidHex;
            &&& refused ==> {
                &&& after == store
                &&& reply.status == 400
                &&& reply.content_type is None
                &&& reply.body == BodyView::Text("Invalid hex pattern"@)
            }
            &&& !refused ==> {
                &&& after.positions.contains_key(id)
                &&& after.memory == store.memory
                &&& after.options == store.options
                &&& forall|other: Seq<char>|
                    other != id ==> (#[trigger] after.positions.contains_key(other)
                        == store.positions.contains_key(other)) && (store.positions.contains_key(
                        other,
                    ) ==> after.positions[other] == store.positions[other])
                &&& 0 <= i < verdicts.len() ==> (verdicts[i] matches VerdictView::Keep(m)
                    ==> kept.contains(m))
                &&& 0 <= i < kept.len() ==> verdicts.contains(VerdictView::Keep(kept[i]))
                &&& kept.len() == verdicts.filter(|verdict: VerdictView| verdict is Keep).len()
                &&& reply == result_reply(
                    find_type(store.options[id].find_type),
                    request.return_as_json,
                    kept,
                    kept.len() as usize,
                )
            }
        }),
{
    let f = |verdict: VerdictView| kept_match(verdict);
    let kept = kept_matches(verdicts);
    if 0 <= i < verdicts.len() && verdicts[i] is Keep {
        lemma_chosen(verdicts, f, i);
    }
    if 0 <= i < kept.len() {
        assert(kept.contains(kept[i]));
        verdicts.lemma_filter_map_contains(f, kept[i]);
    }
    let taken = |verdict: VerdictView| verdict is Keep;
    assert forall|verdict: VerdictView| #[trigger] taken(verdict) <==> f(verdict) is Some by {}
    lemma_chosen_count(verdicts, f, taken);
    if verdicts.contains(VerdictView::InvalidHex) {
        let k = choose|k: int|
            0 <= k < verdicts.len() && verdicts[k] == VerdictView::InvalidHex;
        assert(verdicts[k] == VerdictView::InvalidHex);
    }
}

/// The end of a filter of remembered chunks: it has an answer wherever a million values or more
/// were found or every chunk can be listed, and then tells what is remembered afterwards and the
/// count; otherwise the filtered chunks are remembered.
pub proof fn law_chunk_filter_ended(
    store: StoreView,
    request: FilterRequestView,
    entries: Seq<EntryView>,
    found: usize,
)
    ensures
        ({
            let (after, reply) = chunk_filter_ended(store, request, entries, found);
            let id = request.scan_id;
            let size = data_type(request.data_type).spec_size();
            let listable = forall|i: int|
                0 <= i < entries.len() ==> (#[trigger] entries[i]).fits(size);
            &&& reply is Some <==> found >= 1_000_000 || listable
            &&& reply is Some ==> after == chunks_filtered(store, id, size, entries, found)
            &&& reply matches Some(told) ==> told == result_reply(
                find_type(store.options[id].find_type),
                request.return_as_json,
                after.positions[id],
                found,
            )
            &&& reply is None ==> {
                &&& after.memory.contains_key(id) && after.memory[id] == entries
                &&& after.positions == store.positions
                &&& after.options == store.options
            }
        }),
{
}

} // verus!
