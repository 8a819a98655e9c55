//! What a scan finds: how ranges are cut up, which places of a pattern are matches, what is
//! remembered of a chunk, and what the reply tells.

use vstd::prelude::*;

use crate::chunks::{chunk_at, chunk_count, chunks_of, range_fits};
use crate::hexcode::{hex_decoded, hex_encoded};
use crate::matched::{joined, MatchView};
use crate::number_laws::{law_data_types_named, law_find_types_named, law_sizes_named};
use crate::reply::{BodyView, ContentType};
use crate::requests::ScanRequestView;
use crate::scan::{
    address_matches, all_reported, drift, find_type, place_match, places_fit, reported, scan_step,
    scanned, scanned_if_read, span_match, ChunkView, ScanStepView,
};
use crate::search::{law_occurrences, occurrences, occurs_at, regex_spans, spans_within};
use crate::snapshot::EntryView;
use crate::store::{handed_back, result_reply, wrapped_total, StoreView};

verus! {

/// What a choice gives for a chosen element is among what it gives for all.
pub proof fn lemma_chosen<A, B>(all: Seq<A>, f: spec_fn(A) -> Option<B>, i: int)
    requires
        0 <= i < all.len(),
        f(all[i]) is Some,
    ensures
        all.filter_map(f).contains(f(all[i])->0),
    decreases all.len(),
{
    let out = all.filter_map(f);
    let front = all.drop_last();
    let shorter = front.filter_map(f);
    if i == all.len() - 1 {
        assert(out[out.len() - 1] == f(all[i])->0);
    } else {
        lemma_chosen(front, f, i);
        let k = choose|k: int| 0 <= k < shorter.len() && shorter[k] == f(front[i])->0;
        assert(out[k] == shorter[k]);
    }
}

/// A choice that takes everything gives as much as there is, in order.
pub proof fn lemma_all_chosen<A, B>(all: Seq<A>, f: spec_fn(A) -> Option<B>)
    requires
        forall|i: int| 0 <= i < all.len() ==> f(#[trigger] all[i]) is Some,
    ensures
        all.filter_map(f).len() == all.len(),
        forall|i: int| 0 <= i < all.len() ==> #[trigger] all.filter_map(f)[i] == f(all[i])->0,
    decreases all.len(),
{
    if all.len() > 0 {
        let front = all.drop_last();
        assert forall|i: int| 0 <= i < front.len() implies f(#[trigger] front[i]) is Some by {
            assert(front[i] == all[i]);
        }
        lemma_all_chosen(front, f);
        assert(f(all[all.len() - 1]) is Some);
        let shorter = front.filter_map(f);
        assert forall|i: int| 0 <= i < all.len() implies #[trigger] all.filter_map(f)[i] == f(
            all[i],
        )->0 by {
            if i < front.len() {
                assert(all.filter_map(f)[i] == shorter[i]);
                assert(front[i] == all[i]);
            }
        }
    }
}

/// A choice gives as much as there is to be taken.
pub proof fn lemma_chosen_count<A, B>(
    all: Seq<A>,
    f: spec_fn(A) -> Option<B>,
    taken: spec_fn(A) -> bool,
)
    requires
        forall|a: A| #[trigger] taken(a) <==> f(a) is Some,
    ensures
        all.filter_map(f).len() == all.filter(taken).len(),
    decreases all.len(),
{
    reveal(Seq::filter);
    if all.len() > 0 {
        lemma_chosen_count(all.drop_last(), f, taken);
        assert(taken(all.last()) <==> f(all.last()) is Some);
    }
}

/// When a range can be cut up: it does not run backwards, and the pieces of sixteen mebibytes that
/// begin inside it all end inside the address space.
pub proof fn law_range_fits(start: usize, end: usize)
    ensures
        range_fits(start, end) <==> {
            &&& start <= end
            &&& end - start + 0xFF_FFFF <= usize::MAX
            &&& forall|i: int|
                i >= 0 && #[trigger] (start + i * 0x100_0000) < end ==> start + i * 0x100_0000
                    + 0x100_0000 <= usize::MAX
        },
        start <= end && end <= usize::MAX - 0x100_0000 ==> range_fits(start, end),
{
    if start <= end {
        let count = chunk_count(start, end);
        assert(start + count * 0x100_0000 < end + 0x100_0000);
        if count > 0 {
            let last = count - 1;
            assert(start + last * 0x100_0000 < end);
        }
        assert forall|i: int|
            range_fits(start, end) && i >= 0 && #[trigger] (start + i * 0x100_0000) < end implies
            start + i * 0x100_0000 + 0x100_0000 <= usize::MAX by {
            assert(i < count);
        }
    }
}

/// The pieces of a range: all but the last take sixteen mebibytes, the last takes the rest, and
/// every address of the range lies in exactly one, which is the one counted off for it.
pub proof fn law_range_pieces(start: usize, end: usize, address: int, i: int)
    requires
        range_fits(start, end),
    ensures
        0 <= i < chunks_of(start, end).len() ==> chunks_of(start, end)[i].start == start + i
            * 0x100_0000 && (if i < chunks_of(start, end).len() - 1 {
            chunks_of(start, end)[i].size == 0x100_0000
        } else {
            chunks_of(start, end)[i].start + chunks_of(start, end)[i].size == end
        }),
        start <= address < end && 0 <= i < chunks_of(start, end).len() ==> (
        chunks_of(start, end)[i].start <= address < chunks_of(start, end)[i].start
            + chunks_of(start, end)[i].size <==> i == (address - start) / 0x100_0000),
        start <= address < end ==> (address - start) / 0x100_0000 < chunks_of(start, end).len(),
{
    crate::chunks::law_chunks_tile(start, end);
    if 0 <= i < chunks_of(start, end).len() {
        assert(chunks_of(start, end)[i] == chunk_at(start, end, i));
    }
}

/// A scan of a chosen process reads every range of the request, in the order of the ranges, and
/// suspends the process exactly where that is asked for; it has no answer only where a range cannot
/// be cut up.
pub proof fn law_scan_reads(request: ScanRequestView, pid: i32, i: int)
    requires
        0 <= i < request.address_ranges.len(),
    ensures
        scan_step(Some(pid), request) matches Some(step) ==> {
            &&& step matches ScanStepView::Scan { pid: asked, suspend, ranges }
            &&& asked == pid
            &&& suspend == request.do_suspend
            &&& ranges.len() == request.address_ranges.len()
            &&& ranges[i] == chunks_of(request.address_ranges[i].0, request.address_ranges[i].1)
            &&& range_fits(request.address_ranges[i].0, request.address_ranges[i].1)
        },
        (forall|k: int|
            0 <= k < request.address_ranges.len() ==> range_fits(
                (#[trigger] request.address_ranges[k]).0,
                request.address_ranges[k].1,
            )) ==> scan_step(Some(pid), request) is Some,
{
}

/// The places where a needle stands: at each of them its bytes stand; none begins before the one
/// in front has ended; and wherever its bytes stand, that place is among them or inside one.
pub proof fn law_places(haystack: Seq<u8>, needle: Seq<u8>, at: int, i: int, j: int)
    requires
        haystack.len() <= usize::MAX,
    ensures
        ({
            let places = occurrences(haystack, needle, 0);
            let n = needle.len();
            &&& 0 <= i < places.len() ==> places[i] + n <= haystack.len() && haystack.subrange(
                places[i] as int,
                places[i] + n,
            ) == needle
            &&& 0 <= i < j < places.len() ==> places[i] + n <= places[j] && places[i] < places[j]
            &&& 0 <= at && at + n <= haystack.len() && haystack.subrange(at, at + n) == needle
                ==> exists|k: int|
                0 <= k < places.len() && (#[trigger] places[k] == at || places[k] < at < places[k]
                    + n)
        }),
{
    law_occurrences(haystack, needle, 0);
    let places = occurrences(haystack, needle, 0);
    if 0 <= i < places.len() {
        assert(occurs_at(haystack, needle, places[i] as int));
    }
    if 0 <= at && at + needle.len() <= haystack.len() && haystack.subrange(at, at + needle.len())
        == needle {
        assert(occurs_at(haystack, needle, at));
    }
}

/// The address reported for the first place is its own, and every later one is reported as far
/// behind the one before it as the later place lies in the chunk, and one more.
pub proof fn law_reported_step(base: usize, places: Seq<usize>, i: int)
    requires
        0 <= i < places.len(),
    ensures
        i == 0 ==> reported(base, places, i) == base + places[i],
        i > 0 ==> reported(base, places, i) == reported(base, places, i - 1) + places[i] + 1,
{
}

/// The addresses of all places can be counted exactly where none of them lies behind the address
/// space, the very last address counting as behind it in a chunk that begins at zero.
pub proof fn law_places_counted(base: usize, places: Seq<usize>)
    ensures
        places_fit(base, places) <==> forall|i: int|
            0 <= i < places.len() ==> #[trigger] reported(base, places, i) <= usize::MAX && (base
                > 0 || reported(base, places, i) < usize::MAX),
{
    assert forall|i: int| 0 <= i < places.len() implies drift(places, i + 1) == #[trigger] reported(
        base,
        places,
        i,
    ) - base + 1 by {}
}

proof fn lemma_reported_rise(base: usize, places: Seq<usize>, i: int, j: int)
    requires
        0 <= i < j < places.len(),
    ensures
        reported(base, places, i) < reported(base, places, j),
    decreases j,
{
    law_reported_step(base, places, j);
    if i < j - 1 {
        lemma_reported_rise(base, places, i, j - 1);
    }
}

proof fn lemma_reported_from(base: usize, places: Seq<usize>, i: int)
    requires
        0 <= i < places.len(),
    ensures
        reported(base, places, i) >= base,
{
    if i > 0 {
        lemma_reported_rise(base, places, 0, i);
    }
}

proof fn lemma_addresses_rise(addresses: Seq<int>, align: usize, value: Seq<char>, last: int)
    requires
        forall|i: int| 0 <= i < addresses.len() ==> 0 <= #[trigger] addresses[i] <= usize::MAX,
        forall|i: int, j: int| 0 <= i < j < addresses.len() ==> addresses[i] < addresses[j],
        forall|i: int| 0 <= i < addresses.len() ==> #[trigger] addresses[i] < last,
    ensures
        forall|i: int, j: int|
            0 <= i < j < address_matches(addresses, align, value).len() ==> address_matches(
                addresses,
                align,
                value,
            )[i].address < address_matches(addresses, align, value)[j].address,
        forall|i: int|
            0 <= i < address_matches(addresses, align, value).len() ==> (
            #[trigger] address_matches(addresses, align, value)[i]).address < last,
    decreases addresses.len(),
{
    if addresses.len() > 0 {
        let front = addresses.drop_last();
        let top = addresses.last();
        assert(addresses[addresses.len() - 1] == top);
        assert forall|i: int| 0 <= i < front.len() implies 0 <= #[trigger] front[i] <= usize::MAX
            && front[i] < top by {
            assert(front[i] == addresses[i]);
        }
        lemma_addresses_rise(front, align, value, top);
        let all = address_matches(addresses, align, value);
        let shorter = address_matches(front, align, value);
        assert forall|i: int| 0 <= i < all.len() implies (#[trigger] all[i]).address < last by {
            if i < shorter.len() {
                assert(all[i] == shorter[i]);
            }
        }
        assert forall|i: int, j: int| 0 <= i < j < all.len() implies all[i].address
            < all[j].address by {
            assert(all[i] == shorter[i]);
            if j < shorter.len() {
                assert(all[j] == shorter[j]);
            }
        }
    }
}

/// Whether a search found, for the places of a pattern, exactly the matches it should: every place
/// whose reported address is divisible by the alignment, whatever that address is, and nothing
/// else, in ascending order, each with the pattern as its value.
pub open spec fn finds_places(
    chunk: ChunkView,
    base: usize,
    align: usize,
    places: Seq<usize>,
    pattern: Seq<char>,
) -> bool {
    let list = chunk.positions;
    &&& chunk.found == list.len()
    &&& chunk.snapshot is None
    &&& forall|i: int|
        0 <= i < places.len() && #[trigger] reported(base, places, i) % (align as int) == 0
            ==> list.contains(
            MatchView { address: reported(base, places, i) as usize, value: pattern },
        )
    &&& forall|k: int|
        0 <= k < list.len() ==> (#[trigger] list[k]).value == pattern && list[k].address % align
            == 0 && exists|i: int|
            0 <= i < places.len() && #[trigger] reported(base, places, i) == list[k].address
    &&& forall|j: int, k: int|
        0 <= j < k < list.len() ==> list[j].address < list[k].address
    &&& align == 1 ==> list.len() == places.len() && forall|i: int|
        0 <= i < places.len() ==> (#[trigger] list[i]).address == reported(base, places, i)
}

/// An exact search for bytes is complete and finds nothing else, and has an answer wherever the
/// reported addresses can be counted.
pub proof fn law_exact_scan(
    request: ScanRequestView,
    base: usize,
    buffer: Seq<u8>,
    needle: Seq<u8>,
)
    requires
        request.find_type == "exact"@,
        request.data_type != "regex"@,
        hex_decoded(request.pattern) == Some(needle),
        request.align > 0,
    ensures
        ({
            let places = occurrences(buffer, needle, 0);
            &&& scanned(request, base, buffer) is Some <==> forall|i: int|
                0 <= i < places.len() ==> #[trigger] reported(base, places, i) <= usize::MAX && (
                base > 0 || reported(base, places, i) < usize::MAX)
            &&& scanned(request, base, buffer) matches Some(chunk) ==> finds_places(
                chunk,
                base,
                request.align,
                places,
                request.pattern,
            )
        }),
{
    law_find_types_named(request.find_type);
    law_data_types_named(request.data_type);
    let places = occurrences(buffer, needle, 0);
    law_places_counted(base, places);
    if let Some(chunk) = scanned(request, base, buffer) {
        let addresses = all_reported(base, places);
        let f = |address: int| place_match(request.align, request.pattern, address);
        let list = chunk.positions;
        assert(list == addresses.filter_map(f));
        assert forall|i: int| 0 <= i < places.len() implies 0 <= #[trigger] reported(
            base,
            places,
            i,
        ) <= usize::MAX by {
            lemma_reported_from(base, places, i);
        }
        assert forall|i: int| 0 <= i < addresses.len() implies 0 <= #[trigger] addresses[i]
            <= usize::MAX by {
            assert(0 <= reported(base, places, i) <= usize::MAX);
        }
        assert forall|i: int|
            0 <= i < places.len() && #[trigger] reported(base, places, i) % (request.align as int)
                == 0 implies list.contains(
            MatchView { address: reported(base, places, i) as usize, value: request.pattern },
        ) by {
            assert(addresses[i] == reported(base, places, i));
            lemma_chosen(addresses, f, i);
        }
        assert forall|k: int| 0 <= k < list.len() implies (#[trigger] list[k]).value
            == request.pattern && list[k].address % request.align == 0 && exists|i: int|
            0 <= i < places.len() && #[trigger] reported(base, places, i) == list[k].address by {
            assert(list.contains(list[k]));
            addresses.lemma_filter_map_contains(f, list[k]);
            let address = choose|address: int| #[trigger]
                addresses.contains(address) && f(address) == Some(list[k]);
            let i = choose|i: int| 0 <= i < addresses.len() && addresses[i] == address;
            assert(reported(base, places, i) == address);
        }
        assert forall|i: int, j: int| 0 <= i < j < addresses.len() implies addresses[i]
            < addresses[j] by {
            lemma_reported_rise(base, places, i, j);
        }
        lemma_addresses_rise(addresses, request.align, request.pattern, usize::MAX + 1);
        if request.align == 1 {
            assert forall|i: int| 0 <= i < addresses.len() implies f(
                #[trigger] addresses[i],
            ) is Some by {}
            lemma_all_chosen(addresses, f);
            assert forall|i: int| 0 <= i < places.len() implies (#[trigger] list[i]).address
                == reported(base, places, i) by {
                assert(addresses[i] == reported(base, places, i));
                assert(addresses.filter_map(f)[i] == f(addresses[i])->0);
            }
        }
    }
}

/// The first place where a value stands in a chunk, at an aligned address, is the first match, at
/// that address.
pub proof fn law_first_match(
    request: ScanRequestView,
    base: usize,
    buffer: Seq<u8>,
    needle: Seq<u8>,
    p: int,
)
    requires
        request.find_type == "exact"@,
        request.data_type != "regex"@,
        hex_decoded(request.pattern) == Some(needle),
        request.align > 0,
        buffer.len() <= usize::MAX,
        scanned(request, base, buffer) is Some,
        0 <= p,
        p + needle.len() <= buffer.len(),
        buffer.subrange(p, p + needle.len()) == needle,
        forall|q: int|
            0 <= q < p ==> #[trigger] buffer.subrange(q, q + needle.len()) != needle,
        (base + p) % (request.align as int) == 0,
    ensures
        scanned(request, base, buffer)->0.positions.len() > 0,
        scanned(request, base, buffer)->0.positions[0].address == base + p,
        scanned(request, base, buffer)->0.positions[0].value == request.pattern,
{
    law_exact_scan(request, base, buffer, needle);
    let places = occurrences(buffer, needle, 0);
    let list = scanned(request, base, buffer)->0.positions;
    law_places(buffer, needle, p, 0, 0);
    let k = choose|k: int|
        0 <= k < places.len() && (#[trigger] places[k] == p || places[k] < p < places[k]
            + needle.len());
    law_places(buffer, needle, p, k, k);
    if places[k] < p {
        assert(buffer.subrange(places[k] as int, places[k] + needle.len()) == needle);
    }
    law_places(buffer, needle, p, 0, k);
    if k > 0 {
        assert(buffer.subrange(places[0] as int, places[0] + needle.len()) == needle);
    }
    law_reported_step(base, places, 0);
    assert(reported(base, places, 0) == base + p);
    let m = MatchView { address: (base + p) as usize, value: request.pattern };
    assert(list.contains(m));
    let at = choose|at: int| 0 <= at < list.len() && list[at] == m;
    if at > 0 {
        assert(list[0].address < list[at].address);
        let i = choose|i: int|
            0 <= i < places.len() && #[trigger] reported(base, places, i) == list[0].address;
        if i > 0 {
            lemma_reported_rise(base, places, 0, i);
        }
    }
}

/// A search finds nothing where the pattern cannot be understood, where it is not known what to
/// look for, and where the chunk could not be read.
pub proof fn law_nothing_found(request: ScanRequestView, base: usize, buffer: Seq<u8>)
    ensures
        ({
            let nothing = ChunkView { positions: Seq::empty(), snapshot: None, found: 0 };
            &&& request.find_type == "exact"@ && request.data_type != "regex"@ && hex_decoded(
                request.pattern,
            ) is None ==> scanned(request, base, buffer) == Some(nothing)
            &&& request.find_type == "exact"@ && request.data_type == "regex"@ && regex_spans(
                request.pattern,
                buffer,
            ) is None ==> scanned(request, base, buffer) == Some(nothing)
            &&& request.find_type != "exact"@ && request.find_type != "unknown"@ ==> scanned(
                request,
                base,
                buffer,
            ) == Some(nothing)
            &&& scanned_if_read(request, base, None) == Some(nothing)
            &&& scanned_if_read(request, base, Some(buffer)) == scanned(request, base, buffer)
        }),
{
    law_find_types_named(request.find_type);
    law_data_types_named(request.data_type);
    let none = Seq::<MatchView>::empty();
    assert(none.len() == 0);
}

/// Without an alignment a search has an answer exactly where there is nothing to be aligned.
pub proof fn law_no_alignment(request: ScanRequestView, base: usize, buffer: Seq<u8>)
    requires
        request.find_type == "exact"@,
        request.align == 0,
    ensures
        request.data_type == "regex"@ ==> (scanned(request, base, buffer) is None <==> (
        regex_spans(request.pattern, buffer) matches Some(spans) && spans.len() > 0)),
        request.data_type != "regex"@ ==> (scanned(request, base, buffer) is None <==> (
        hex_decoded(request.pattern) matches Some(needle) && occurrences(buffer, needle, 0).len()
            > 0)),
{
    law_find_types_named(request.find_type);
    law_data_types_named(request.data_type);
}

/// A search for a regular expression gives every span that begins at an aligned address, and
/// nothing else, each at its own address and with the bytes it covers.
pub proof fn law_regex_scan(
    request: ScanRequestView,
    base: usize,
    buffer: Seq<u8>,
    spans: Seq<(usize, usize)>,
)
    requires
        request.find_type == "exact"@,
        request.data_type == "regex"@,
        regex_spans(request.pattern, buffer) == Some(spans),
        spans_within(spans, buffer.len() as int),
        base + buffer.len() <= usize::MAX,
        request.align > 0,
    ensures
        scanned(request, base, buffer) matches Some(chunk) && {
            let list = chunk.positions;
            let align = request.align as int;
            &&& chunk.found == list.len()
            &&& chunk.snapshot is None
            &&& list.len() == spans.filter(
                |span: (usize, usize)| (base + span.0) % align == 0,
            ).len()
            &&& forall|i: int|
                0 <= i < spans.len() && (base + (#[trigger] spans[i]).0) % align == 0
                    ==> list.contains(
                    MatchView {
                        address: (base + spans[i].0) as usize,
                        value: hex_encoded(
                            buffer.subrange(spans[i].0 as int, spans[i].1 as int),
                        ),
                    },
                )
            &&& forall|k: int|
                0 <= k < list.len() ==> (#[trigger] list[k]).address % request.align == 0
                    && exists|i: int|
                    0 <= i < spans.len() && list[k].address == base + (#[trigger] spans[i]).0
                        && hex_decoded(list[k].value) == Some(
                        buffer.subrange(spans[i].0 as int, spans[i].1 as int),
                    )
            &&& request.align == 1 ==> list.len() == spans.len() && forall|i: int|
                0 <= i < spans.len() ==> (#[trigger] list[i]).address == base + spans[i].0
        },
{
    law_find_types_named(request.find_type);
    law_data_types_named(request.data_type);
    let chunk = scanned(request, base, buffer)->0;
    let list = chunk.positions;
    let align = request.align as int;
    let f = |span: (usize, usize)| span_match(base, request.align, buffer, span);
    let taken = |span: (usize, usize)| (base + span.0) % align == 0;
    assert(list == spans.filter_map(f));
    assert forall|span: (usize, usize)| #[trigger] taken(span) <==> f(span) is Some by {}
    lemma_chosen_count(spans, f, taken);
    assert forall|i: int|
        0 <= i < spans.len() && (base + (#[trigger] spans[i]).0) % align == 0 implies list.contains(
        MatchView {
            address: (base + spans[i].0) as usize,
            value: hex_encoded(buffer.subrange(spans[i].0 as int, spans[i].1 as int)),
        },
    ) by {
        lemma_chosen(spans, f, i);
    }
    assert forall|k: int| 0 <= k < list.len() implies (#[trigger] list[k]).address % request.align
        == 0 && exists|i: int|
        0 <= i < spans.len() && list[k].address == base + (#[trigger] spans[i]).0 && hex_decoded(
            list[k].value,
        ) == Some(buffer.subrange(spans[i].0 as int, spans[i].1 as int)) by {
        assert(list.contains(list[k]));
        spans.lemma_filter_map_contains(f, list[k]);
        let span = choose|span: (usize, usize)| #[trigger]
            spans.contains(span) && f(span) == Some(list[k]);
        let i = choose|i: int| 0 <= i < spans.len() && spans[i] == span;
        assert(spans[i].0 <= spans[i].1 <= buffer.len());
        crate::hexcode::law_hex_round_trip(
            buffer.subrange(spans[i].0 as int, spans[i].1 as int),
        );
    }
    if request.align == 1 {
        assert forall|i: int| 0 <= i < spans.len() implies f(#[trigger] spans[i]) is Some by {}
        lemma_all_chosen(spans, f);
        assert forall|i: int| 0 <= i < spans.len() implies (#[trigger] list[i]).address == base
            + spans[i].0 by {
            assert(spans[i].0 <= spans[i].1 <= buffer.len());
            assert(spans.filter_map(f)[i] == f(spans[i])->0);
        }
    }
}

/// A scan for unknown values remembers the whole chunk as it was read, with nothing filtered yet,
/// lists nothing, and counts how often a value of the kind fits in the chunk.
pub proof fn law_unknown_scan(request: ScanRequestView, base: usize, buffer: Seq<u8>)
    requires
        request.find_type == "unknown"@,
    ensures
        scanned(request, base, buffer) matches Some(chunk) && {
            let name = request.data_type;
            &&& chunk.positions.len() == 0
            &&& chunk.snapshot matches Some(entry)
            &&& entry.address == base
            &&& entry.data == buffer
            &&& entry.is_first
            &&& entry.offsets.len() == 0
            &&& name == "int16"@ || name == "uint16"@ ==> chunk.found == buffer.len() / 2
            &&& name == "int32"@ || name == "uint32"@ || name == "float"@ ==> chunk.found
                == buffer.len() / 4
            &&& name == "int64"@ || name == "uint64"@ || name == "double"@ ==> chunk.found
                == buffer.len() / 8
            &&& !(name == "int16"@ || name == "uint16"@ || name == "int32"@ || name == "uint32"@
                || name == "float"@ || name == "int64"@ || name == "uint64"@ || name
                == "double"@) ==> chunk.found == buffer.len()
        },
{
    law_find_types_named(request.find_type);
    law_data_types_named(request.data_type);
    law_sizes_named(request.data_type);
}

/// The exact sum of several counts.
pub open spec fn exact_total(counts: Seq<usize>) -> int
    decreases counts.len(),
{
    if counts.len() == 0 {
        0
    } else {
        counts[0] + exact_total(counts.drop_first())
    }
}

proof fn lemma_exact_total_push(counts: Seq<usize>, more: usize)
    ensures
        exact_total(counts.push(more)) == exact_total(counts) + more,
    decreases counts.len(),
{
    reveal_with_fuel(exact_total, 2);
    if counts.len() == 0 {
        assert(counts.push(more).drop_first() =~= Seq::empty());
    } else {
        lemma_exact_total_push(counts.drop_first(), more);
        assert(counts.push(more).drop_first() =~= counts.drop_first().push(more));
    }
}

/// Counts are added up exactly, starting over behind the largest machine word.
pub proof fn law_wrapped_total(counts: Seq<usize>)
    ensures
        wrapped_total(counts) == exact_total(counts) % (usize::MAX + 1),
        exact_total(counts) <= usize::MAX ==> wrapped_total(counts) == exact_total(counts),
        0 <= exact_total(counts),
    decreases counts.len(),
{
    let all: int = usize::MAX + 1;
    if counts.len() == 0 {
        assert(0int % all == 0) by (nonlinear_arith)
            requires
                all > 0,
        ;
    } else {
        let front = counts.drop_last();
        law_wrapped_total(front);
        lemma_exact_total_push(front, counts.last());
        assert(front.push(counts.last()) =~= counts);
        let (a, b) = (exact_total(front), counts.last() as int);
        let r = a % all;
        vstd::arithmetic::div_mod::lemma_fundamental_div_mod(a, all);
        vstd::arithmetic::div_mod::lemma_mod_bound(a, all);
        let q = a / all;
        if r + b < all {
            assert(a + b == q * all + (r + b)) by (nonlinear_arith)
                requires
                    a == all * q + r,
            ;
            vstd::arithmetic::div_mod::lemma_fundamental_div_mod_converse(a + b, all, q, r + b);
        } else {
            assert(a + b == (q + 1) * all + (r + b - all)) by (nonlinear_arith)
                requires
                    a == all * q + r,
            ;
            vstd::arithmetic::div_mod::lemma_fundamental_div_mod_converse(
                a + b,
                all,
                q + 1,
                r + b - all,
            );
        }
        if a + b <= usize::MAX {
            vstd::arithmetic::div_mod::lemma_fundamental_div_mod_converse(a + b, all, 0, a + b);
        }
    }
}

/// What is remembered of a recorded chunk: more than a hundred thousand matches go behind those
/// remembered and none is handed back; fewer are all handed back and none is remembered yet; and a
/// chunk that is kept goes behind those kept before.
pub proof fn law_recorded(store: StoreView, id: Seq<char>, chunk: ChunkView)
    ensures
        ({
            let after = store.recorded(id, chunk);
            let n = chunk.positions.len();
            &&& n > 100_000 ==> {
                &&& handed_back(chunk).len() == 0
                &&& after.positions.contains_key(id)
                &&& after.positions[id] == (if store.positions.contains_key(id) {
                    store.positions[id] + chunk.positions
                } else {
                    chunk.positions
                })
            }
            &&& n <= 100_000 ==> {
                &&& handed_back(chunk) == chunk.positions
                &&& after.positions == store.positions
            }
            &&& chunk.snapshot is None ==> after.memory == store.memory
            &&& chunk.snapshot matches Some(entry) ==> {
                &&& after.memory.contains_key(id)
                &&& after.memory[id] == (if store.memory.contains_key(id) {
                    store.memory[id].push(entry)
                } else {
                    seq![entry]
                })
            }
            &&& after.options == store.options
        }),
{
    assert(Seq::<MatchView>::empty() + chunk.positions =~= chunk.positions);
    if let Some(entry) = chunk.snapshot {
        assert(Seq::<EntryView>::empty().push(entry) =~= seq![entry]);
    }
}

/// What is remembered when a scan begins, when matches are added and when they are replaced.
pub proof fn law_remembered(
    store: StoreView,
    request: ScanRequestView,
    id: Seq<char>,
    more: Seq<MatchView>,
)
    ensures
        ({
            let begun = store.begun(request);
            let mine = request.scan_id;
            &&& begun.options.contains_key(mine) && begun.options[mine] == request
            &&& begun.positions.contains_key(mine) == store.positions.contains_key(mine)
            &&& begun.positions.contains_key(mine) ==> begun.positions[mine].len() == 0
            &&& begun.memory.contains_key(mine) == store.memory.contains_key(mine)
            &&& begun.memory.contains_key(mine) ==> begun.memory[mine].len() == 0
        }),
        store.extended(id, more).positions.contains_key(id),
        store.extended(id, more).positions[id] == (if store.positions.contains_key(id) {
            store.positions[id] + more
        } else {
            more
        }),
        store.extended(id, more).memory == store.memory,
        store.replaced(id, more).positions.contains_key(id),
        store.replaced(id, more).positions[id] == more,
        store.replaced(id, more).memory == store.memory,
{
    assert(Seq::<MatchView>::empty() + more =~= more);
}

/// Several lists one after the other: nothing of none, a single list itself, and two rows of lists
/// one after the other.
pub proof fn law_joined<T>(list: Seq<T>, a: Seq<Seq<T>>, b: Seq<Seq<T>>)
    ensures
        joined(Seq::<Seq<T>>::empty()) == Seq::<T>::empty(),
        joined(seq![list]) == list,
        joined(a + b) == joined(a) + joined(b),
    decreases b.len(),
{
    reveal_with_fuel(joined, 2);
    assert(seq![list].drop_last() =~= Seq::empty());
    assert(Seq::<T>::empty() + list =~= list);
    if b.len() == 0 {
        assert(a + b =~= a);
        assert(joined(a) + joined(b) =~= joined(a));
    } else {
        law_joined(list, a, b.drop_last());
        assert((a + b).drop_last() =~= a + b.drop_last());
        assert(joined(a + b) =~= joined(a) + joined(b));
    }
}

/// The reply to a scan or filter: status and kind, the count as it is given, the first hundred
/// thousand matches in order, and whether some are left out or an unknown value has more than a
/// million places.
pub proof fn law_results_told(
    name: Seq<char>,
    positions: Seq<MatchView>,
    found: usize,
    i: int,
)
    ensures
        ({
            let short = result_reply(find_type(name), false, positions, found);
            let long = result_reply(find_type(name), true, positions, found);
            &&& short.status == 200 && long.status == 200
            &&& short.content_type == Some(ContentType::Json)
            &&& long.content_type == Some(ContentType::Json)
            &&& short.body == BodyView::Found(found)
            &&& long.body matches BodyView::Matches { matched_addresses, found: told, is_rounded }
            &&& told == found
            &&& matched_addresses.len() == (if positions.len() > 100_000 {
                100_000
            } else {
                positions.len() as int
            })
            &&& 0 <= i < matched_addresses.len() ==> matched_addresses[i] == positions[i]
            &&& is_rounded <==> positions.len() > 100_000 || (name == "unknown"@ && found
                > 1_000_000)
        }),
{
    law_find_types_named(name);
}

} // verus!
