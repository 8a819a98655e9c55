//! Searching one chunk of memory.

use vstd::prelude::*;

use crate::chunks::{chunk_lists, chunks_of_all, plan_ranges, ranges_fit, Chunk, CHUNK_SIZE};
use crate::hexcode::{decode, encode, hex_decoded, hex_encoded, is_hex, law_hex_round_trip};
use crate::matched::{views, MatchView, MatchedAddress};
use crate::order::is_ordered;
use crate::reply::{no_process, Reply, ReplyView};
use crate::requests::{MemoryScanRequest, ScanRequestView};
use crate::search::{
    find_all, find_spans, occurrences, regex_spans, spans_ascend, spans_within,
};
use crate::snapshot::{EntryView, MemoryEntry};
use crate::store::ScanStore;
use crate::text::spells;
use crate::values::{data_type, DataType};

verus! {

/// What a scan looks for.
#[derive(Clone, Copy, Debug, PartialEq, Eq, Structural)]
pub enum FindType {
    Exact,
    Unknown,
    Other,
}

/// What a request asks to look for.
pub open spec fn find_type(name: Seq<char>) -> FindType {
    if name == "exact"@ {
        FindType::Exact
    } else if name == "unknown"@ {
        FindType::Unknown
    } else {
        FindType::Other
    }
}

impl FindType {
    /// What a request asks to look for.
    pub fn parse(name: &String) -> (r: FindType)
        ensures
            r == find_type(name@),
    {
        if spells(name, "exact") {
            FindType::Exact
        } else if spells(name, "unknown") {
            FindType::Unknown
        } else {
            FindType::Other
        }
    }
}

/// The match of a span that begins at an aligned address.
pub open spec fn span_match(
    base: usize,
    align: usize,
    buffer: Seq<u8>,
    span: (usize, usize),
) -> Option<MatchView> {
    if (base + span.0) % (align as int) == 0 {
        Some(
            MatchView {
                address: (base + span.0) as usize,
                value: hex_encoded(buffer.subrange(span.0 as int, span.1 as int)),
            },
        )
    } else {
        None
    }
}

/// The matches of all spans that begin at aligned addresses.
pub open spec fn span_matches(
    base: usize,
    align: usize,
    buffer: Seq<u8>,
    spans: Seq<(usize, usize)>,
) -> Seq<MatchView> {
    spans.filter_map(|span: (usize, usize)| span_match(base, align, buffer, span))
}

/// How far the address of the `i`th place is pushed up by the places before it: each adds its
/// own offset and one.
pub open spec fn drift(places: Seq<usize>, i: int) -> int
    decreases i,
{
    if i <= 0 {
        0
    } else {
        drift(places, i - 1) + places[i - 1] + 1
    }
}

/// The address reported for the `i`th place.
pub open spec fn reported(base: usize, places: Seq<usize>, i: int) -> int {
    base + drift(places, i) + places[i]
}

/// The addresses reported for all places.
pub open spec fn all_reported(base: usize, places: Seq<usize>) -> Seq<int> {
    Seq::new(places.len(), |i: int| reported(base, places, i))
}

/// The match at a reported address that is aligned.
pub open spec fn place_match(align: usize, value: Seq<char>, address: int) -> Option<MatchView> {
    if address % (align as int) == 0 {
        Some(MatchView { address: address as usize, value })
    } else {
        None
    }
}

/// The matches at all of several addresses that are aligned.
pub open spec fn address_matches(
    addresses: Seq<int>,
    align: usize,
    value: Seq<char>,
) -> Seq<MatchView> {
    addresses.filter_map(|address: int| place_match(align, value, address))
}

/// The matches at all reported addresses that are aligned.
pub open spec fn place_matches(
    base: usize,
    align: usize,
    places: Seq<usize>,
    value: Seq<char>,
) -> Seq<MatchView> {
    address_matches(all_reported(base, places), align, value)
}

/// Whether the reported addresses can be counted in machine words.
pub open spec fn places_fit(base: usize, places: Seq<usize>) -> bool {
    forall|i: int|
        0 <= i < places.len() ==> #[trigger] reported(base, places, i) <= usize::MAX && drift(
            places,
            i + 1,
        ) <= usize::MAX
}

/// What the search of a chunk gives.
#[verifier::ext_equal]
pub struct ChunkView {
    pub positions: Seq<MatchView>,
    pub snapshot: Option<EntryView>,
    pub found: nat,
}

/// A search that gives matches.
pub open spec fn with_matches(positions: Seq<MatchView>) -> ChunkView {
    ChunkView { positions, snapshot: None, found: positions.len() }
}

/// What the search of a chunk gives for the bytes read, which begin at `base`. A pattern that
/// cannot be understood matches nothing. There is no answer where an aligned address is asked for
/// without an alignment, or where a reported address cannot be counted.
pub open spec fn scanned(request: ScanRequestView, base: usize, buffer: Seq<u8>) -> Option<
    ChunkView,
> {
    let align = request.align;
    match find_type(request.find_type) {
        FindType::Exact => if data_type(request.data_type) == DataType::Regex {
            match regex_spans(request.pattern, buffer) {
                None => Some(with_matches(Seq::empty())),
                Some(spans) => if align > 0 || spans.len() == 0 {
                    Some(with_matches(span_matches(base, align, buffer, spans)))
                } else {
                    None
                },
            }
        } else {
            match hex_decoded(request.pattern) {
                None => Some(with_matches(Seq::empty())),
                Some(needle) => {
                    let places = occurrences(buffer, needle, 0);
                    if (align > 0 || places.len() == 0) && places_fit(base, places) {
                        Some(with_matches(place_matches(base, align, places, request.pattern)))
                    } else {
                        None
                    }
                },
            }
        },
        FindType::Unknown => Some(
            ChunkView {
                positions: Seq::empty(),
                snapshot: Some(
                    EntryView { address: base, data: buffer, offsets: Seq::empty(), is_first: true },
                ),
                found: buffer.len() / (data_type(request.data_type).spec_size() as nat),
            },
        ),
        FindType::Other => Some(with_matches(Seq::empty())),
    }
}

/// What the search of a chunk gives, a chunk that could not be read giving nothing.
pub open spec fn scanned_if_read(
    request: ScanRequestView,
    base: usize,
    buffer: Option<Seq<u8>>,
) -> Option<ChunkView> {
    match buffer {
        Some(bytes) => scanned(request, base, bytes),
        None => Some(with_matches(Seq::empty())),
    }
}

/// What the search of a chunk gives.
pub struct ChunkScan {
    pub positions: Vec<MatchedAddress>,
    pub snapshot: Option<MemoryEntry>,
    pub found: usize,
}

impl View for ChunkScan {
    type V = ChunkView;

    open spec fn view(&self) -> ChunkView {
        ChunkView {
            positions: views(self.positions@),
            snapshot: match self.snapshot {
                Some(entry) => Some(entry@),
                None => None,
            },
            found: self.found as nat,
        }
    }
}

impl ChunkScan {
    /// A search that gives matches.
    fn of_matches(positions: Vec<MatchedAddress>) -> (r: ChunkScan)
        ensures
            r@ == with_matches(views(positions@)),
    {
        let found: usize = positions.len();
        ChunkScan { positions, snapshot: None, found }
    }

    /// A search that gives nothing.
    fn nothing() -> (r: ChunkScan)
        ensures
            r@ == with_matches(Seq::empty()),
    {
        let none: Vec<MatchedAddress> = Vec::new();
        assert(views(none@) =~= Seq::empty());
        ChunkScan::of_matches(none)
    }
}

proof fn lemma_views_push(list: Seq<MatchedAddress>, m: MatchedAddress)
    ensures
        views(list.push(m)) == views(list).push(m@),
{
    assert(views(list.push(m)) =~= views(list).push(m@));
}

/// The matches of the spans that begin at aligned addresses.
pub fn matches_of_spans(
    base: usize,
    align: usize,
    buffer: &Vec<u8>,
    spans: &Vec<(usize, usize)>,
) -> (r: Vec<MatchedAddress>)
    requires
        align > 0 || spans.len() == 0,
        base + buffer.len() <= usize::MAX,
        spans_within(spans@, buffer.len() as int),
    ensures
        views(r@) == span_matches(base, align, buffer@, spans@),
{
    let mut out: Vec<MatchedAddress> = Vec::new();
    let mut i: usize = 0;
    assert(spans@.take(0) =~= Seq::empty());
    assert(views(out@) =~= span_matches(base, align, buffer@, spans@.take(0)));
    while i < spans.len()
        invariant
            i <= spans.len(),
            align > 0 || spans.len() == 0,
            base + buffer.len() <= usize::MAX,
            spans_within(spans@, buffer.len() as int),
            views(out@) == span_matches(base, align, buffer@, spans@.take(i as int)),
        decreases spans.len() - i,
    {
        let (start, end): (usize, usize) = spans[i];
        assert(spans@[i as int].0 <= spans@[i as int].1 <= buffer.len());
        assert(spans@.take(i + 1).drop_last() =~= spans@.take(i as int));
        if (base + start) % align == 0 {
            let value: String = encode(vstd::slice::slice_subrange(buffer, start, end));
            let m: MatchedAddress = MatchedAddress { address: base + start, value };
            proof {
                lemma_views_push(out@, m);
            }
            out.push(m);
        }
        assert(views(out@) =~= span_matches(base, align, buffer@, spans@.take(i + 1)));
        i = i + 1;
    }
    assert(spans@.take(i as int) =~= spans@);
    out
}

proof fn lemma_drift_grows(places: Seq<usize>, i: int, j: int)
    requires
        0 <= i <= j <= places.len(),
    ensures
        0 <= drift(places, i) <= drift(places, j),
    decreases j,
{
    if i < j {
        lemma_drift_grows(places, i, j - 1);
    } else if i > 0 {
        lemma_drift_grows(places, i - 1, j - 1);
    }
}

/// Whether the addresses of all places can be counted.
pub fn check_places(base: usize, places: &Vec<usize>) -> (r: bool)
    ensures
        r == places_fit(base, places@),
{
    let mut offset: usize = 0;
    let mut i: usize = 0;
    while i < places.len()
        invariant
            i <= places.len(),
            offset == drift(places@, i as int),
            forall|k: int|
                0 <= k < i ==> #[trigger] reported(base, places@, k) <= usize::MAX && drift(
                    places@,
                    k + 1,
                ) <= usize::MAX,
        decreases places.len() - i,
    {
        let place: usize = places[i];
        let ghost whole = reported(base, places@, i as int);
        if offset > usize::MAX - base || place > usize::MAX - base - offset {
            assert(whole > usize::MAX);
            return false;
        }
        if place == usize::MAX || offset > usize::MAX - place - 1 {
            assert(drift(places@, i + 1) > usize::MAX);
            assert(!(reported(base, places@, i as int) <= usize::MAX && drift(places@, i + 1)
                <= usize::MAX));
            return false;
        }
        offset = offset + place + 1;
        i = i + 1;
    }
    true
}

/// The matches at the reported addresses that are aligned.
pub fn matches_of_places(
    base: usize,
    align: usize,
    places: &Vec<usize>,
    value: &String,
) -> (r: Vec<MatchedAddress>)
    requires
        align > 0 || places.len() == 0,
        places_fit(base, places@),
    ensures
        views(r@) == place_matches(base, align, places@, value@),
{
    let ghost addresses = all_reported(base, places@);
    let mut out: Vec<MatchedAddress> = Vec::new();
    let mut offset: usize = 0;
    let mut i: usize = 0;
    assert(addresses.take(0) =~= Seq::empty());
    assert(views(out@) =~= address_matches(addresses.take(0), align, value@));
    while i < places.len()
        invariant
            i <= places.len(),
            align > 0 || places.len() == 0,
            places_fit(base, places@),
            addresses == all_reported(base, places@),
            offset == drift(places@, i as int),
            views(out@) == address_matches(addresses.take(i as int), align, value@),
        decreases places.len() - i,
    {
        let place: usize = places[i];
        assert(reported(base, places@, i as int) <= usize::MAX);
        assert(drift(places@, i + 1) == offset + place + 1);
        proof {
            lemma_drift_grows(places@, i as int, i as int);
            assert(addresses.take(i + 1).drop_last() =~= addresses.take(i as int));
        }
        let start: usize = base + offset + place;
        if start % align == 0 {
            let m: MatchedAddress = MatchedAddress { address: start, value: value.clone() };
            proof {
                lemma_views_push(out@, m);
            }
            out.push(m);
        }
        assert(views(out@) =~= address_matches(addresses.take(i + 1), align, value@));
        offset = offset + place + 1;
        i = i + 1;
    }
    assert(addresses.take(i as int) =~= addresses);
    out
}

/// Whether the values of a list are all hexadecimal.
pub open spec fn all_hex(list: Seq<MatchView>) -> bool {
    forall|i: int| 0 <= i < list.len() ==> is_hex((#[trigger] list[i]).value)
}

/// Whether every address of a list is aligned.
pub open spec fn all_aligned(list: Seq<MatchView>, align: usize) -> bool {
    forall|i: int| 0 <= i < list.len() ==> (#[trigger] list[i]).address % align == 0
}

/// The matches of spans have hexadecimal values, and aligned addresses where these can be counted.
pub proof fn lemma_span_matches(
    base: usize,
    align: usize,
    buffer: Seq<u8>,
    spans: Seq<(usize, usize)>,
)
    ensures
        all_hex(span_matches(base, align, buffer, spans)),
        (forall|i: int| 0 <= i < spans.len() ==> base + (#[trigger] spans[i]).0 <= usize::MAX)
            ==> all_aligned(span_matches(base, align, buffer, spans), align),
    decreases spans.len(),
{
    if spans.len() > 0 {
        let front = spans.drop_last();
        let span = spans.last();
        lemma_span_matches(base, align, buffer, front);
        law_hex_round_trip(buffer.subrange(span.0 as int, span.1 as int));
        let all = span_matches(base, align, buffer, spans);
        let shorter = span_matches(base, align, buffer, front);
        assert forall|i: int| 0 <= i < all.len() implies is_hex((#[trigger] all[i]).value) by {
            if i < shorter.len() {
                assert(all[i] == shorter[i]);
            }
        }
        if forall|i: int| 0 <= i < spans.len() ==> base + (#[trigger] spans[i]).0 <= usize::MAX {
            assert forall|i: int| 0 <= i < front.len() implies base + (#[trigger] front[i]).0
                <= usize::MAX by {
                assert(front[i] == spans[i]);
            }
            assert forall|i: int| 0 <= i < all.len() implies (#[trigger] all[i]).address % align
                == 0 by {
                if i < shorter.len() {
                    assert(all[i] == shorter[i]);
                } else {
                    assert(base + spans[spans.len() - 1].0 <= usize::MAX);
                }
            }
        }
    }
}

/// The matches at reported addresses have hexadecimal values, and aligned addresses where these can
/// be counted.
pub proof fn lemma_place_matches(addresses: Seq<int>, align: usize, value: Seq<char>)
    requires
        is_hex(value),
    ensures
        all_hex(address_matches(addresses, align, value)),
        (forall|i: int| 0 <= i < addresses.len() ==> 0 <= #[trigger] addresses[i] <= usize::MAX)
            ==> all_aligned(address_matches(addresses, align, value), align),
    decreases addresses.len(),
{
    if addresses.len() > 0 {
        let front = addresses.drop_last();
        lemma_place_matches(front, align, value);
        let all = address_matches(addresses, align, value);
        let shorter = address_matches(front, align, value);
        assert forall|i: int| 0 <= i < all.len() implies is_hex((#[trigger] all[i]).value) by {
            if i < shorter.len() {
                assert(all[i] == shorter[i]);
            }
        }
        if forall|i: int| 0 <= i < addresses.len() ==> 0 <= #[trigger] addresses[i] <= usize::MAX {
            assert forall|i: int| 0 <= i < front.len() implies 0 <= #[trigger] front[i]
                <= usize::MAX by {
                assert(front[i] == addresses[i]);
            }
            assert forall|i: int| 0 <= i < all.len() implies (#[trigger] all[i]).address % align
                == 0 by {
                if i < shorter.len() {
                    assert(all[i] == shorter[i]);
                } else {
                    assert(addresses[addresses.len() - 1] <= usize::MAX);
                }
            }
        }
    }
}

/// Whether every match lies, with all the bytes that its value spells, inside `len` bytes at
/// `base`.
pub open spec fn all_inside(list: Seq<MatchView>, base: usize, len: int) -> bool {
    forall|i: int|
        0 <= i < list.len() ==> base <= (#[trigger] list[i]).address && list[i].address
            + list[i].value.len() / 2 <= base + len
}

/// The matches of spans inside a buffer lie inside it.
proof fn lemma_span_matches_inside(
    base: usize,
    align: usize,
    buffer: Seq<u8>,
    spans: Seq<(usize, usize)>,
)
    requires
        base + buffer.len() <= usize::MAX,
        spans_within(spans, buffer.len() as int),
    ensures
        all_inside(span_matches(base, align, buffer, spans), base, buffer.len() as int),
    decreases spans.len(),
{
    if spans.len() > 0 {
        let front = spans.drop_last();
        assert forall|i: int| 0 <= i < front.len() implies (#[trigger] front[i]).0 <= front[i].1
            <= buffer.len() by {
            assert(front[i] == spans[i]);
        }
        lemma_span_matches_inside(base, align, buffer, front);
        assert(spans[spans.len() - 1].0 <= spans[spans.len() - 1].1 <= buffer.len());
        let all = span_matches(base, align, buffer, spans);
        let shorter = span_matches(base, align, buffer, front);
        assert forall|i: int| 0 <= i < all.len() implies base <= (#[trigger] all[i]).address
            && all[i].address + all[i].value.len() / 2 <= base + buffer.len() by {
            if i < shorter.len() {
                assert(all[i] == shorter[i]);
            }
        }
    }
}

/// The matches of ascending spans ascend.
proof fn lemma_span_matches_ordered(
    base: usize,
    align: usize,
    buffer: Seq<u8>,
    spans: Seq<(usize, usize)>,
)
    requires
        forall|i: int| 0 <= i < spans.len() ==> base + (#[trigger] spans[i]).0 <= usize::MAX,
        spans_ascend(spans),
    ensures
        is_ordered(span_matches(base, align, buffer, spans)),
        forall|i: int|
            0 <= i < span_matches(base, align, buffer, spans).len() ==> spans.len() > 0
                && (#[trigger] span_matches(base, align, buffer, spans)[i]).address <= base
                + spans.last().0,
    decreases spans.len(),
{
    if spans.len() > 0 {
        let front = spans.drop_last();
        let span = spans.last();
        assert forall|i: int| 0 <= i < front.len() implies base + (#[trigger] front[i]).0
            <= usize::MAX by {
            assert(front[i] == spans[i]);
        }
        assert forall|i: int, j: int| 0 <= i < j < front.len() implies (#[trigger] front[i]).1
            <= (#[trigger] front[j]).0 && front[i].0 <= front[j].0 by {
            assert(front[i] == spans[i] && front[j] == spans[j]);
        }
        lemma_span_matches_ordered(base, align, buffer, front);
        let all = span_matches(base, align, buffer, spans);
        let shorter = span_matches(base, align, buffer, front);
        if front.len() > 0 {
            assert(spans[spans.len() - 2].0 <= spans[spans.len() - 1].0);
        }
        assert(base + spans[spans.len() - 1].0 <= usize::MAX);
        assert forall|i: int| 0 <= i < all.len() implies (#[trigger] all[i]).address <= base
            + span.0 by {
            if i < shorter.len() {
                assert(all[i] == shorter[i]);
            }
        }
        assert forall|i: int, j: int| 0 <= i <= j < all.len() implies all[i].address
            <= all[j].address by {
            if j < shorter.len() {
                assert(all[i] == shorter[i] && all[j] == shorter[j]);
            }
        }
    }
}

/// The matches at ascending addresses ascend.
proof fn lemma_place_matches_ordered(addresses: Seq<int>, align: usize, value: Seq<char>)
    requires
        forall|i: int| 0 <= i < addresses.len() ==> 0 <= #[trigger] addresses[i] <= usize::MAX,
        forall|i: int, j: int| 0 <= i < j < addresses.len() ==> addresses[i] <= addresses[j],
    ensures
        is_ordered(address_matches(addresses, align, value)),
        forall|i: int|
            0 <= i < address_matches(addresses, align, value).len() ==> addresses.len() > 0
                && (#[trigger] address_matches(addresses, align, value)[i]).address
                <= addresses.last(),
    decreases addresses.len(),
{
    if addresses.len() > 0 {
        let front = addresses.drop_last();
        assert forall|i: int| 0 <= i < front.len() implies 0 <= #[trigger] front[i]
            <= usize::MAX by {
            assert(front[i] == addresses[i]);
        }
        lemma_place_matches_ordered(front, align, value);
        let all = address_matches(addresses, align, value);
        let shorter = address_matches(front, align, value);
        if front.len() > 0 {
            assert(addresses[addresses.len() - 2] <= addresses[addresses.len() - 1]);
        }
        assert(0 <= addresses[addresses.len() - 1] <= usize::MAX);
        assert forall|i: int| 0 <= i < all.len() implies (#[trigger] all[i]).address
            <= addresses.last() by {
            if i < shorter.len() {
                assert(all[i] == shorter[i]);
            }
        }
        assert forall|i: int, j: int| 0 <= i <= j < all.len() implies all[i].address
            <= all[j].address by {
            if j < shorter.len() {
                assert(all[i] == shorter[i] && all[j] == shorter[j]);
            }
        }
    }
}

/// Searches the bytes read from a chunk that begins at `base`, or nothing where it could not be
/// read. Every match lies at an aligned address and has a hexadecimal value, the addresses never
/// fall, and a match of a regular expression lies inside the chunk.
pub fn scan_chunk(request: &MemoryScanRequest, base: usize, buffer: Option<&Vec<u8>>) -> (r: Option<
    ChunkScan,
>)
    requires
        buffer matches Some(bytes) ==> bytes.len() <= CHUNK_SIZE && base + bytes.len()
            <= usize::MAX,
    ensures
        (match r {
            Some(chunk) => Some(chunk@),
            None => None,
        }) == scanned_if_read(
            request@,
            base,
            match buffer {
                Some(bytes) => Some(bytes@),
                None => None,
            },
        ),
        r matches Some(chunk) ==> all_hex(chunk@.positions) && all_aligned(
            chunk@.positions,
            request.align,
        ) && is_ordered(chunk@.positions),
        r matches Some(chunk) ==> buffer matches Some(bytes) ==> data_type(request.data_type@)
            == DataType::Regex ==> all_inside(chunk@.positions, base, bytes.len() as int),
{
    let bytes: &Vec<u8> = match buffer {
        Some(bytes) => bytes,
        None => return Some(ChunkScan::nothing()),
    };
    let align: usize = request.align;
    let kind: DataType = DataType::parse(&request.data_type);
    match FindType::parse(&request.find_type) {
        FindType::Exact => {
            if kind == DataType::Regex {
                let spans: Vec<(usize, usize)> = match find_spans(
                    request.pattern.as_str(),
                    bytes.as_slice(),
                ) {
                    Some(spans) => spans,
                    None => return Some(ChunkScan::nothing()),
                };
                if align == 0 && spans.len() > 0 {
                    return None;
                }
                proof {
                    assert forall|i: int| 0 <= i < spans@.len() implies base + (
                    #[trigger] spans@[i]).0 <= usize::MAX by {
                        assert(spans@[i].0 <= spans@[i].1 <= bytes@.len());
                    }
                    lemma_span_matches(base, align, bytes@, spans@);
                    lemma_span_matches_ordered(base, align, bytes@, spans@);
                    lemma_span_matches_inside(base, align, bytes@, spans@);
                }
                Some(ChunkScan::of_matches(matches_of_spans(base, align, bytes, &spans)))
            } else {
                let needle: Vec<u8> = match decode(request.pattern.as_str()) {
                    Some(needle) => needle,
                    None => return Some(ChunkScan::nothing()),
                };
                let places: Vec<usize> = find_all(bytes.as_slice(), needle.as_slice());
                if align == 0 && places.len() > 0 {
                    return None;
                }
                if !check_places(base, &places) {
                    return None;
                }
                proof {
                    let addresses = all_reported(base, places@);
                    assert forall|i: int| 0 <= i < addresses.len() implies 0
                        <= #[trigger] addresses[i] <= usize::MAX by {
                        lemma_drift_grows(places@, i, i);
                        assert(reported(base, places@, i) <= usize::MAX);
                    }
                    assert forall|i: int, j: int|
                        0 <= i < j < addresses.len() implies addresses[i] <= addresses[j] by {
                        lemma_drift_grows(places@, i + 1, j);
                    }
                    lemma_place_matches(addresses, align, request.pattern@);
                    lemma_place_matches_ordered(addresses, align, request.pattern@);
                }
                Some(
                    ChunkScan::of_matches(
                        matches_of_places(base, align, &places, &request.pattern),
                    ),
                )
            }
        },
        FindType::Unknown => {
            let none: Vec<MatchedAddress> = Vec::new();
            assert(views(none@) =~= Seq::empty());
            Some(
                ChunkScan {
                    positions: none,
                    snapshot: Some(MemoryEntry::capture(base, bytes)),
                    found: bytes.len() / kind.size(),
                },
            )
        },
        FindType::Other => Some(ChunkScan::nothing()),
    }
}

/// What a scan request asks of the service.
#[derive(Debug, PartialEq, Eq)]
pub enum ScanStep {
    /// Answer at once.
    Answer(Reply),
    /// Suspend this process where that is asked for, read these chunks of it, those of one range
    /// in turn, search and record each, and finish.
    Scan { pid: i32, suspend: bool, ranges: Vec<Vec<Chunk>> },
}

/// What a scan request asks of the service.
#[verifier::ext_equal]
pub enum ScanStepView {
    Answer(ReplyView),
    Scan { pid: i32, suspend: bool, ranges: Seq<Seq<Chunk>> },
}

impl View for ScanStep {
    type V = ScanStepView;

    open spec fn view(&self) -> ScanStepView {
        match *self {
            ScanStep::Answer(reply) => ScanStepView::Answer(reply@),
            ScanStep::Scan { pid, suspend, ranges } => ScanStepView::Scan {
                pid,
                suspend,
                ranges: chunk_lists(ranges@),
            },
        }
    }
}

/// What a scan request asks of the service: nothing without a process; otherwise the chunks of its
/// ranges are read, those of one range in turn. There is no answer where a range cannot be cut up.
pub open spec fn scan_step(pid_state: Option<i32>, request: ScanRequestView) -> Option<
    ScanStepView,
> {
    match pid_state {
        None => Some(ScanStepView::Answer(no_process())),
        Some(pid) => if ranges_fit(request.address_ranges) {
            Some(
                ScanStepView::Scan {
                    pid,
                    suspend: request.do_suspend,
                    ranges: chunks_of_all(request.address_ranges),
                },
            )
        } else {
            None
        },
    }
}

/// Decides what a scan request asks for, and begins the scan where a process was chosen.
pub fn memory_scan_handler(
    pid_state: Option<i32>,
    scan_request: &MemoryScanRequest,
    store: &mut ScanStore,
) -> (r: Option<ScanStep>)
    ensures
        (match r {
            Some(step) => Some(step@),
            None => None,
        }) == scan_step(pid_state, scan_request@),
        final(store)@ == (if pid_state is Some {
            old(store)@.begun(scan_request@)
        } else {
            old(store)@
        }),
{
    match pid_state {
        Some(pid) => {
            store.begin_scan(scan_request);
            match plan_ranges(&scan_request.address_ranges) {
                Some(ranges) => Some(
                    ScanStep::Scan { pid, suspend: scan_request.do_suspend, ranges },
                ),
                None => None,
            }
        },
        None => Some(ScanStep::Answer(Reply::pid_not_set())),
    }
}

} // verus!
