//! What the service remembers between requests, under the identifiers that clients give their
//! scans.

use vstd::prelude::*;

use crate::matched::{copy_prefix, joined, views, MatchView, MatchedAddress};
use crate::reply::{served, Body, BodyView, ContentType, Reply, ReplyView};
use crate::requests::{MemoryScanRequest, ScanRequestView};
use crate::scan::{find_type, ChunkScan, ChunkView, FindType};
use crate::snapshot::{EntryView, MemoryEntry};
use crate::table::Table;

verus! {

/// The most matches that one chunk hands back and that one reply lists.
pub const MAX_RESULTS: usize = 100_000;

/// From this many values on, remembered chunks are kept instead of being listed.
pub const LISTING_LIMIT: usize = 1_000_000;

/// What is remembered.
#[verifier::ext_equal]
pub struct StoreView {
    pub positions: Map<Seq<char>, Seq<MatchView>>,
    pub memory: Map<Seq<char>, Seq<EntryView>>,
    pub options: Map<Seq<char>, ScanRequestView>,
}

/// The list under an identifier, empty where there is none.
pub open spec fn list_of<T>(lists: Map<Seq<char>, Seq<T>>, id: Seq<char>) -> Seq<T> {
    if lists.contains_key(id) {
        lists[id]
    } else {
        Seq::empty()
    }
}

/// Empties the list under an identifier, where there is one.
pub open spec fn emptied<T>(lists: Map<Seq<char>, Seq<T>>, id: Seq<char>) -> Map<
    Seq<char>,
    Seq<T>,
> {
    if lists.contains_key(id) {
        lists.insert(id, Seq::empty())
    } else {
        lists
    }
}

/// The matches that a chunk hands back: all of them, unless there are too many.
pub open spec fn handed_back(chunk: ChunkView) -> Seq<MatchView> {
    if chunk.positions.len() > MAX_RESULTS {
        Seq::empty()
    } else {
        chunk.positions
    }
}

/// Counts in machine words, starting over behind the largest.
pub open spec fn wrapped_total(counts: Seq<usize>) -> usize
    decreases counts.len(),
{
    if counts.len() == 0 {
        0
    } else {
        wrapped_total(counts.drop_last()).wrapping_add(counts.last())
    }
}

/// Whether a reply lists less than there is.
pub open spec fn rounded(find: FindType, listed_of: nat, found: usize) -> bool {
    (find == FindType::Unknown && found > LISTING_LIMIT) || listed_of > MAX_RESULTS
}

/// The first matches of a list, as many as one reply lists.
pub open spec fn limited(positions: Seq<MatchView>) -> Seq<MatchView> {
    if positions.len() > MAX_RESULTS {
        positions.take(MAX_RESULTS as int)
    } else {
        positions
    }
}

/// The reply to a scan or filter.
pub open spec fn result_reply(
    find: FindType,
    as_json: bool,
    positions: Seq<MatchView>,
    found: usize,
) -> ReplyView {
    if as_json {
        served(
            ContentType::Json,
            BodyView::Matches {
                matched_addresses: limited(positions),
                found,
                is_rounded: rounded(find, positions.len(), found),
            },
        )
    } else {
        served(ContentType::Json, BodyView::Found(found))
    }
}

impl StoreView {
    /// Nothing is remembered.
    pub open spec fn empty() -> StoreView {
        StoreView { positions: Map::empty(), memory: Map::empty(), options: Map::empty() }
    }

    /// A scan begins: what was remembered under its identifier is emptied, and its options are
    /// remembered.
    pub open spec fn begun(self, request: ScanRequestView) -> StoreView {
        StoreView {
            positions: emptied(self.positions, request.scan_id),
            memory: emptied(self.memory, request.scan_id),
            options: self.options.insert(request.scan_id, request),
        }
    }

    /// More matches are remembered.
    pub open spec fn extended(self, id: Seq<char>, more: Seq<MatchView>) -> StoreView {
        StoreView {
            positions: self.positions.insert(id, list_of(self.positions, id) + more),
            ..self
        }
    }

    /// Other matches are remembered in place of those before.
    pub open spec fn replaced(self, id: Seq<char>, list: Seq<MatchView>) -> StoreView {
        StoreView { positions: self.positions.insert(id, list), ..self }
    }

    /// The search of a chunk is remembered: the chunk itself where it is to be filtered later, and
    /// its matches where there are too many to hand back.
    pub open spec fn recorded(self, id: Seq<char>, chunk: ChunkView) -> StoreView {
        let kept = match chunk.snapshot {
            Some(entry) => StoreView {
                memory: self.memory.insert(id, list_of(self.memory, id).push(entry)),
                ..self
            },
            None => self,
        };
        if chunk.positions.len() > MAX_RESULTS {
            kept.extended(id, chunk.positions)
        } else {
            kept
        }
    }
}

/// What a recorded chunk hands back.
pub struct RecordedChunk {
    pub positions: Vec<MatchedAddress>,
    pub found: usize,
}

/// The lists that recorded chunks hand back.
pub open spec fn lists_of(chunks: Seq<RecordedChunk>) -> Seq<Seq<MatchView>> {
    chunks.map_values(|chunk: RecordedChunk| views(chunk.positions@))
}

/// The counts of recorded chunks.
pub open spec fn counts_of(chunks: Seq<RecordedChunk>) -> Seq<usize> {
    chunks.map_values(|chunk: RecordedChunk| chunk.found)
}

/// Everything remembered between requests.
pub struct ScanStore {
    positions: Table<Vec<MatchedAddress>>,
    memory: Table<Vec<MemoryEntry>>,
    options: Table<MemoryScanRequest>,
}

/// The views of a list of remembered chunks.
pub open spec fn entry_views(list: Seq<MemoryEntry>) -> Seq<EntryView> {
    list.map_values(|entry: MemoryEntry| entry@)
}

impl View for ScanStore {
    type V = StoreView;

    closed spec fn view(&self) -> StoreView {
        StoreView {
            positions: self.positions@.map_values(|list: Vec<MatchedAddress>| views(list@)),
            memory: self.memory@.map_values(|list: Vec<MemoryEntry>| entry_views(list@)),
            options: self.options@.map_values(|request: MemoryScanRequest| request@),
        }
    }
}

/// The reply to a scan or filter.
pub fn reply_with_results(
    find: FindType,
    as_json: bool,
    positions: &Vec<MatchedAddress>,
    found: usize,
) -> (r: Reply)
    ensures
        r@ == result_reply(find, as_json, views(positions@), found),
{
    if !as_json {
        return Reply::serve(ContentType::Json, Body::Found(found));
    }
    let count: usize = if positions.len() > MAX_RESULTS {
        MAX_RESULTS
    } else {
        positions.len()
    };
    let listed: Vec<MatchedAddress> = copy_prefix(positions, count);
    let is_rounded: bool = (find == FindType::Unknown && found > LISTING_LIMIT)
        || positions.len() > MAX_RESULTS;
    assert(views(listed@) =~= limited(views(positions@)));
    Reply::serve(
        ContentType::Json,
        Body::Matches { matched_addresses: listed, found, is_rounded },
    )
}

impl ScanStore {
    /// Nothing is remembered.
    pub fn new() -> (r: ScanStore)
        ensures
            r@ == StoreView::empty(),
    {
        let store: ScanStore = ScanStore {
            positions: Table::new(),
            memory: Table::new(),
            options: Table::new(),
        };
        assert(store@ =~= StoreView::empty());
        store
    }

    /// Begins a scan: what was remembered under its identifier is emptied, and its options are
    /// remembered.
    pub fn begin_scan(&mut self, request: &MemoryScanRequest)
        ensures
            final(self)@ == old(self)@.begun(request@),
    {
        let ghost before = self@;
        if self.positions.contains(&request.scan_id) {
            self.positions.insert(&request.scan_id, Vec::new());
        }
        if self.memory.contains(&request.scan_id) {
            self.memory.insert(&request.scan_id, Vec::new());
        }
        self.options.insert(&request.scan_id, request.copy());
        assert(self@ =~~= before.begun(request@));
    }

    /// Remembers more matches.
    fn extend(&mut self, scan_id: &String, more: Vec<MatchedAddress>)
        ensures
            final(self)@ == old(self)@.extended(scan_id@, views(more@)),
    {
        let ghost before = self@;
        let ghost added = views(more@);
        let mut list: Vec<MatchedAddress> = match self.positions.take(scan_id) {
            Some(list) => list,
            None => Vec::new(),
        };
        let mut more: Vec<MatchedAddress> = more;
        let ghost kept = views(list@);
        list.append(&mut more);
        assert(views(list@) =~= kept + added);
        self.positions.insert(scan_id, list);
        assert(self@ =~~= before.extended(scan_id@, added));
    }

    /// Remembers the search of a chunk, and hands back the matches that are not remembered yet.
    pub fn record_chunk(&mut self, scan_id: &String, chunk: ChunkScan) -> (r: RecordedChunk)
        ensures
            final(self)@ == old(self)@.recorded(scan_id@, chunk@),
            views(r.positions@) == handed_back(chunk@),
            r.found == chunk.found,
    {
        let ghost before = self@;
        let ghost view = chunk@;
        let ChunkScan { positions, snapshot, found } = chunk;
        if let Some(entry) = snapshot {
            let mut list: Vec<MemoryEntry> = match self.memory.take(scan_id) {
                Some(list) => list,
                None => Vec::new(),
            };
            let ghost kept = entry_views(list@);
            list.push(entry);
            assert(entry_views(list@) =~= kept.push(entry@));
            self.memory.insert(scan_id, list);
            assert(self@ =~~= (StoreView {
                memory: before.memory.insert(
                    scan_id@,
                    list_of(before.memory, scan_id@).push(entry@),
                ),
                ..before
            }));
        }
        if positions.len() > MAX_RESULTS {
            self.extend(scan_id, positions);
            let none: Vec<MatchedAddress> = Vec::new();
            assert(views(none@) =~= Seq::empty());
            return RecordedChunk { positions: none, found };
        }
        RecordedChunk { positions, found }
    }

    /// Ends a scan: remembers what the chunks handed back and answers the request.
    pub fn finish_scan(&mut self, request: &MemoryScanRequest, chunks: Vec<RecordedChunk>) -> (r:
        Reply)
        ensures
            final(self)@ == old(self)@.extended(request.scan_id@, joined(lists_of(chunks@))),
            r@ == result_reply(
                find_type(request.find_type@),
                request.return_as_json,
                final(self)@.positions[request.scan_id@],
                wrapped_total(counts_of(chunks@)),
            ),
    {
        let ghost before = self@;
        let ghost all = chunks@;
        let mut more: Vec<MatchedAddress> = Vec::new();
        let mut found: usize = 0;
        let mut rest: Vec<RecordedChunk> = chunks;
        let count: usize = rest.len();
        proof {
            assert(lists_of(all.take(0)) =~= Seq::empty());
            assert(counts_of(all.take(0)) =~= Seq::empty());
            assert(views(more@) =~= joined(lists_of(all.take(0))));
        }
        let mut i: usize = 0;
        while i < count
            invariant
                i <= count == all.len(),
                rest.len() == count,
                forall|k: int| i <= k < count ==> #[trigger] rest@[k] == all[k],
                views(more@) == joined(lists_of(all.take(i as int))),
                found == wrapped_total(counts_of(all.take(i as int))),
            decreases count - i,
        {
            let mut chunk: RecordedChunk = RecordedChunk { positions: Vec::new(), found: 0 };
            std::mem::swap(&mut rest[i], &mut chunk);
            let ghost so_far = views(more@);
            let ghost part = views(chunk.positions@);
            proof {
                let longer = all.take(i + 1);
                assert(lists_of(longer).drop_last() =~= lists_of(all.take(i as int)));
                assert(counts_of(longer).drop_last() =~= counts_of(all.take(i as int)));
                assert(lists_of(longer).last() == part);
                assert(counts_of(longer).last() == chunk.found);
            }
            found = found.wrapping_add(chunk.found);
            more.append(&mut chunk.positions);
            assert(views(more@) =~= so_far + part);
            i = i + 1;
        }
        assert(all.take(count as int) =~= all);
        self.extend(&request.scan_id, more);
        let none: Vec<MatchedAddress> = Vec::new();
        let positions: &Vec<MatchedAddress> = match self.positions.get(&request.scan_id) {
            Some(list) => list,
            None => &none,
        };
        assert(self@.positions.contains_key(request.scan_id@));
        reply_with_results(
            FindType::parse(&request.find_type),
            request.return_as_json,
            positions,
            found,
        )
    }

    /// The options of a scan.
    pub fn options_of(&self, scan_id: &String) -> (r: Option<&MemoryScanRequest>)
        ensures
            r is Some <==> self@.options.contains_key(scan_id@),
            r matches Some(request) ==> request@ == self@.options[scan_id@],
    {
        self.options.get(scan_id)
    }

    /// The matches that a scan remembers.
    pub fn positions_of(&self, scan_id: &String) -> (r: Option<&Vec<MatchedAddress>>)
        ensures
            r is Some <==> self@.positions.contains_key(scan_id@),
            r matches Some(list) ==> views(list@) == self@.positions[scan_id@],
    {
        self.positions.get(scan_id)
    }

    /// The chunks that a scan remembers.
    pub fn entries_of(&self, scan_id: &String) -> (r: Option<&Vec<MemoryEntry>>)
        ensures
            r is Some <==> self@.memory.contains_key(scan_id@),
            r matches Some(list) ==> entry_views(list@) == self@.memory[scan_id@],
    {
        self.memory.get(scan_id)
    }

    /// Takes the chunks that a scan remembers out of the store.
    pub fn take_entries(&mut self, scan_id: &String) -> (r: Option<Vec<MemoryEntry>>)
        ensures
            r is Some <==> old(self)@.memory.contains_key(scan_id@),
            r matches Some(list) ==> entry_views(list@) == old(self)@.memory[scan_id@],
            final(self)@ == (StoreView {
                memory: old(self)@.memory.remove(scan_id@),
                ..old(self)@
            }),
    {
        let ghost before = self@;
        let taken: Option<Vec<MemoryEntry>> = self.memory.take(scan_id);
        assert(self@ =~~= (StoreView { memory: before.memory.remove(scan_id@), ..before }));
        taken
    }

    /// Remembers chunks in place of those that a scan remembered before.
    pub fn put_entries(&mut self, scan_id: &String, entries: Vec<MemoryEntry>)
        ensures
            final(self)@ == (StoreView {
                memory: old(self)@.memory.insert(scan_id@, entry_views(entries@)),
                ..old(self)@
            }),
    {
        let ghost before = self@;
        let ghost list = entry_views(entries@);
        self.memory.insert(scan_id, entries);
        assert(self@ =~~= (StoreView { memory: before.memory.insert(scan_id@, list), ..before }));
    }

    /// Remembers matches in place of those that a scan remembered before.
    pub fn put_positions(&mut self, scan_id: &String, positions: Vec<MatchedAddress>)
        ensures
            final(self)@ == old(self)@.replaced(scan_id@, views(positions@)),
    {
        let ghost before = self@;
        let ghost list = views(positions@);
        self.positions.insert(scan_id, positions);
        assert(self@ =~~= before.replaced(scan_id@, list));
    }
}

} // verus!
