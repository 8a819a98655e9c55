//! What the contents of values are: nothing is lost or changed between a value and what the
//! contracts say of it.

use vstd::prelude::*;

use crate::block::{holds_sized, lz4_decompressed};
use crate::bytes::{law_le_round_trip, le_value, lemma_byte_ranges};
use crate::chunks::{chunk_lists, Chunk};
use crate::filter::{
    all_fit, filtered_counts, filtered_views, verdict_views, FilterStep, FilterStepView, Verdict,
    VerdictView,
};
use crate::matched::{views, MatchedAddress};
use crate::memory::{byte_lists, MemoryStep, MemoryStepView};
use crate::process::{module_views, process_views, ProcessStep, ProcessStepView};
use crate::regions::{char_lists, region_views};
use crate::reply::{
    Body, BodyView, ModuleEntry, ModuleLine, ModuleView, ProcessEntry, Region, Reply, ServerInfo,
};
use crate::requests::{MemoryFilterRequest, MemoryScanRequest};
use crate::scan::{ChunkScan, ScanStep, ScanStepView};
use crate::snapshot::{can_reread, EntryView, MemoryEntry};
use crate::store::{counts_of, entry_views, lists_of, RecordedChunk, StoreView};

verus! {

/// The contents of a match, and of a list of matches.
pub proof fn law_match_views(m: MatchedAddress, list: Seq<MatchedAddress>, i: int)
    ensures
        m@.address == m.address,
        m@.value == m.value@,
        views(list).len() == list.len(),
        0 <= i < list.len() ==> views(list)[i] == list[i]@,
{
}

/// The contents of requests.
pub proof fn law_request_views(scan: MemoryScanRequest, filter: MemoryFilterRequest)
    ensures
        scan@.pattern == scan.pattern@,
        scan@.address_ranges == scan.address_ranges@,
        scan@.find_type == scan.find_type@,
        scan@.data_type == scan.data_type@,
        scan@.scan_id == scan.scan_id@,
        scan@.align == scan.align,
        scan@.return_as_json == scan.return_as_json,
        scan@.do_suspend == scan.do_suspend,
        filter@.pattern == filter.pattern@,
        filter@.data_type == filter.data_type@,
        filter@.scan_id == filter.scan_id@,
        filter@.filter_method == filter.filter_method@,
        filter@.return_as_json == filter.return_as_json,
        filter@.do_suspend == filter.do_suspend,
{
}

/// The contents of what a search gives, and of recorded chunks.
pub proof fn law_chunk_views(chunk: ChunkScan, recorded: Seq<RecordedChunk>, i: int)
    ensures
        chunk@.positions == views(chunk.positions@),
        chunk@.found == chunk.found,
        chunk.snapshot is None <==> chunk@.snapshot is None,
        chunk.snapshot matches Some(entry) ==> chunk@.snapshot == Some(entry@),
        lists_of(recorded).len() == recorded.len(),
        counts_of(recorded).len() == recorded.len(),
        0 <= i < recorded.len() ==> {
            &&& lists_of(recorded)[i] == views(recorded[i].positions@)
            &&& counts_of(recorded)[i] == recorded[i].found
        },
{
}

/// The contents of lists of chunks, filtered chunks and verdicts.
pub proof fn law_filter_views(
    entries: Seq<MemoryEntry>,
    results: Seq<(MemoryEntry, usize)>,
    verdicts: Seq<Verdict>,
    i: int,
)
    ensures
        entry_views(entries).len() == entries.len(),
        0 <= i < entries.len() ==> entry_views(entries)[i] == entries[i]@,
        filtered_views(results).len() == results.len(),
        filtered_counts(results).len() == results.len(),
        0 <= i < results.len() ==> {
            &&& filtered_views(results)[i] == results[i].0@
            &&& filtered_counts(results)[i] == results[i].1
        },
        verdict_views(verdicts).len() == verdicts.len(),
        0 <= i < verdicts.len() ==> match verdicts[i] {
            Verdict::Keep(m) => verdict_views(verdicts)[i] == VerdictView::Keep(m@),
            Verdict::Drop => verdict_views(verdicts)[i] == VerdictView::Drop,
            Verdict::InvalidHex => verdict_views(verdicts)[i] == VerdictView::InvalidHex,
        },
{
}

/// Several chunks can be listed exactly where each of them can.
pub proof fn law_all_fit(entries: Seq<EntryView>, size: usize)
    ensures
        all_fit(entries, size) <==> forall|i: int|
            0 <= i < entries.len() ==> (#[trigger] entries[i]).fits(size),
{
}

/// The offsets of a chunk are known before its first filter and where they are read again.
pub proof fn law_known_offsets(entry: EntryView)
    ensures
        entry.has_candidates() <==> entry.is_first || can_reread(entry.offsets),
{
}

/// At first nothing is remembered.
pub proof fn law_nothing_remembered(id: Seq<char>)
    ensures
        !StoreView::empty().positions.contains_key(id),
        !StoreView::empty().memory.contains_key(id),
        !StoreView::empty().options.contains_key(id),
{
}

/// What a sized block holds: the length of the data in its first four bytes, and behind them a
/// block that restores to the data.
pub proof fn law_sized_block(sized: Seq<u8>, data: Seq<u8>)
    requires
        holds_sized(sized, data),
        data.len() <= u32::MAX,
    ensures
        le_value(sized.take(4)) == data.len(),
        lz4_decompressed(sized.skip(4), data.len() as int) == Some(data),
{
    lemma_byte_ranges();
    law_le_round_trip(data.len(), 4);
}

/// The contents of steps.
pub proof fn law_step_views(
    reply: Reply,
    pid: i32,
    suspend: bool,
    chunks: Vec<Chunk>,
    ranges: Vec<Vec<Chunk>>,
    values: Vec<crate::filter::ValueRead>,
    i: int,
)
    ensures
        MemoryStep::Answer(reply)@ == MemoryStepView::Answer(reply@),
        (MemoryStep::Transfer { pid, chunks })@ == (MemoryStepView::Transfer {
            pid,
            chunks: chunks@,
        }),
        ProcessStep::Answer(reply)@ == ProcessStepView::Answer(reply@),
        (ProcessStep::Inspect { pid })@ == (ProcessStepView::Inspect { pid }),
        ScanStep::Answer(reply)@ == ScanStepView::Answer(reply@),
        (ScanStep::Scan { pid, suspend, ranges })@ == (ScanStepView::Scan {
            pid,
            suspend,
            ranges: chunk_lists(ranges@),
        }),
        chunk_lists(ranges@).len() == ranges@.len(),
        0 <= i < ranges@.len() ==> chunk_lists(ranges@)[i] == ranges@[i]@,
        FilterStep::Answer(reply)@ == FilterStepView::Answer(reply@),
        (FilterStep::Chunks { pid, suspend, chunks })@ == (FilterStepView::Chunks {
            pid,
            suspend,
            chunks: chunks@,
        }),
        (FilterStep::Values { pid, suspend, values })@ == (FilterStepView::Values {
            pid,
            suspend,
            values: values@,
        }),
{
}

/// The contents of what is listed in replies.
pub proof fn law_listed_views(
    region: Region,
    process: ProcessEntry,
    module: ModuleEntry,
    message: String,
    info: ServerInfo,
)
    ensures
        region@.start_address == region.start_address@,
        region@.end_address == region.end_address@,
        region@.protection == region.protection@,
        region.file_path is None <==> region@.file_path is None,
        region.file_path matches Some(path) ==> region@.file_path == Some(path@),
        process@.pid == process.pid,
        process@.processname == process.processname@,
        module@ == (ModuleView::Module {
            base: module.base,
            size: module.size,
            is_64bit: module.is_64bit,
            modulename: module.modulename@,
        }),
        ModuleLine::Module(module)@ == module@,
        ModuleLine::Error(message)@ == ModuleView::Error(message@),
        info@.git_hash == info.git_hash@,
        info@.target_os == info.target_os@,
        info@.arch == info.arch@,
        info@.pid == info.pid,
        info@.mode == info.mode@,
{
}

/// The contents of lists in replies.
pub proof fn law_list_views(
    regions: Seq<Region>,
    processes: Seq<ProcessEntry>,
    modules: Seq<ModuleEntry>,
    bytes: Seq<Vec<u8>>,
    chars: Seq<Vec<char>>,
    i: int,
)
    ensures
        region_views(regions).len() == regions.len(),
        0 <= i < regions.len() ==> region_views(regions)[i] == regions[i]@,
        process_views(processes).len() == processes.len(),
        0 <= i < processes.len() ==> process_views(processes)[i] == processes[i]@,
        module_views(modules).len() == modules.len(),
        0 <= i < modules.len() ==> module_views(modules)[i] == modules[i]@,
        byte_lists(bytes).len() == bytes.len(),
        0 <= i < bytes.len() ==> byte_lists(bytes)[i] == bytes[i]@,
        char_lists(chars).len() == chars.len(),
        0 <= i < chars.len() ==> char_lists(chars)[i] == chars[i]@,
{
}

/// The contents of a reply.
pub proof fn law_reply_view(reply: Reply, i: int)
    ensures
        reply@.status == reply.status,
        reply@.content_type == reply.content_type,
        reply@.body == reply.body@,
        reply.body matches Body::Text(text) ==> reply@.body == BodyView::Text(text@),
        reply.body matches Body::Bytes(bytes) ==> reply@.body == BodyView::Bytes(bytes@),
        reply.body matches Body::Found(found) ==> reply@.body == BodyView::Found(found),
        reply.body matches Body::Server(info) ==> reply@.body == BodyView::Server(info@),
        reply.body matches Body::Matches { matched_addresses, found, is_rounded } ==> reply@.body
            == (BodyView::Matches {
            matched_addresses: views(matched_addresses@),
            found,
            is_rounded,
        }),
        reply.body matches Body::Regions(list) ==> {
            &&& reply@.body matches BodyView::Regions(told)
            &&& told.len() == list@.len()
            &&& 0 <= i < told.len() ==> told[i] == list@[i]@
        },
        reply.body matches Body::Processes(list) ==> {
            &&& reply@.body matches BodyView::Processes(told)
            &&& told.len() == list@.len()
            &&& 0 <= i < told.len() ==> told[i] == list@[i]@
        },
        reply.body matches Body::Modules(list) ==> {
            &&& reply@.body matches BodyView::Modules(told)
            &&& told.len() == list@.len()
            &&& 0 <= i < told.len() ==> told[i] == list@[i]@
        },
{
}

} // verus!
