//! Cutting address ranges into pieces that are read one at a time.

use vstd::prelude::*;

verus! {

/// The most bytes read at once: 16 MiB.
pub const CHUNK_SIZE: usize = 0x100_0000;

/// A piece of memory that is read at once.
#[derive(Clone, Copy, Debug, PartialEq, Eq, Structural)]
pub struct Chunk {
    pub start: usize,
    pub size: usize,
}

/// How many chunks a range takes.
pub open spec fn chunk_count(start: usize, end: usize) -> int {
    (end - start + CHUNK_SIZE - 1) / (CHUNK_SIZE as int)
}

/// Whether a range can be cut up: it does not run backwards, and neither its rounded length nor
/// the end of its last chunk, counted at full size, leaves the address space.
pub open spec fn range_fits(start: usize, end: usize) -> bool {
    &&& start <= end
    &&& end - start + CHUNK_SIZE - 1 <= usize::MAX
    &&& start + chunk_count(start, end) * CHUNK_SIZE <= usize::MAX
}

/// The `i`th chunk of a range.
pub open spec fn chunk_at(start: usize, end: usize, i: int) -> Chunk {
    let begin = start + i * CHUNK_SIZE;
    let size = if end - begin < CHUNK_SIZE {
        end - begin
    } else {
        CHUNK_SIZE as int
    };
    Chunk { start: begin as usize, size: size as usize }
}

/// The chunks of a range, in order.
pub open spec fn chunks_of(start: usize, end: usize) -> Seq<Chunk> {
    Seq::new(chunk_count(start, end) as nat, |i: int| chunk_at(start, end, i))
}

/// Cuts a range into chunks, where it can be cut up.
pub fn plan_chunks(start: usize, end: usize) -> (r: Option<Vec<Chunk>>)
    ensures
        r is Some <==> range_fits(start, end),
        r matches Some(chunks) ==> chunks@ == chunks_of(start, end),
{
    if start > end || end - start > usize::MAX - (CHUNK_SIZE - 1) {
        return None;
    }
    let count: usize = (end - start + (CHUNK_SIZE - 1)) / CHUNK_SIZE;
    assert(count * CHUNK_SIZE <= end - start + CHUNK_SIZE - 1);
    if start > usize::MAX - count * CHUNK_SIZE {
        return None;
    }
    let mut chunks: Vec<Chunk> = Vec::with_capacity(count);
    let mut i: usize = 0;
    while i < count
        invariant
            i <= count == chunk_count(start, end),
            range_fits(start, end),
            chunks@ == chunks_of(start, end).take(i as int),
        decreases count - i,
    {
        assert(i * CHUNK_SIZE < end - start);
        assert(start + (i + 1) * CHUNK_SIZE <= usize::MAX);
        let begin: usize = start + i * CHUNK_SIZE;
        let full: usize = begin + CHUNK_SIZE;
        let stop: usize = if full < end {
            full
        } else {
            end
        };
        chunks.push(Chunk { start: begin, size: stop - begin });
        i = i + 1;
        assert(chunks@ =~= chunks_of(start, end).take(i as int));
    }
    assert(chunks@ =~= chunks_of(start, end));
    Some(chunks)
}

/// The chunks of a range cover it exactly: the first begins where it begins, each begins where
/// the one before it ends, the last ends where it ends, and none is empty or over the limit.
pub proof fn law_chunks_tile(start: usize, end: usize)
    requires
        range_fits(start, end),
    ensures
        chunks_of(start, end).len() == 0 <==> start == end,
        forall|i: int|
            0 <= i < chunks_of(start, end).len() ==> 0 < (#[trigger] chunks_of(start, end)[i]).size
                <= CHUNK_SIZE,
        start < end ==> {
            &&& chunks_of(start, end)[0].start == start
            &&& chunks_of(start, end).last().start + chunks_of(start, end).last().size == end
        },
        forall|i: int|
            0 <= i < chunks_of(start, end).len() - 1 ==> (#[trigger] chunks_of(start, end)[i]).start
                + chunks_of(start, end)[i].size == chunks_of(start, end)[i + 1].start,
{
}

/// Whether every one of several ranges can be cut up.
pub open spec fn ranges_fit(ranges: Seq<(usize, usize)>) -> bool {
    forall|i: int| 0 <= i < ranges.len() ==> range_fits((#[trigger] ranges[i]).0, ranges[i].1)
}

/// The chunks of each of several ranges.
pub open spec fn chunks_of_all(ranges: Seq<(usize, usize)>) -> Seq<Seq<Chunk>> {
    ranges.map_values(|range: (usize, usize)| chunks_of(range.0, range.1))
}

/// The chunks in several lists.
pub open spec fn chunk_lists(lists: Seq<Vec<Chunk>>) -> Seq<Seq<Chunk>> {
    lists.map_values(|list: Vec<Chunk>| list@)
}

/// Cuts each of several ranges into chunks, where every one can be cut up.
pub fn plan_ranges(ranges: &Vec<(usize, usize)>) -> (r: Option<Vec<Vec<Chunk>>>)
    ensures
        r is Some <==> ranges_fit(ranges@),
        r matches Some(lists) ==> chunk_lists(lists@) == chunks_of_all(ranges@),
{
    let mut out: Vec<Vec<Chunk>> = Vec::with_capacity(ranges.len());
    let mut i: usize = 0;
    while i < ranges.len()
        invariant
            i <= ranges.len(),
            forall|k: int| 0 <= k < i ==> range_fits((#[trigger] ranges@[k]).0, ranges@[k].1),
            out.len() == i,
            forall|k: int| 0 <= k < i ==> (#[trigger] out@[k])@ == chunks_of_all(ranges@)[k],
        decreases ranges.len() - i,
    {
        let (start, end): (usize, usize) = ranges[i];
        assert(ranges@[i as int] == (start, end));
        match plan_chunks(start, end) {
            Some(part) => out.push(part),
            None => return None,
        }
        i = i + 1;
    }
    assert(chunk_lists(out@) =~= chunks_of_all(ranges@));
    Some(out)
}

/// Every chunk planned for ranges that can be cut up holds something, is no longer than the limit,
/// and ends inside the address space.
pub proof fn law_planned_chunks(ranges: Seq<(usize, usize)>, i: int, k: int)
    requires
        ranges_fit(ranges),
        0 <= i < ranges.len(),
        0 <= k < chunks_of_all(ranges)[i].len(),
    ensures
        0 < chunks_of_all(ranges)[i][k].size <= CHUNK_SIZE,
        chunks_of_all(ranges)[i][k].start + chunks_of_all(ranges)[i][k].size <= usize::MAX,
{
    let (start, end) = ranges[i];
    assert(range_fits(start, end));
    law_chunks_tile(start, end);
    assert(chunks_of(start, end)[k] == chunk_at(start, end, k));
}

} // verus!
