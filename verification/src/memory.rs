//! Reading and writing the memory of the chosen process.

use vstd::prelude::*;

use crate::block::{holds_sized, lz4_compress, LZ4_MAX_INPUT};
use crate::bytes::{
    law_le_round_trip, le_bytes, le_value, lemma_byte_ranges, push_le,
};
use crate::chunks::Chunk;
use crate::matched::joined;
use crate::reply::{
    no_process, refusal, served, Body, BodyView, ContentType, Reply, ReplyView,
};
use crate::requests::{ReadMemoryRequest, WriteMemoryRequest};

verus! {

/// What a request to read or write asks of the service.
#[derive(Debug, PartialEq, Eq)]
pub enum MemoryStep {
    /// Answer at once.
    Answer(Reply),
    /// Move these bytes from or to this process.
    Transfer { pid: i32, chunks: Vec<Chunk> },
}

/// What a request to read or write asks of the service.
#[verifier::ext_equal]
pub enum MemoryStepView {
    Answer(ReplyView),
    Transfer { pid: i32, chunks: Seq<Chunk> },
}

impl View for MemoryStep {
    type V = MemoryStepView;

    open spec fn view(&self) -> MemoryStepView {
        match *self {
            MemoryStep::Answer(reply) => MemoryStepView::Answer(reply@),
            MemoryStep::Transfer { pid, chunks } => MemoryStepView::Transfer {
                pid,
                chunks: chunks@,
            },
        }
    }
}

/// The bytes are moved where a process was chosen; otherwise the request is refused.
pub open spec fn memory_step(pid_state: Option<i32>, chunks: Seq<Chunk>) -> MemoryStepView {
    match pid_state {
        Some(pid) => MemoryStepView::Transfer { pid, chunks },
        None => MemoryStepView::Answer(no_process()),
    }
}

/// Moves the bytes where a process was chosen, and refuses otherwise.
fn transfer(pid_state: Option<i32>, chunks: Vec<Chunk>) -> (r: MemoryStep)
    ensures
        r@ == memory_step(pid_state, chunks@),
{
    match pid_state {
        Some(pid) => MemoryStep::Transfer { pid, chunks },
        None => MemoryStep::Answer(Reply::pid_not_set()),
    }
}

/// The bytes that a request to read asks for.
pub open spec fn read_chunk(request: ReadMemoryRequest) -> Chunk {
    Chunk { start: request.address, size: request.size }
}

/// How many bytes a transfer moved, where the system did not report a failure by a negative
/// number.
pub fn transferred(result: isize) -> (r: Option<isize>)
    ensures
        r == (if result >= 0 {
            Some(result)
        } else {
            None
        }),
{
    if result >= 0 {
        Some(result)
    } else {
        None
    }
}

/// Whether a process has to be resumed: only one that was to be suspended and was.
pub fn must_resume(do_suspend: bool, suspended: bool) -> (r: bool)
    ensures
        r == (do_suspend && suspended),
{
    do_suspend && suspended
}

/// Decides what a request to read asks for.
pub fn read_memory_handler(pid_state: Option<i32>, read_memory: &ReadMemoryRequest) -> (r:
    MemoryStep)
    ensures
        r@ == memory_step(pid_state, seq![read_chunk(*read_memory)]),
        pid_state matches Some(pid) ==> {
            &&& r matches MemoryStep::Transfer { pid: asked, chunks }
            &&& asked == pid
            &&& chunks.len() == 1
            &&& chunks@[0].start == read_memory.address
            &&& chunks@[0].size == read_memory.size
        },
{
    let mut chunks: Vec<Chunk> = Vec::new();
    chunks.push(Chunk { start: read_memory.address, size: read_memory.size });
    assert(chunks@ =~= seq![read_chunk(*read_memory)]);
    transfer(pid_state, chunks)
}

/// The reply to a read: the bytes, or none where they could not be read.
pub open spec fn read_reply(outcome: Option<Seq<u8>>) -> ReplyView {
    served(
        ContentType::OctetStream,
        BodyView::Bytes(
            match outcome {
                Some(bytes) => bytes,
                None => Seq::empty(),
            },
        ),
    )
}

/// Answers with the bytes read, with none where they could not be read.
pub fn read_memory_reply(outcome: Option<Vec<u8>>) -> (r: Reply)
    ensures
        r@ == read_reply(
            match outcome {
                Some(bytes) => Some(bytes@),
                None => None,
            },
        ),
{
    let bytes: Vec<u8> = match outcome {
        Some(bytes) => bytes,
        None => Vec::new(),
    };
    Reply::serve(ContentType::OctetStream, Body::Bytes(bytes))
}

/// The bytes that a request to write asks for.
pub open spec fn write_chunk(request: WriteMemoryRequest) -> Chunk {
    Chunk { start: request.address, size: request.buffer.len() }
}

/// Decides what a request to write asks for.
pub fn write_memory_handler(pid_state: Option<i32>, write_memory: &WriteMemoryRequest) -> (r:
    MemoryStep)
    ensures
        r@ == memory_step(pid_state, seq![write_chunk(*write_memory)]),
        pid_state matches Some(pid) ==> {
            &&& r matches MemoryStep::Transfer { pid: asked, chunks }
            &&& asked == pid
            &&& chunks.len() == 1
            &&& chunks@[0].start == write_memory.address
            &&& chunks@[0].size == write_memory.buffer.len()
        },
{
    let mut chunks: Vec<Chunk> = Vec::new();
    chunks.push(Chunk { start: write_memory.address, size: write_memory.buffer.len() });
    assert(chunks@ =~= seq![write_chunk(*write_memory)]);
    transfer(pid_state, chunks)
}

/// The reply to a write.
pub open spec fn write_reply(written: bool) -> ReplyView {
    if written {
        served(ContentType::PlainText, BodyView::Text("Memory successfully written"@))
    } else {
        refusal("WriteProcessMemory error"@)
    }
}

/// Answers whether the bytes were written.
pub fn write_memory_reply(written: bool) -> (r: Reply)
    ensures
        r@ == write_reply(written),
{
    if written {
        Reply::serve(
            ContentType::PlainText,
            Body::Text("Memory successfully written".to_owned()),
        )
    } else {
        Reply::refuse("WriteProcessMemory error")
    }
}

/// Decides what a request for several reads asks for.
pub fn read_memory_multiple_handler(
    pid_state: Option<i32>,
    read_memory_requests: &Vec<ReadMemoryRequest>,
) -> (r: MemoryStep)
    ensures
        r@ == memory_step(
            pid_state,
            read_memory_requests@.map_values(|request: ReadMemoryRequest| read_chunk(request)),
        ),
        pid_state matches Some(pid) ==> {
            &&& r matches MemoryStep::Transfer { pid: asked, chunks }
            &&& asked == pid
            &&& chunks.len() == read_memory_requests.len()
            &&& forall|i: int|
                0 <= i < chunks.len() ==> (#[trigger] chunks@[i]).start
                    == read_memory_requests@[i].address && chunks@[i].size
                    == read_memory_requests@[i].size
        },
{
    let mut chunks: Vec<Chunk> = Vec::with_capacity(read_memory_requests.len());
    let mut i: usize = 0;
    while i < read_memory_requests.len()
        invariant
            i <= read_memory_requests.len(),
            chunks.len() == i,
            forall|k: int|
                0 <= k < i ==> #[trigger] chunks@[k] == read_chunk(read_memory_requests@[k]),
        decreases read_memory_requests.len() - i,
    {
        let request: &ReadMemoryRequest = &read_memory_requests[i];
        chunks.push(Chunk { start: request.address, size: request.size });
        i = i + 1;
    }
    assert(chunks@ =~= read_memory_requests@.map_values(
        |request: ReadMemoryRequest| read_chunk(request),
    ));
    transfer(pid_state, chunks)
}

/// One read in the reply to several: a one, the length of the payload and the payload, or a zero
/// where the read failed. The numbers take four little-endian bytes each.
pub open spec fn frame(payload: Option<Seq<u8>>) -> Seq<u8> {
    match payload {
        Some(payload) => le_bytes(1, 4) + le_bytes(payload.len(), 4) + payload,
        None => le_bytes(0, 4),
    }
}

/// Whether a frame holds what was read: nothing, or the bytes compressed behind their length. Where
/// the compressed block is settled there is one such frame.
pub open spec fn frames_read(bytes: Seq<u8>, outcome: Option<Seq<u8>>) -> bool {
    match outcome {
        Some(data) => exists|payload: Seq<u8>|
            holds_sized(payload, data) && bytes == #[trigger] frame(Some(payload)),
        None => bytes == frame(None),
    }
}

/// Frames a payload.
pub fn frame_payload(payload: Option<&Vec<u8>>) -> (r: Vec<u8>)
    ensures
        r@ == frame(
            match payload {
                Some(payload) => Some(payload@),
                None => None,
            },
        ),
{
    let mut out: Vec<u8> = Vec::new();
    match payload {
        Some(payload) => {
            push_le(&mut out, 1, 4);
            push_le(&mut out, payload.len() as u64, 4);
            let ghost head = out@;
            let mut i: usize = 0;
            assert(payload@.take(0) =~= Seq::empty());
            assert(out@ =~= head + payload@.take(0));
            while i < payload.len()
                invariant
                    i <= payload.len(),
                    out@ == head + payload@.take(i as int),
                decreases payload.len() - i,
            {
                out.push(payload[i]);
                i = i + 1;
                assert(out@ =~= head + payload@.take(i as int));
            }
            assert(payload@.take(i as int) =~= payload@);
            assert(out@ =~= frame(Some(payload@)));
        },
        None => {
            push_le(&mut out, 0, 4);
            assert(out@ =~= frame(None));
        },
    }
    out
}

/// Frames one of several reads. What is too long to be compressed has no frame.
pub fn frame_read(outcome: Option<&Vec<u8>>) -> (r: Option<Vec<u8>>)
    ensures
        r is None <==> outcome is Some && outcome->0@.len() > LZ4_MAX_INPUT,
        r matches Some(bytes) ==> frames_read(
            bytes@,
            match outcome {
                Some(data) => Some(data@),
                None => None,
            },
        ),
{
    match outcome {
        Some(data) => match lz4_compress(data.as_slice(), true) {
            Some(payload) => {
                let framed: Vec<u8> = frame_payload(Some(&payload));
                assert(holds_sized(payload@, data@));
                Some(framed)
            },
            None => None,
        },
        None => Some(frame_payload(None)),
    }
}

/// The bytes of a list of byte strings.
pub open spec fn byte_lists(list: Seq<Vec<u8>>) -> Seq<Seq<u8>> {
    list.map_values(|bytes: Vec<u8>| bytes@)
}

/// The reply to several reads with these frames.
pub open spec fn several_reply(frames: Seq<Seq<u8>>) -> ReplyView {
    served(ContentType::OctetStream, BodyView::Bytes(joined(frames)))
}

/// Answers with the frames of several reads, one after the other.
pub fn read_memory_multiple_reply(frames: Vec<Vec<u8>>) -> (r: Reply)
    ensures
        r@ == several_reply(byte_lists(frames@)),
{
    let ghost all = byte_lists(frames@);
    let count: usize = frames.len();
    let mut frames: Vec<Vec<u8>> = frames;
    let mut out: Vec<u8> = Vec::new();
    let mut i: usize = 0;
    assert(all.take(0) =~= Seq::empty());
    assert(out@ =~= joined(all.take(0)));
    while i < count
        invariant
            i <= count == all.len(),
            frames.len() == count,
            forall|k: int| i <= k < count ==> (#[trigger] frames@[k])@ == all[k],
            out@ == joined(all.take(i as int)),
        decreases count - i,
    {
        assert(all.take(i + 1).drop_last() =~= all.take(i as int));
        assert(frames@[i as int]@ == all[i as int]);
        out.append(&mut frames[i]);
        i = i + 1;
    }
    assert(all.take(count as int) =~= all);
    Reply::serve(ContentType::OctetStream, Body::Bytes(out))
}

/// The payloads in a row of frames.
pub open spec fn split_frames(bytes: Seq<u8>) -> Option<Seq<Option<Seq<u8>>>>
    decreases bytes.len(),
{
    if bytes.len() == 0 {
        Some(Seq::empty())
    } else if bytes.len() < 4 {
        None
    } else if le_value(bytes.take(4)) == 0 {
        match split_frames(bytes.skip(4)) {
            Some(rest) => Some(seq![None] + rest),
            None => None,
        }
    } else if bytes.len() < 8 {
        None
    } else {
        let len = le_value(bytes.subrange(4, 8)) as int;
        if 8 + len > bytes.len() {
            None
        } else {
            match split_frames(bytes.skip(8 + len)) {
                Some(rest) => Some(seq![Some(bytes.subrange(8, 8 + len))] + rest),
                None => None,
            }
        }
    }
}

/// The frames of a list of payloads.
pub open spec fn all_frames(payloads: Seq<Option<Seq<u8>>>) -> Seq<Seq<u8>> {
    payloads.map_values(|payload: Option<Seq<u8>>| frame(payload))
}

proof fn lemma_joined_first<T>(lists: Seq<Seq<T>>)
    requires
        lists.len() > 0,
    ensures
        joined(lists) == lists[0] + joined(lists.drop_first()),
    decreases lists.len(),
{
    let front = lists.drop_last();
    if front.len() == 0 {
        assert(joined(front) =~= Seq::empty());
        assert(lists.drop_first() =~= Seq::empty());
        assert(joined(lists) =~= lists[0] + joined(lists.drop_first()));
    } else {
        lemma_joined_first(front);
        assert(front.drop_first() =~= lists.drop_first().drop_last());
        assert(lists.drop_first().last() == lists.last());
        assert(joined(lists) =~= lists[0] + joined(lists.drop_first()));
    }
}

/// The reply to several reads can be taken apart again: the row of frames gives back, in order,
/// every payload and every failure it was made of.
pub proof fn law_frames_split(payloads: Seq<Option<Seq<u8>>>)
    requires
        forall|i: int|
            0 <= i < payloads.len() && (#[trigger] payloads[i]) is Some ==> payloads[i]->0.len()
                <= u32::MAX,
    ensures
        split_frames(joined(all_frames(payloads))) == Some(payloads),
    decreases payloads.len(),
{
    let bytes = joined(all_frames(payloads));
    if payloads.len() == 0 {
        assert(all_frames(payloads) =~= Seq::empty());
        assert(bytes =~= Seq::empty());
        assert(payloads =~= Seq::empty());
    } else {
        let rest = payloads.drop_first();
        let first = frame(payloads[0]);
        lemma_joined_first(all_frames(payloads));
        assert(all_frames(payloads).drop_first() =~= all_frames(rest));
        let tail = joined(all_frames(rest));
        assert(bytes == first + tail);
        assert forall|i: int| 0 <= i < rest.len() && (#[trigger] rest[i]) is Some implies rest[i]
            ->0.len() <= u32::MAX by {
            assert(rest[i] == payloads[i + 1]);
        }
        law_frames_split(rest);
        lemma_byte_ranges();
        law_le_round_trip(0, 4);
        law_le_round_trip(1, 4);
        match payloads[0] {
            None => {
                assert(bytes.take(4) =~= le_bytes(0, 4));
                assert(bytes.skip(4) =~= tail);
                assert(payloads =~= seq![None] + rest);
            },
            Some(payload) => {
                law_le_round_trip(payload.len(), 4);
                assert(bytes.take(4) =~= le_bytes(1, 4));
                assert(bytes.subrange(4, 8) =~= le_bytes(payload.len(), 4));
                assert(bytes.subrange(8, 8 + payload.len() as int) =~= payload);
                assert(bytes.skip(8 + payload.len() as int) =~= tail);
                assert(payloads =~= seq![Some(payload)] + rest);
            },
        }
    }
}

} // verus!
