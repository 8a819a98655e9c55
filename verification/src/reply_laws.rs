//! What clients are answered: refusals and headers, the bytes of reads, and the regions of a
//! listing.

use vstd::prelude::*;

use crate::bytes::{law_le_round_trip, le_value, lemma_byte_ranges};
use crate::memory::{
    frame, memory_step, read_chunk, read_reply, several_reply, write_chunk, write_reply,
    MemoryStepView,
};
use crate::number_laws::{law_decimal, spelled_number};
use crate::process::{
    arch_name, modules_told, no_modules, process_step, processes_told, server_told,
    ProcessStepView, TargetArch,
};
use crate::regions::{
    is_white_space, lemma_filter_map_add, lemma_pieces_add, pieces, region_of, regions_of,
    regions_told, words, Separator,
};
use crate::reply::{
    content_type_name, no_process, refusal, served, BodyView, ContentType, ModuleView, ProcessView,
    RegionView,
};
use crate::requests::{ReadMemoryRequest, WriteMemoryRequest};
use crate::text::decimal;

verus! {

/// Refusals are plain messages with the status of a bad request; what is served has the status of
/// success, the kind of its body and the body.
pub proof fn law_replies(message: Seq<char>, kind: ContentType, body: BodyView)
    ensures
        refusal(message).status == 400,
        refusal(message).content_type is None,
        refusal(message).body == BodyView::Text(message),
        no_process().status == 400,
        no_process().content_type is None,
        no_process().body == BodyView::Text("Pid not set"@),
        served(kind, body).status == 200,
        served(kind, body).content_type == Some(kind),
        served(kind, body).body == body,
{
}

/// The header values of the kinds of bodies.
pub proof fn law_content_types(kind: ContentType)
    ensures
        kind == ContentType::Json <==> content_type_name(kind) == "application/json"@,
        kind == ContentType::OctetStream <==> content_type_name(kind)
            == "application/octet-stream"@,
        kind == ContentType::PlainText <==> content_type_name(kind) == "text/plain"@,
        kind == ContentType::PlainTextUtf8 <==> content_type_name(kind)
            == "text/plain; charset=utf-8"@,
{
    reveal_strlit("application/json");
    reveal_strlit("application/octet-stream");
    reveal_strlit("text/plain");
    reveal_strlit("text/plain; charset=utf-8");
    assert("application/json"@.len() == 16 && "application/octet-stream"@.len() == 24);
    assert("text/plain"@.len() == 10 && "text/plain; charset=utf-8"@.len() == 25);
}

/// With a chosen process, a list of reads moves one piece per read from that process, in order,
/// each at the address and of the size that was asked for; without one, nothing is moved.
pub proof fn law_reads_asked_for(pid: i32, requests: Seq<ReadMemoryRequest>, i: int)
    ensures
        ({
            let asked = requests.map_values(|request: ReadMemoryRequest| read_chunk(request));
            &&& memory_step(Some(pid), asked) matches MemoryStepView::Transfer { pid: from, chunks }
            &&& from == pid
            &&& chunks.len() == requests.len()
            &&& 0 <= i < requests.len() ==> chunks[i].start == requests[i].address
                && chunks[i].size == requests[i].size
        }),
        memory_step(
            None,
            requests.map_values(|request: ReadMemoryRequest| read_chunk(request)),
        ) == MemoryStepView::Answer(no_process()),
{
}

/// A write moves exactly the bytes it was given, to the address it was given.
pub proof fn law_write_asked_for(pid: i32, request: WriteMemoryRequest)
    ensures
        memory_step(Some(pid), seq![write_chunk(request)]) matches MemoryStepView::Transfer {
            pid: to,
            chunks,
        } && to == pid && chunks.len() == 1 && chunks[0].start == request.address
            && chunks[0].size == request.buffer@.len(),
        memory_step(None, seq![write_chunk(request)]) == MemoryStepView::Answer(no_process()),
{
}

/// A read is answered with all the bytes read and no others, and with none where it failed; a write
/// with the message of its success, or a refusal.
pub proof fn law_transfers_answered(bytes: Seq<u8>)
    ensures
        read_reply(Some(bytes)).status == 200,
        read_reply(Some(bytes)).content_type == Some(ContentType::OctetStream),
        read_reply(Some(bytes)).body == BodyView::Bytes(bytes),
        read_reply(None) == read_reply(Some(Seq::empty())),
        write_reply(true).status == 200,
        write_reply(true).content_type == Some(ContentType::PlainText),
        write_reply(true).body == BodyView::Text("Memory successfully written"@),
        write_reply(false).status == 400,
        write_reply(false).content_type is None,
        write_reply(false).body == BodyView::Text("WriteProcessMemory error"@),
{
}

/// Processes and modules are told as they were seen, in order; where there are none, the service
/// itself and a message are.
pub proof fn law_listings_told(
    processes: Seq<ProcessView>,
    own_pid: i32,
    pid: i32,
    modules: Seq<ModuleView>,
)
    ensures
        processes_told(processes, own_pid).status == 200,
        processes_told(processes, own_pid).content_type == Some(ContentType::Json),
        processes.len() > 0 ==> processes_told(processes, own_pid).body == BodyView::Processes(
            processes,
        ),
        processes.len() == 0 ==> processes_told(processes, own_pid).body == BodyView::Processes(
            seq![ProcessView { pid: own_pid, processname: "self"@ }],
        ),
        modules_told(pid, modules).status == 200,
        modules_told(pid, modules).content_type == Some(ContentType::Json),
        modules.len() > 0 ==> modules_told(pid, modules).body == BodyView::Modules(modules),
        modules.len() == 0 ==> modules_told(pid, modules).body == BodyView::Modules(
            seq![ModuleView::Error(no_modules(pid))],
        ),
{
}

/// What the service tells about itself is what it was given, and a mode that is not set is unknown.
pub proof fn law_server_told(
    git_hash: Seq<char>,
    target_os: Seq<char>,
    target: TargetArch,
    pid: u32,
    mode: Seq<char>,
)
    ensures
        server_told(git_hash, target_os, target, pid, Some(mode)).status == 200,
        server_told(git_hash, target_os, target, pid, Some(mode)).content_type == Some(
            ContentType::Json,
        ),
        server_told(git_hash, target_os, target, pid, Some(mode)).body matches BodyView::Server(
            told,
        ) && told.git_hash == git_hash && told.target_os == target_os && told.arch == arch_name(
            target,
        ) && told.pid == pid && told.mode == mode,
        server_told(git_hash, target_os, target, pid, None) == server_told(
            git_hash,
            target_os,
            target,
            pid,
            Some("unknown"@),
        ),
{
}

/// A listing is answered with its regions exactly where it is text, whatever the text.
pub proof fn law_regions_told(text: Seq<char>, odd: Seq<u8>)
    requires
        !vstd::utf8::valid_utf8(odd),
    ensures
        regions_told(odd) is None,
        regions_told(vstd::utf8::encode_utf8(text)) matches Some(reply) && reply.status == 200
            && reply.content_type == Some(ContentType::Json) && reply.body == BodyView::Regions(
            regions_of(text),
        ),
{
    broadcast use vstd::utf8::encode_utf8_valid_utf8, vstd::utf8::encode_utf8_decode_utf8;

}

/// A request about the chosen process asks about that process.
pub proof fn law_process_asked_about(pid: i32)
    ensures
        process_step(Some(pid)) matches ProcessStepView::Inspect { pid: asked } && asked == pid,
        process_step(None) == ProcessStepView::Answer(no_process()),
{
}

/// A frame tells in its first four bytes whether there is a payload, in the next four how long it
/// is, and then is the payload.
pub proof fn law_frame(payload: Seq<u8>)
    requires
        payload.len() <= u32::MAX,
    ensures
        frame(None).len() == 4,
        le_value(frame(None)) == 0,
        frame(Some(payload)).len() == 8 + payload.len(),
        le_value(frame(Some(payload)).take(4)) == 1,
        le_value(frame(Some(payload)).subrange(4, 8)) == payload.len(),
        frame(Some(payload)).skip(8) == payload,
{
    lemma_byte_ranges();
    law_le_round_trip(0, 4);
    law_le_round_trip(1, 4);
    law_le_round_trip(payload.len(), 4);
    let whole = frame(Some(payload));
    assert(whole.take(4) =~= crate::bytes::le_bytes(1, 4));
    assert(whole.subrange(4, 8) =~= crate::bytes::le_bytes(payload.len(), 4));
    assert(whole.skip(8) =~= payload);
}

/// The reply to several reads has the bytes of the frames one after the other: those of the first
/// frames, then those of the last.
pub proof fn law_several_reply(frames: Seq<Seq<u8>>, last: Seq<u8>)
    ensures
        several_reply(Seq::empty()).body == BodyView::Bytes(Seq::empty()),
        several_reply(frames).status == 200,
        several_reply(frames).content_type == Some(ContentType::OctetStream),
        several_reply(frames).body matches BodyView::Bytes(before) && several_reply(
            frames.push(last),
        ).body == BodyView::Bytes(before + last),
{
    assert(frames.push(last).drop_last() =~= frames);
}

/// The names of the machines.
pub proof fn law_arch_names(target: TargetArch)
    ensures
        target.x86_64 ==> arch_name(target) == "x86_64"@,
        !target.x86_64 && target.aarch64 ==> arch_name(target) == "aarch64"@,
        !target.x86_64 && !target.aarch64 && target.arm ==> arch_name(target) == "arm"@,
        !target.x86_64 && !target.aarch64 && !target.arm && target.x86 ==> arch_name(target)
            == "x86"@,
        !target.x86_64 && !target.aarch64 && !target.arm && !target.x86 ==> arch_name(target)
            == "unknown"@,
{
}

/// The message for a process without modules ends in its identifier.
pub proof fn law_no_modules(pid: i32)
    ensures
        ({
            let prefix = "No modules found for process with PID: "@;
            let rest = no_modules(pid).skip(prefix.len() as int);
            &&& no_modules(pid).take(prefix.len() as int) == prefix
            &&& pid >= 0 ==> spelled_number(rest) == pid
            &&& pid < 0 ==> rest[0] == '-' && spelled_number(rest.drop_first()) == -pid
        }),
{
    let prefix = "No modules found for process with PID: "@;
    law_decimal(pid as int);
    assert(no_modules(pid).take(prefix.len() as int) =~= prefix);
    assert(no_modules(pid).skip(prefix.len() as int) =~= decimal(pid as int));
}

/// Whether no character of a text separates.
pub open spec fn is_whole(text: Seq<char>, separator: Separator) -> bool {
    forall|i: int| 0 <= i < text.len() ==> !separator.is(#[trigger] text[i])
}

/// The characters that separate lines and the ends of a range, and the code points of those that
/// separate words.
pub proof fn law_separators(c: char)
    ensures
        Separator::Newline.is(c) <==> c == '\n',
        Separator::Dash.is(c) <==> c == '-',
        Separator::WhiteSpace.is(c) <==> is_white_space(c),
        is_white_space(c) <==> seq![
            0x9int, 0xa, 0xb, 0xc, 0xd, 0x20, 0x85, 0xa0, 0x1680, 0x2000, 0x2001, 0x2002, 0x2003,
            0x2004, 0x2005, 0x2006, 0x2007, 0x2008, 0x2009, 0x200a, 0x2028, 0x2029, 0x202f, 0x205f,
            0x3000,
        ].contains(c as int),
{
    let codes = seq![
        0x9int, 0xa, 0xb, 0xc, 0xd, 0x20, 0x85, 0xa0, 0x1680, 0x2000, 0x2001, 0x2002, 0x2003,
        0x2004, 0x2005, 0x2006, 0x2007, 0x2008, 0x2009, 0x200a, 0x2028, 0x2029, 0x202f, 0x205f,
        0x3000,
    ];
    let v = c as int;
    if 0x9 <= v <= 0xd {
        assert(codes[v - 0x9] == v);
    } else if v == 0x20 {
        assert(codes[5] == v);
    } else if v == 0x85 {
        assert(codes[6] == v);
    } else if v == 0xa0 {
        assert(codes[7] == v);
    } else if v == 0x1680 {
        assert(codes[8] == v);
    } else if 0x2000 <= v <= 0x200a {
        assert(codes[9 + v - 0x2000] == v);
    } else if v == 0x2028 {
        assert(codes[20] == v);
    } else if v == 0x2029 {
        assert(codes[21] == v);
    } else if v == 0x202f {
        assert(codes[22] == v);
    } else if v == 0x205f {
        assert(codes[23] == v);
    } else if v == 0x3000 {
        assert(codes[24] == v);
    }
}

/// A text without a separator is one piece, and a separator between two texts ends the last piece
/// of the first and begins the first piece of the second.
pub proof fn law_pieces(a: Seq<char>, c: char, b: Seq<char>, separator: Separator)
    requires
        separator.is(c),
    ensures
        is_whole(a, separator) ==> pieces(a, separator) == seq![a],
        pieces(a + seq![c] + b, separator) == pieces(a, separator) + pieces(b, separator),
    decreases a.len(),
{
    let (first, second) = (pieces(a, separator), pieces(b, separator));
    let middle = pieces(seq![c], separator);
    reveal_with_fuel(pieces, 2);
    assert(seq![c].drop_last() =~= Seq::empty());
    assert(middle =~= seq![Seq::<char>::empty(), Seq::<char>::empty()]);
    lemma_pieces_add(a, seq![c], separator);
    lemma_pieces_add(a + seq![c], b, separator);
    let begun = pieces(a + seq![c], separator);
    assert(first.last() + middle[0] =~= first.last());
    assert(begun =~= first.push(Seq::empty()));
    assert(begun.last() + second[0] =~= second[0]);
    assert(pieces(a + seq![c] + b, separator) =~= first + second);
    if is_whole(a, separator) {
        lemma_whole(a, separator);
    }
}

proof fn lemma_whole(text: Seq<char>, separator: Separator)
    requires
        is_whole(text, separator),
    ensures
        pieces(text, separator) == seq![text],
    decreases text.len(),
{
    if text.len() == 0 {
        assert(text =~= Seq::empty());
        assert(pieces(text, separator) =~= seq![text]);
    } else {
        let front = text.drop_last();
        assert forall|i: int| 0 <= i < front.len() implies !separator.is(#[trigger] front[i]) by {
            assert(front[i] == text[i]);
        }
        lemma_whole(front, separator);
        assert(!separator.is(text[text.len() - 1]));
        assert(front.push(text.last()) =~= text);
        assert(pieces(text, separator) =~= seq![text]);
    }
}

/// A text without white space is one word, unless it is empty, and white space between two texts
/// keeps their words apart.
pub proof fn law_words(a: Seq<char>, c: char, b: Seq<char>)
    requires
        is_white_space(c),
    ensures
        words(Seq::<char>::empty()).len() == 0,
        a.len() > 0 && is_whole(a, Separator::WhiteSpace) ==> words(a) == seq![a],
        words(a + seq![c] + b) == words(a) + words(b),
{
    let is_word = |word: Seq<char>| word.len() > 0;
    law_pieces(a, c, b, Separator::WhiteSpace);
    Seq::filter_distributes_over_add(
        pieces(a, Separator::WhiteSpace),
        pieces(b, Separator::WhiteSpace),
        is_word,
    );
    lemma_whole(Seq::empty(), Separator::WhiteSpace);
    lemma_single(Seq::empty(), is_word);
    lemma_single(a, is_word);
}

proof fn lemma_single<T>(x: T, pred: spec_fn(T) -> bool)
    ensures
        seq![x].filter(pred) == (if pred(x) {
            seq![x]
        } else {
            Seq::empty()
        }),
{
    reveal_with_fuel(Seq::filter, 2);
    assert(seq![x].drop_last() =~= Seq::empty());
    assert(Seq::<T>::empty().filter(pred) =~= Seq::empty());
    if pred(x) {
        assert(Seq::<T>::empty().push(x) =~= seq![x]);
    }
}

/// A line break between two listings keeps their regions apart.
pub proof fn law_lines(a: Seq<char>, b: Seq<char>)
    ensures
        regions_of(a + seq!['\n'] + b) == regions_of(a) + regions_of(b),
{
    law_pieces(a, '\n', b, Separator::Newline);
    lemma_filter_map_add(
        pieces(a, Separator::Newline),
        pieces(b, Separator::Newline),
        |line: Seq<char>| region_of(words(line)),
    );
}

proof fn lemma_one_line(line: Seq<char>)
    requires
        is_whole(line, Separator::Newline),
    ensures
        regions_of(line) == (match region_of(words(line)) {
            Some(region) => seq![region],
            None => Seq::empty(),
        }),
{
    lemma_whole(line, Separator::Newline);
    Seq::lemma_filter_map_singleton(line, |line: Seq<char>| region_of(words(line)));
}

/// A word without white space has no line break either.
proof fn lemma_no_break(text: Seq<char>)
    requires
        is_whole(text, Separator::WhiteSpace),
    ensures
        is_whole(text, Separator::Newline),
{
    assert forall|i: int| 0 <= i < text.len() implies !Separator::Newline.is(
        #[trigger] text[i],
    ) by {
        assert(!Separator::WhiteSpace.is(text[i]));
    }
}

proof fn lemma_whole_add(a: Seq<char>, b: Seq<char>, separator: Separator)
    requires
        is_whole(a, separator),
        is_whole(b, separator),
    ensures
        is_whole(a + b, separator),
{
    assert forall|i: int| 0 <= i < (a + b).len() implies !separator.is(#[trigger] (a + b)[i]) by {
        if i < a.len() {
            assert((a + b)[i] == a[i]);
        } else {
            assert((a + b)[i] == b[i - a.len()]);
        }
    }
}

/// The first word of a region's line: its two addresses with a dash between them.
proof fn lemma_ends(start: Seq<char>, end: Seq<char>)
    requires
        is_whole(start, Separator::WhiteSpace),
        is_whole(end, Separator::WhiteSpace),
        is_whole(start, Separator::Dash),
        is_whole(end, Separator::Dash),
    ensures
        is_whole(start + seq!['-'] + end, Separator::WhiteSpace),
        pieces(start + seq!['-'] + end, Separator::Dash) == seq![start, end],
{
    assert(is_whole(seq!['-'], Separator::WhiteSpace));
    lemma_whole_add(start, seq!['-'], Separator::WhiteSpace);
    lemma_whole_add(start + seq!['-'], end, Separator::WhiteSpace);
    law_pieces(start, '-', end, Separator::Dash);
    lemma_whole(end, Separator::Dash);
    assert(seq![start] + seq![end] =~= seq![start, end]);
}

/// A line with two addresses of any length, a protection and nothing else is one region without a
/// path.
pub proof fn law_region_without_path(start: Seq<char>, end: Seq<char>, protection: Seq<char>)
    requires
        is_whole(start, Separator::WhiteSpace),
        is_whole(end, Separator::WhiteSpace),
        is_whole(start, Separator::Dash),
        is_whole(end, Separator::Dash),
        protection.len() > 0,
        is_whole(protection, Separator::WhiteSpace),
    ensures
        regions_of(start + seq!['-'] + end + seq![' '] + protection) == seq![
            RegionView {
                start_address: start,
                end_address: end,
                protection,
                file_path: None,
            },
        ],
{
    let range = start + seq!['-'] + end;
    let line = range + seq![' '] + protection;
    lemma_ends(start, end);
    law_words(range, ' ', protection);
    law_words(protection, ' ', range);
    assert(range[start.len() as int] == '-');
    assert(words(line) =~= seq![range, protection]);
    lemma_no_break(range);
    lemma_no_break(protection);
    assert(is_whole(seq![' '], Separator::Newline));
    lemma_whole_add(range, seq![' '], Separator::Newline);
    lemma_whole_add(range + seq![' '], protection, Separator::Newline);
    lemma_one_line(line);
}

/// A line with two addresses of any length, a protection and a path is one region with that path,
/// whatever stands behind them on the line.
pub proof fn law_region_with_path(
    start: Seq<char>,
    end: Seq<char>,
    protection: Seq<char>,
    path: Seq<char>,
    rest: Seq<char>,
)
    requires
        is_whole(start, Separator::WhiteSpace),
        is_whole(end, Separator::WhiteSpace),
        is_whole(start, Separator::Dash),
        is_whole(end, Separator::Dash),
        protection.len() > 0,
        is_whole(protection, Separator::WhiteSpace),
        path.len() > 0,
        is_whole(path, Separator::WhiteSpace),
        is_whole(rest, Separator::Newline),
    ensures
        ({
            let line = start + seq!['-'] + end + seq![' '] + protection + seq![' '] + path;
            let region = RegionView {
                start_address: start,
                end_address: end,
                protection,
                file_path: Some(path),
            };
            &&& regions_of(line) == seq![region]
            &&& regions_of(line + seq![' '] + rest) == seq![region]
        }),
{
    let range = start + seq!['-'] + end;
    let front = range + seq![' '] + protection;
    let line = front + seq![' '] + path;
    let longer = line + seq![' '] + rest;
    lemma_ends(start, end);
    law_words(range, ' ', protection);
    law_words(protection, ' ', range);
    law_words(front, ' ', path);
    law_words(path, ' ', front);
    law_words(line, ' ', rest);
    assert(range[start.len() as int] == '-');
    assert(words(front) =~= seq![range, protection]);
    assert(words(line) =~= seq![range, protection, path]);
    assert(words(longer) =~= words(line) + words(rest));
    assert(words(longer)[0] == range && words(longer)[1] == protection && words(longer)[2] == path);
    lemma_no_break(range);
    lemma_no_break(protection);
    lemma_no_break(path);
    assert(is_whole(seq![' '], Separator::Newline));
    lemma_whole_add(range, seq![' '], Separator::Newline);
    lemma_whole_add(range + seq![' '], protection, Separator::Newline);
    lemma_whole_add(front, seq![' '], Separator::Newline);
    lemma_whole_add(front + seq![' '], path, Separator::Newline);
    lemma_whole_add(line, seq![' '], Separator::Newline);
    lemma_whole_add(line + seq![' '], rest, Separator::Newline);
    lemma_one_line(line);
    lemma_one_line(longer);
}

/// A line of fewer than two words, and one whose first word has no dash or more than one, is passed
/// over.
pub proof fn law_no_region(line: Seq<char>)
    requires
        is_whole(line, Separator::Newline),
    ensures
        words(line).len() < 2 ==> regions_of(line).len() == 0,
        words(line).len() >= 2 && pieces(words(line)[0], Separator::Dash).len() != 2
            ==> regions_of(line).len() == 0,
        regions_of(line).len() <= 1,
{
    lemma_one_line(line);
}

} // verus!
