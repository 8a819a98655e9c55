//! Reading and writing memory, and telling about processes, modules, regions and the service.

use memory_server::chunks::Chunk;
use memory_server::memory::{
    frame_payload, frame_read, must_resume, read_memory_handler, read_memory_multiple_handler,
    read_memory_multiple_reply, read_memory_reply, transferred, write_memory_handler,
    write_memory_reply, MemoryStep,
};
use memory_server::process::{
    enummodule_handler, enumerate_process_handler, modules_reply, open_process_handler,
    server_info_handler, ProcessStep, TargetArch,
};
use memory_server::regions::{enumerate_regions_handler, parse_regions, regions_reply};
use memory_server::reply::{
    Body, ContentType, ModuleEntry, ModuleLine, ProcessEntry, Region, Reply, ServerInfo,
};
use memory_server::requests::{OpenProcess, ReadMemoryRequest, WriteMemoryRequest};

fn not_set() -> Reply {
    Reply { status: 400, content_type: None, body: Body::Text("Pid not set".to_string()) }
}

fn region(start: &str, end: &str, protection: &str, path: Option<&str>) -> Region {
    Region {
        start_address: start.to_string(),
        end_address: end.to_string(),
        protection: protection.to_string(),
        file_path: path.map(|path| path.to_string()),
    }
}

fn payload_of(frame: &[u8]) -> (u32, Vec<u8>) {
    let mut word = [0u8; 4];
    word.copy_from_slice(&frame[4..8]);
    (u32::from_le_bytes(word), frame[8..].to_vec())
}

#[test]
fn opened_process_is_chosen() {
    let mut chosen: Option<i32> = None;
    let reply = open_process_handler(&mut chosen, OpenProcess { pid: 31 });
    assert_eq!(chosen, Some(31));
    assert_eq!(reply.status, 200);
    assert_eq!(reply.content_type.unwrap().name(), "text/plain; charset=utf-8");
    assert_eq!(reply.body, Body::Text("OK".to_string()));
    open_process_handler(&mut chosen, OpenProcess { pid: -2 });
    assert_eq!(chosen, Some(-2));
}

#[test]
fn everything_about_a_process_is_refused_before_one_is_chosen() {
    let read = ReadMemoryRequest { address: 1, size: 2 };
    let write = WriteMemoryRequest { address: 1, buffer: vec![1] };
    assert_eq!(read_memory_handler(None, &read), MemoryStep::Answer(not_set()));
    assert_eq!(read_memory_multiple_handler(None, &vec![read]), MemoryStep::Answer(not_set()));
    assert_eq!(write_memory_handler(None, &write), MemoryStep::Answer(not_set()));
    assert_eq!(enumerate_regions_handler(None), ProcessStep::Answer(not_set()));
    assert_eq!(enummodule_handler(None), ProcessStep::Answer(not_set()));
}

#[test]
fn chosen_process_is_the_one_asked_about() {
    let read = ReadMemoryRequest { address: 16, size: 2 };
    assert_eq!(
        read_memory_handler(Some(5), &read),
        MemoryStep::Transfer { pid: 5, chunks: vec![Chunk { start: 16, size: 2 }] }
    );
    let write = WriteMemoryRequest { address: 32, buffer: vec![1, 2, 3] };
    assert_eq!(
        write_memory_handler(Some(5), &write),
        MemoryStep::Transfer { pid: 5, chunks: vec![Chunk { start: 32, size: 3 }] }
    );
    let other = ReadMemoryRequest { address: 64, size: 0 };
    assert_eq!(
        read_memory_multiple_handler(Some(5), &vec![read, other]),
        MemoryStep::Transfer {
            pid: 5,
            chunks: vec![Chunk { start: 16, size: 2 }, Chunk { start: 64, size: 0 }],
        }
    );
    assert_eq!(enumerate_regions_handler(Some(5)), ProcessStep::Inspect { pid: 5 });
    assert_eq!(enummodule_handler(Some(6)), ProcessStep::Inspect { pid: 6 });
}

#[test]
fn negative_transfers_are_failures() {
    assert_eq!(transferred(0), Some(0));
    assert_eq!(transferred(12), Some(12));
    assert_eq!(transferred(-1), None);
    assert_eq!(transferred(isize::MIN), None);
}

#[test]
fn only_a_suspended_process_is_resumed() {
    assert!(must_resume(true, true));
    assert!(!must_resume(true, false));
    assert!(!must_resume(false, true));
    assert!(!must_resume(false, false));
}

#[test]
fn read_bytes_are_answered_as_they_are() {
    let reply = read_memory_reply(Some(vec![1, 2, 3]));
    assert_eq!(reply.status, 200);
    assert_eq!(reply.content_type, Some(ContentType::OctetStream));
    assert_eq!(reply.body, Body::Bytes(vec![1, 2, 3]));
    let failed = read_memory_reply(None);
    assert_eq!(failed.status, 200);
    assert_eq!(failed.body, Body::Bytes(vec![]));
}

#[test]
fn writing_is_confirmed_or_refused() {
    let written = write_memory_reply(true);
    assert_eq!(written.status, 200);
    assert_eq!(written.content_type.unwrap().name(), "text/plain");
    assert_eq!(written.body, Body::Text("Memory successfully written".to_string()));
    let refused = write_memory_reply(false);
    assert_eq!(refused.status, 400);
    assert_eq!(refused.content_type, None);
    assert_eq!(refused.body, Body::Text("WriteProcessMemory error".to_string()));
}

#[test]
fn payloads_are_framed() {
    assert_eq!(frame_payload(None), vec![0, 0, 0, 0]);
    assert_eq!(
        frame_payload(Some(&vec![9, 8, 7])),
        vec![1, 0, 0, 0, 3, 0, 0, 0, 9, 8, 7]
    );
    let long = vec![5u8; 0x1_0203];
    let frame = frame_payload(Some(&long));
    assert_eq!(&frame[..8], &[1, 0, 0, 0, 3, 2, 1, 0]);
    assert_eq!(frame.len(), 8 + 0x1_0203);
}

#[test]
fn framed_reads_restore_to_what_was_read() {
    let bytes: Vec<u8> = (0..4096u32).map(|i| (i / 7) as u8).collect();
    for data in [vec![], vec![42], bytes] {
        let frame = frame_read(Some(&data)).unwrap();
        assert_eq!(&frame[..4], &[1, 0, 0, 0]);
        let (len, payload) = payload_of(&frame);
        assert_eq!(len as usize, payload.len());
        assert_eq!(&payload[..4], &(data.len() as u32).to_le_bytes());
        assert_eq!(lz4::block::decompress(&payload, None).unwrap(), data);
    }
    assert_eq!(frame_read(None), Some(vec![0, 0, 0, 0]));
}

#[test]
fn compressible_reads_take_less_room() {
    let frame = frame_read(Some(&vec![0; 100_000])).unwrap();
    assert!(frame.len() < 1_000);
}

#[test]
fn several_reads_are_answered_in_a_row() {
    let reply = read_memory_multiple_reply(vec![
        frame_payload(Some(&vec![7])),
        frame_payload(None),
        frame_payload(Some(&vec![])),
    ]);
    assert_eq!(reply.content_type, Some(ContentType::OctetStream));
    assert_eq!(
        reply.body,
        Body::Bytes(vec![1, 0, 0, 0, 1, 0, 0, 0, 7, 0, 0, 0, 0, 1, 0, 0, 0, 0, 0, 0, 0])
    );
    assert_eq!(read_memory_multiple_reply(vec![]).body, Body::Bytes(vec![]));
}

#[test]
fn regions_are_read_from_a_listing() {
    let listing = "1000-2000 r-xp /lib/a.so\n\
                   2000-3000 rw-p\r\n\
                   \n\
                   nonsense\n\
                   3000-4000\n\
                   1-2-3 r--p x\n\
                   - \t---p  [heap] more words\n";
    assert_eq!(
        parse_regions(listing),
        vec![
            region("1000", "2000", "r-xp", Some("/lib/a.so")),
            region("2000", "3000", "rw-p", None),
            region("", "", "---p", Some("[heap]")),
        ]
    );
}

#[test]
fn listings_of_whole_lines_can_be_read_apart() {
    let first = "1-2 r--p a\nnoise\n3-4 rw-p\n";
    let second = "5-6 ---p b\n7-8 r";
    let mut apart = parse_regions(first);
    apart.extend(parse_regions(second));
    assert_eq!(parse_regions(&format!("{}{}", first, second)), apart);
    assert_eq!(apart.len(), 4);
}

#[test]
fn reply_to_two_lists_is_the_replies_to_each() {
    let long: Vec<u8> = (0..200_000u32).map(|i| (i * i / 7) as u8).collect();
    let reads = [Some(vec![1u8; 50]), None, Some(long), Some(vec![])];
    let body = |reads: &[Option<Vec<u8>>]| {
        let frames = reads.iter().map(|read| frame_read(read.as_ref()).unwrap()).collect();
        match read_memory_multiple_reply(frames).body {
            Body::Bytes(bytes) => bytes,
            _ => panic!("bytes expected"),
        }
    };
    for cut in 0..=reads.len() {
        let mut apart = body(&reads[..cut]);
        apart.extend(body(&reads[cut..]));
        assert_eq!(body(&reads), apart);
    }
}

#[test]
fn zero_bytes_behind_a_listing_are_words() {
    let mut listing = b"1000-2000 r-xp\n".to_vec();
    listing.extend([0u8; 64]);
    let reply = regions_reply(&listing).unwrap();
    assert_eq!(reply.content_type, Some(ContentType::Json));
    assert_eq!(reply.body, Body::Regions(vec![region("1000", "2000", "r-xp", None)]));
    let mut open = b"1000-2000 r-xp".to_vec();
    open.extend([0u8; 2]);
    assert_eq!(
        regions_reply(&open).unwrap().body,
        Body::Regions(vec![region("1000", "2000", "r-xp\0\0", None)])
    );
}

#[test]
fn every_kind_of_white_space_separates_words() {
    let spaces: Vec<char> = (0..0x1_1000u32)
        .filter_map(char::from_u32)
        .filter(|c| c.is_whitespace() && *c != '\n')
        .collect();
    assert_eq!(spaces.len(), 24);
    for space in spaces {
        let line = format!("a-b{}c", space);
        assert_eq!(parse_regions(&line), vec![region("a", "b", "c", None)]);
    }
    for other in ['\u{0}', '\u{8}', '\u{e}', '\u{1f}', '\u{200b}', '\u{feff}'] {
        assert_eq!(parse_regions(&format!("a-b{}c", other)), vec![]);
    }
}

#[test]
fn listing_that_is_not_text_has_no_reply() {
    assert!(regions_reply(&vec![0x31, 0xff]).is_none());
    assert_eq!(regions_reply(&vec![]).unwrap().body, Body::Regions(vec![]));
}

#[test]
fn processes_are_listed() {
    let one = || ProcessEntry { pid: 3, processname: "init".to_string() };
    let reply = enumerate_process_handler(vec![one()], 99);
    assert_eq!(reply.status, 200);
    assert_eq!(reply.content_type.unwrap().name(), "application/json");
    assert_eq!(reply.body, Body::Processes(vec![one()]));
    assert_eq!(
        enumerate_process_handler(vec![], 99).body,
        Body::Processes(vec![ProcessEntry { pid: 99, processname: "self".to_string() }])
    );
}

#[test]
fn modules_are_listed_or_missed() {
    let module = |base: usize| ModuleEntry {
        base,
        size: 10,
        is_64bit: true,
        modulename: "libc".to_string(),
    };
    let reply = modules_reply(7, vec![module(1), module(2), module(3)]);
    assert_eq!(reply.content_type, Some(ContentType::Json));
    assert_eq!(
        reply.body,
        Body::Modules(vec![
            ModuleLine::Module(module(1)),
            ModuleLine::Module(module(2)),
            ModuleLine::Module(module(3)),
        ])
    );
    for pid in [0, 7, 10, 1234567890, -1, i32::MAX, i32::MIN] {
        assert_eq!(
            modules_reply(pid, vec![]).body,
            Body::Modules(vec![ModuleLine::Error(format!(
                "No modules found for process with PID: {}",
                pid
            ))])
        );
    }
}

#[test]
fn service_tells_about_itself() {
    let target = |n: usize| TargetArch {
        x86_64: n == 0,
        aarch64: n == 1,
        arm: n == 2,
        x86: n == 3,
    };
    for (n, arch) in ["x86_64", "aarch64", "arm", "x86", "unknown"].iter().enumerate() {
        let reply = server_info_handler(
            "abc".to_string(),
            "linux".to_string(),
            target(n),
            77,
            Some("normal".to_string()),
        );
        assert_eq!(reply.content_type, Some(ContentType::Json));
        assert_eq!(
            reply.body,
            Body::Server(ServerInfo {
                git_hash: "abc".to_string(),
                target_os: "linux".to_string(),
                arch: arch.to_string(),
                pid: 77,
                mode: "normal".to_string(),
            })
        );
    }
    match server_info_handler("a".to_string(), "b".to_string(), target(0), 1, None).body {
        Body::Server(info) => assert_eq!(info.mode, "unknown"),
        _ => panic!("server expected"),
    }
}
