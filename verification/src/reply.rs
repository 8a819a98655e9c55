//! What clients are answered.

use vstd::prelude::*;

use crate::matched::{views, MatchView, MatchedAddress};

verus! {

/// The request was served.
pub const STATUS_OK: u16 = 200;

/// The request could not be served.
pub const STATUS_BAD_REQUEST: u16 = 400;

/// The kind of a body.
#[derive(Clone, Copy, Debug, PartialEq, Eq, Structural)]
pub enum ContentType {
    OctetStream,
    PlainText,
    PlainTextUtf8,
    Json,
}

/// The header value that names a kind of body.
pub open spec fn content_type_name(kind: ContentType) -> Seq<char> {
    match kind {
        ContentType::OctetStream => "application/octet-stream"@,
        ContentType::PlainText => "text/plain"@,
        ContentType::PlainTextUtf8 => "text/plain; charset=utf-8"@,
        ContentType::Json => "application/json"@,
    }
}

impl ContentType {
    /// The header value that names this kind of body.
    pub fn name(self) -> (r: &'static str)
        ensures
            r@ == content_type_name(self),
    {
        match self {
            ContentType::OctetStream => "application/octet-stream",
            ContentType::PlainText => "text/plain",
            ContentType::PlainTextUtf8 => "text/plain; charset=utf-8",
            ContentType::Json => "application/json",
        }
    }
}

/// A mapped region of memory.
#[derive(Debug, PartialEq, Eq)]
pub struct Region {
    pub start_address: String,
    pub end_address: String,
    pub protection: String,
    pub file_path: Option<String>,
}

/// The contents of a region line.
#[verifier::ext_equal]
pub struct RegionView {
    pub start_address: Seq<char>,
    pub end_address: Seq<char>,
    pub protection: Seq<char>,
    pub file_path: Option<Seq<char>>,
}

/// The text of an optional string.
pub open spec fn optional_text(text: Option<String>) -> Option<Seq<char>> {
    match text {
        Some(text) => Some(text@),
        None => None,
    }
}

impl View for Region {
    type V = RegionView;

    open spec fn view(&self) -> RegionView {
        RegionView {
            start_address: self.start_address@,
            end_address: self.end_address@,
            protection: self.protection@,
            file_path: optional_text(self.file_path),
        }
    }
}

/// A running process.
#[derive(Debug, PartialEq, Eq)]
pub struct ProcessEntry {
    pub pid: i32,
    pub processname: String,
}

/// The contents of a process line.
#[verifier::ext_equal]
pub struct ProcessView {
    pub pid: i32,
    pub processname: Seq<char>,
}

impl View for ProcessEntry {
    type V = ProcessView;

    open spec fn view(&self) -> ProcessView {
        ProcessView { pid: self.pid, processname: self.processname@ }
    }
}

/// A module loaded by a process.
#[derive(Debug, PartialEq, Eq)]
pub struct ModuleEntry {
    pub base: usize,
    pub size: i32,
    pub is_64bit: bool,
    pub modulename: String,
}

/// A line of a module listing: a module, or why there is none.
#[derive(Debug, PartialEq, Eq)]
pub enum ModuleLine {
    Module(ModuleEntry),
    Error(String),
}

/// The contents of a line of a module listing.
#[verifier::ext_equal]
pub enum ModuleView {
    Module { base: usize, size: i32, is_64bit: bool, modulename: Seq<char> },
    Error(Seq<char>),
}

impl View for ModuleEntry {
    type V = ModuleView;

    open spec fn view(&self) -> ModuleView {
        ModuleView::Module {
            base: self.base,
            size: self.size,
            is_64bit: self.is_64bit,
            modulename: self.modulename@,
        }
    }
}

impl View for ModuleLine {
    type V = ModuleView;

    open spec fn view(&self) -> ModuleView {
        match *self {
            ModuleLine::Module(module) => module@,
            ModuleLine::Error(message) => ModuleView::Error(message@),
        }
    }
}

/// About the service itself.
#[derive(Debug, PartialEq, Eq)]
pub struct ServerInfo {
    pub git_hash: String,
    pub target_os: String,
    pub arch: String,
    pub pid: u32,
    pub mode: String,
}

/// What is told about the service itself.
#[verifier::ext_equal]
pub struct ServerView {
    pub git_hash: Seq<char>,
    pub target_os: Seq<char>,
    pub arch: Seq<char>,
    pub pid: u32,
    pub mode: Seq<char>,
}

impl View for ServerInfo {
    type V = ServerView;

    open spec fn view(&self) -> ServerView {
        ServerView {
            git_hash: self.git_hash@,
            target_os: self.target_os@,
            arch: self.arch@,
            pid: self.pid,
            mode: self.mode@,
        }
    }
}

/// The body of a reply.
#[derive(Debug, PartialEq, Eq)]
pub enum Body {
    Text(String),
    Bytes(Vec<u8>),
    Matches { matched_addresses: Vec<MatchedAddress>, found: usize, is_rounded: bool },
    Found(usize),
    Regions(Vec<Region>),
    Processes(Vec<ProcessEntry>),
    Modules(Vec<ModuleLine>),
    Server(ServerInfo),
}

/// A reply: its status, the kind of its body where one is named, and the body.
#[derive(Debug, PartialEq, Eq)]
pub struct Reply {
    pub status: u16,
    pub content_type: Option<ContentType>,
    pub body: Body,
}

/// The contents of a body.
#[verifier::ext_equal]
pub enum BodyView {
    Text(Seq<char>),
    Bytes(Seq<u8>),
    Matches { matched_addresses: Seq<MatchView>, found: usize, is_rounded: bool },
    Found(usize),
    Regions(Seq<RegionView>),
    Processes(Seq<ProcessView>),
    Modules(Seq<ModuleView>),
    Server(ServerView),
}

/// The contents of a reply.
#[verifier::ext_equal]
pub struct ReplyView {
    pub status: u16,
    pub content_type: Option<ContentType>,
    pub body: BodyView,
}

impl View for Body {
    type V = BodyView;

    open spec fn view(&self) -> BodyView {
        match *self {
            Body::Text(text) => BodyView::Text(text@),
            Body::Bytes(bytes) => BodyView::Bytes(bytes@),
            Body::Matches { matched_addresses, found, is_rounded } => BodyView::Matches {
                matched_addresses: views(matched_addresses@),
                found,
                is_rounded,
            },
            Body::Found(found) => BodyView::Found(found),
            Body::Regions(regions) => BodyView::Regions(regions@.map_values(|r: Region| r@)),
            Body::Processes(processes) => BodyView::Processes(
                processes@.map_values(|p: ProcessEntry| p@),
            ),
            Body::Modules(modules) => BodyView::Modules(modules@.map_values(|m: ModuleLine| m@)),
            Body::Server(info) => BodyView::Server(info@),
        }
    }
}

impl View for Reply {
    type V = ReplyView;

    open spec fn view(&self) -> ReplyView {
        ReplyView { status: self.status, content_type: self.content_type, body: self.body@ }
    }
}

/// The refusal with a given message.
pub open spec fn refusal(message: Seq<char>) -> ReplyView {
    ReplyView {
        status: STATUS_BAD_REQUEST,
        content_type: None,
        body: BodyView::Text(message),
    }
}

/// The refusal of everything that needs a process before one was chosen.
pub open spec fn no_process() -> ReplyView {
    refusal("Pid not set"@)
}

/// The served reply with a body of a named kind.
pub open spec fn served(kind: ContentType, body: BodyView) -> ReplyView {
    ReplyView { status: STATUS_OK, content_type: Some(kind), body }
}

impl Reply {
    /// Refuses with a message.
    pub fn refuse(message: &str) -> (r: Reply)
        ensures
            r@ == refusal(message@),
    {
        Reply {
            status: STATUS_BAD_REQUEST,
            content_type: None,
            body: Body::Text(message.to_owned()),
        }
    }

    /// Refuses for want of a chosen process.
    pub fn pid_not_set() -> (r: Reply)
        ensures
            r@ == no_process(),
    {
        Reply::refuse("Pid not set")
    }

    /// Serves a body of a named kind.
    pub fn serve(kind: ContentType, body: Body) -> (r: Reply)
        ensures
            r@ == served(kind, body@),
    {
        Reply { status: STATUS_OK, content_type: Some(kind), body }
    }
}

} // verus!
