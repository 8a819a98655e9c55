//! Choosing a process, and telling about processes, modules and the service itself.

use vstd::prelude::*;

use crate::reply::{
    no_process, optional_text, served, Body, BodyView, ContentType, ModuleEntry, ModuleLine,
    ModuleView, ProcessEntry, ProcessView, Reply, ReplyView, ServerInfo, ServerView,
};
use crate::requests::OpenProcess;
use crate::text::{decimal, push_decimal};

verus! {

/// What a request about the chosen process asks of the service.
#[derive(Debug, PartialEq, Eq)]
pub enum ProcessStep {
    /// Answer at once.
    Answer(Reply),
    /// Ask the system about this process.
    Inspect { pid: i32 },
}

/// What a request about the chosen process asks of the service.
#[verifier::ext_equal]
pub enum ProcessStepView {
    Answer(ReplyView),
    Inspect { pid: i32 },
}

impl View for ProcessStep {
    type V = ProcessStepView;

    open spec fn view(&self) -> ProcessStepView {
        match *self {
            ProcessStep::Answer(reply) => ProcessStepView::Answer(reply@),
            ProcessStep::Inspect { pid } => ProcessStepView::Inspect { pid },
        }
    }
}

/// A request about the chosen process is refused where none was chosen.
pub open spec fn process_step(pid_state: Option<i32>) -> ProcessStepView {
    match pid_state {
        Some(pid) => ProcessStepView::Inspect { pid },
        None => ProcessStepView::Answer(no_process()),
    }
}

/// Refuses a request about the chosen process where none was chosen.
pub(crate) fn inspect(pid_state: Option<i32>) -> (r: ProcessStep)
    ensures
        r@ == process_step(pid_state),
{
    match pid_state {
        Some(pid) => ProcessStep::Inspect { pid },
        None => ProcessStep::Answer(Reply::pid_not_set()),
    }
}

/// Chooses the process that later requests are about.
pub fn open_process_handler(pid_state: &mut Option<i32>, open_process: OpenProcess) -> (r: Reply)
    ensures
        *final(pid_state) == Some(open_process.pid),
        r@ == served(ContentType::PlainTextUtf8, BodyView::Text("OK"@)),
{
    *pid_state = Some(open_process.pid);
    Reply::serve(ContentType::PlainTextUtf8, Body::Text("OK".to_owned()))
}

/// Decides what a request for the modules asks for.
pub fn enummodule_handler(pid_state: Option<i32>) -> (r: ProcessStep)
    ensures
        r@ == process_step(pid_state),
{
    inspect(pid_state)
}

/// The views of a list of processes.
pub open spec fn process_views(list: Seq<ProcessEntry>) -> Seq<ProcessView> {
    list.map_values(|p: ProcessEntry| p@)
}

/// The reply to a request for the processes: those that run, or the service itself where none can
/// be seen.
pub open spec fn processes_told(processes: Seq<ProcessView>, own_pid: i32) -> ReplyView {
    served(
        ContentType::Json,
        BodyView::Processes(
            if processes.len() == 0 {
                seq![ProcessView { pid: own_pid, processname: "self"@ }]
            } else {
                processes
            },
        ),
    )
}

/// Answers with the running processes; where none can be seen the service lists itself.
pub fn enumerate_process_handler(processes: Vec<ProcessEntry>, own_pid: i32) -> (r: Reply)
    ensures
        r@ == processes_told(process_views(processes@), own_pid),
{
    let mut processes: Vec<ProcessEntry> = processes;
    if processes.len() == 0 {
        processes.push(ProcessEntry { pid: own_pid, processname: "self".to_owned() });
        assert(process_views(processes@) =~= seq![
            ProcessView { pid: own_pid, processname: "self"@ },
        ]);
    }
    Reply::serve(ContentType::Json, Body::Processes(processes))
}

/// The message for a process in which no module was found.
pub open spec fn no_modules(pid: i32) -> Seq<char> {
    "No modules found for process with PID: "@ + decimal(pid as int)
}

/// The views of a list of modules.
pub open spec fn module_views(list: Seq<ModuleEntry>) -> Seq<ModuleView> {
    list.map_values(|m: ModuleEntry| m@)
}

/// The reply to a request for the modules of a process: these, or a message where there are none.
pub open spec fn modules_told(pid: i32, modules: Seq<ModuleView>) -> ReplyView {
    served(
        ContentType::Json,
        BodyView::Modules(
            if modules.len() == 0 {
                seq![ModuleView::Error(no_modules(pid))]
            } else {
                modules
            },
        ),
    )
}

/// Answers with the modules of a process, or with a message where there are none.
pub fn modules_reply(pid: i32, modules: Vec<ModuleEntry>) -> (r: Reply)
    ensures
        r@ == modules_told(pid, module_views(modules@)),
{
    let ghost all = modules@;
    let mut lines: Vec<ModuleLine> = Vec::with_capacity(modules.len());
    if modules.len() == 0 {
        let mut message: String = "No modules found for process with PID: ".to_owned();
        push_decimal(&mut message, pid);
        lines.push(ModuleLine::Error(message));
        assert(lines@.map_values(|m: ModuleLine| m@) =~= seq![ModuleView::Error(no_modules(pid))]);
    } else {
        let mut backwards: Vec<ModuleEntry> = Vec::with_capacity(modules.len());
        let mut modules: Vec<ModuleEntry> = modules;
        while modules.len() > 0
            invariant
                modules.len() + backwards.len() == all.len(),
                forall|k: int| 0 <= k < modules.len() ==> #[trigger] modules@[k] == all[k],
                forall|k: int|
                    0 <= k < backwards.len() ==> #[trigger] backwards@[k] == all[all.len() - 1 - k],
            decreases modules.len(),
        {
            if let Some(module) = modules.pop() {
                backwards.push(module);
            }
        }
        while backwards.len() > 0
            invariant
                lines.len() + backwards.len() == all.len(),
                forall|k: int|
                    0 <= k < backwards.len() ==> #[trigger] backwards@[k] == all[all.len() - 1 - k],
                forall|k: int| 0 <= k < lines.len() ==> (#[trigger] lines@[k])@ == all[k]@,
            decreases backwards.len(),
        {
            if let Some(module) = backwards.pop() {
                lines.push(ModuleLine::Module(module));
            }
        }
        assert(lines@.map_values(|m: ModuleLine| m@) =~= module_views(all));
    }
    Reply::serve(ContentType::Json, Body::Modules(lines))
}

/// The machines that the service tells apart by name.
#[derive(Clone, Copy, Debug, PartialEq, Eq, Structural)]
pub struct TargetArch {
    pub x86_64: bool,
    pub aarch64: bool,
    pub arm: bool,
    pub x86: bool,
}

/// The name of a machine.
pub open spec fn arch_name(target: TargetArch) -> Seq<char> {
    if target.x86_64 {
        "x86_64"@
    } else if target.aarch64 {
        "aarch64"@
    } else if target.arm {
        "arm"@
    } else if target.x86 {
        "x86"@
    } else {
        "unknown"@
    }
}

/// The reply to a request about the service itself.
pub open spec fn server_told(
    git_hash: Seq<char>,
    target_os: Seq<char>,
    target: TargetArch,
    pid: u32,
    mode: Option<Seq<char>>,
) -> ReplyView {
    served(
        ContentType::Json,
        BodyView::Server(
            ServerView {
                git_hash,
                target_os,
                arch: arch_name(target),
                pid,
                mode: match mode {
                    Some(mode) => mode,
                    None => "unknown"@,
                },
            },
        ),
    )
}

/// Answers with what the service knows about itself. A running mode that is not set is unknown.
pub fn server_info_handler(
    git_hash: String,
    target_os: String,
    target: TargetArch,
    pid: u32,
    mode: Option<String>,
) -> (r: Reply)
    ensures
        r@ == server_told(git_hash@, target_os@, target, pid, optional_text(mode)),
{
    let arch: &str = if target.x86_64 {
        "x86_64"
    } else if target.aarch64 {
        "aarch64"
    } else if target.arm {
        "arm"
    } else if target.x86 {
        "x86"
    } else {
        "unknown"
    };
    let mode: String = match mode {
        Some(mode) => mode,
        None => "unknown".to_owned(),
    };
    Reply::serve(
        ContentType::Json,
        Body::Server(ServerInfo { git_hash, target_os, arch: arch.to_owned(), pid, mode }),
    )
}

} // verus!
