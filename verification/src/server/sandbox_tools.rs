//! The tools that start, fill and stop the sandbox.

use vstd::prelude::*;
use vstd::string::*;

use crate::sandbox::{texts, SandboxOptions};
use crate::text::{debug_of, debug_text, decimal, push_decimal};

use super::args::SandboxStartArgs;
use super::state::{sandbox_missing, OperationState, SandboxModel, StateModel};
use super::Target;

verus! {

/// What `sandbox_start` does.
#[derive(Debug)]
pub enum StartRequest {
    /// A sandbox is running; this is the reply.
    Running(String),
    /// Start one with these options.
    Start(SandboxOptions),
}

pub open spec fn running_reply(visible: bool, display: Seq<char>) -> Seq<char> {
    "sandbox already running ("@ + (if visible {
        "visible window"@
    } else {
        "headless"@
    }) + ") on WAYLAND_DISPLAY="@ + display
}

/// A running sandbox is kept as it is; otherwise one is started as asked for.
pub fn start_request(state: &OperationState, args: &SandboxStartArgs) -> (request: StartRequest)
    ensures
        match request {
            StartRequest::Running(reply) => state@.sandbox matches Some(sandbox) && reply@
                == running_reply(sandbox.visible, sandbox.display),
            StartRequest::Start(options) => state@.sandbox is None && options
                == SandboxOptions::asked(args.visible, args.width, args.height),
        },
{
    match &state.sandbox {
        Some(sandbox) => {
            let mut reply = "sandbox already running (".to_owned();
            if sandbox.visible {
                reply.append("visible window");
            } else {
                reply.append("headless");
            }
            reply.append(") on WAYLAND_DISPLAY=");
            reply.append(sandbox.display.as_str());
            StartRequest::Running(reply)
        },
        None => StartRequest::Start(
            SandboxOptions::from_asked(args.visible, args.width, args.height),
        ),
    }
}

pub open spec fn started_text(visible: bool, display: Seq<char>) -> Seq<char> {
    "sandbox started "@ + (if visible {
        "as a window on the real desktop (keep it visible and uncovered while taking screenshots)"@
    } else {
        "headless (nothing is displayed; use screenshot to see it)"@
    }) + " on WAYLAND_DISPLAY="@ + display
        + "; launch apps with sandbox_launch, then screenshot with target=sandbox"@
}

/// The reply to a sandbox that was started.
pub fn started_reply(options: SandboxOptions, display: &str) -> (reply: String)
    ensures
        reply@ == started_text(options.visible, display@),
{
    let mut reply = "sandbox started ".to_owned();
    if options.visible {
        reply.append(
            "as a window on the real desktop (keep it visible and uncovered while taking screenshots)",
        );
    } else {
        reply.append("headless (nothing is displayed; use screenshot to see it)");
    }
    reply.append(" on WAYLAND_DISPLAY=");
    reply.append(display);
    reply.append("; launch apps with sandbox_launch, then screenshot with target=sandbox");
    reply
}

/// A list of texts as the debug format writes it.
pub open spec fn debug_list(words: Seq<Seq<char>>) -> Seq<char>
    decreases words.len(),
{
    if words.len() == 0 {
        Seq::empty()
    } else if words.len() == 1 {
        debug_text(words[0])
    } else {
        debug_list(words.drop_last()) + ", "@ + debug_text(words.last())
    }
}

pub open spec fn launched_text(argv: Seq<Seq<char>>, pid: u32) -> Seq<char> {
    "launched ["@ + debug_list(argv) + "] inside the sandbox with pid "@ + decimal(pid as int)
}

/// The reply to a program that was launched.
pub fn launched_reply(argv: &[String], pid: u32) -> (reply: String)
    ensures
        reply@ == launched_text(texts(argv@), pid),
{
    let mut reply = "launched [".to_owned();
    let ghost opening = reply@;
    let ghost words = texts(argv@);
    let mut i: usize = 0;
    assert(words.take(0) =~= Seq::<Seq<char>>::empty());
    assert(reply@ =~= opening + debug_list(words.take(0)));
    while i < argv.len()
        invariant
            i <= argv@.len(),
            words == texts(argv@),
            reply@ == opening + debug_list(words.take(i as int)),
        decreases argv@.len() - i,
    {
        proof {
            assert(words.take(i + 1).drop_last() =~= words.take(i as int));
            assert(words.take(i + 1).last() == argv@[i as int]@);
        }
        if i > 0 {
            reply.append(", ");
        }
        reply.append(debug_of(argv[i].as_str()).as_str());
        assert(reply@ =~= opening + debug_list(words.take(i + 1)));
        i = i + 1;
    }
    assert(words.take(i as int) =~= words);
    reply.append("] inside the sandbox with pid ");
    push_decimal(&mut reply, pid as i64);
    reply
}

/// What `sandbox_stop` does: release what is held inside and stop, or nothing
/// where no sandbox is running.
pub fn stop_request(state: &OperationState) -> (stop: bool)
    ensures
        stop == (state@.sandbox is Some),
{
    state.sandbox.is_some()
}

/// The display that a program is launched on.
pub fn launch_display(state: &OperationState) -> (display: Result<String, String>)
    ensures
        match display {
            Ok(display) => state@.sandbox matches Some(sandbox) && sandbox.display == display@,
            Err(error) => state@.sandbox is None && error@ == sandbox_missing(),
        },
{
    match state.sandbox_display() {
        Some(display) => Ok(display),
        None => Err("sandbox is not running; call sandbox_start first".to_owned()),
    }
}

/// A sandbox that was started is the one that is running, until it is stopped;
/// nothing can be clicked in it before it has been seen.
pub proof fn lemma_started_sandbox_runs_until_stopped(
    state: StateModel,
    sandbox: SandboxModel,
    x: i64,
    y: i64,
)
    ensures
        state.after_sandbox_start(sandbox).sandbox == Some(sandbox),
        state.after_sandbox_start(sandbox).point(Target::Sandbox, x, y) is Err,
        state.after_sandbox_stop().sandbox is None,
        state.after_sandbox_stop().point(Target::Sandbox, x, y) is Err,
{
}

} // verus!
