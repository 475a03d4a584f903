//! The sandbox desktop: a private compositor and the programs inside it.

pub mod wl;

use vstd::prelude::*;
use vstd::string::*;

use crate::inject::Button;
use crate::paths::{join, joined};
use crate::text::{
    chars_of, debug_of, debug_text, decimal, is_blank, lemma_trim, push_decimal, text_of, trim,
    trimmed,
};
use crate::time::Duration;

use wl::{BTN_LEFT, BTN_MIDDLE, BTN_RIGHT};

verus! {

pub const DEFAULT_WIDTH: u32 = 1920;

pub const DEFAULT_HEIGHT: u32 = 1080;

pub const MIN_WIDTH: u32 = 640;

pub const MAX_WIDTH: u32 = 3840;

pub const MIN_HEIGHT: u32 = 480;

pub const MAX_HEIGHT: u32 = 2160;

/// Seconds that a compositor has to publish its display.
pub const START_LIMIT_SECS: u64 = 10;

/// Milliseconds between looks at a compositor that starts.
pub const START_POLL_MS: u64 = 100;

/// How a sandbox is shown: as a window of the real desktop, or not at all and
/// then of this size.
#[derive(Debug, Clone, Copy, PartialEq, Eq, Structural)]
pub struct SandboxOptions {
    pub visible: bool,
    pub width: u32,
    pub height: u32,
}

impl Default for SandboxOptions {
    fn default() -> (options: SandboxOptions)
        ensures
            options == (SandboxOptions {
                visible: false,
                width: DEFAULT_WIDTH,
                height: DEFAULT_HEIGHT,
            }),
    {
        SandboxOptions { visible: false, width: DEFAULT_WIDTH, height: DEFAULT_HEIGHT }
    }
}

/// A side asked for, within its bounds.
pub open spec fn bounded(asked: Option<u32>, default: u32, low: u32, high: u32) -> u32 {
    let side = match asked {
        Some(side) => side,
        None => default,
    };
    if side < low {
        low
    } else if side > high {
        high
    } else {
        side
    }
}

fn bound(asked: Option<u32>, default: u32, low: u32, high: u32) -> (side: u32)
    ensures
        side == bounded(asked, default, low, high),
{
    let side: u32 = match asked {
        Some(side) => side,
        None => default,
    };
    if side < low {
        low
    } else if side > high {
        high
    } else {
        side
    }
}

impl SandboxOptions {
    pub open spec fn asked(visible: Option<bool>, width: Option<u32>, height: Option<u32>) -> SandboxOptions {
        SandboxOptions {
            visible: visible == Some(true),
            width: bounded(width, DEFAULT_WIDTH, MIN_WIDTH, MAX_WIDTH),
            height: bounded(height, DEFAULT_HEIGHT, MIN_HEIGHT, MAX_HEIGHT),
        }
    }

    /// What was asked for: headless unless it is to be visible, of the default
    /// size unless another is named, and never beyond the bounds.
    pub fn from_asked(visible: Option<bool>, width: Option<u32>, height: Option<u32>) -> (options:
        SandboxOptions)
        ensures
            options == SandboxOptions::asked(visible, width, height),
            MIN_WIDTH <= options.width <= MAX_WIDTH,
            MIN_HEIGHT <= options.height <= MAX_HEIGHT,
    {
        SandboxOptions {
            visible: match visible {
                Some(visible) => visible,
                None => false,
            },
            width: bound(width, DEFAULT_WIDTH, MIN_WIDTH, MAX_WIDTH),
            height: bound(height, DEFAULT_HEIGHT, MIN_HEIGHT, MAX_HEIGHT),
        }
    }

    /// The configuration of the compositor: plain windows on a background of
    /// the colour that calibration looks for, a headless output of the size
    /// asked for, and the display name published to a file.
    pub open spec fn config_text(self) -> Seq<char> {
        let start = "default_border none\nfocus_follows_mouse no\noutput * bg #ff00ff solid_color\n"@;
        let sized = if self.visible {
            start
        } else {
            start + "output HEADLESS-1 mode "@ + decimal(self.width as int) + "x"@ + decimal(
                self.height as int,
            ) + "\n"@
        };
        sized
            + "exec sh -c 'printf %s \"$WAYLAND_DISPLAY\" > \"$WAYHAND_SANDBOX_DIR/display\"'\n"@
    }

    pub fn config(&self) -> (text: String)
        ensures
            text@ == self.config_text(),
    {
        let mut text =
            "default_border none\nfocus_follows_mouse no\noutput * bg #ff00ff solid_color\n".to_owned();
        if !self.visible {
            text.append("output HEADLESS-1 mode ");
            push_decimal(&mut text, self.width as i64);
            text.append("x");
            push_decimal(&mut text, self.height as i64);
            text.append("\n");
        }
        text.append(
            "exec sh -c 'printf %s \"$WAYLAND_DISPLAY\" > \"$WAYHAND_SANDBOX_DIR/display\"'\n",
        );
        text
    }
}

/// Where a sandbox keeps its files.
#[derive(Debug)]
pub struct StartPlan {
    pub dir: String,
    pub display_file: String,
    pub config_path: String,
}

pub open spec fn is_set(value: Option<&str>) -> bool {
    value matches Some(text) && text@.len() > 0
}

fn has_text(value: Option<&str>) -> (answer: bool)
    ensures
        answer == is_set(value),
{
    match value {
        Some(text) => chars_of(text).len() > 0,
        None => false,
    }
}

/// The directory of a sandbox of this name.
pub open spec fn sandbox_dir(runtime_dir: Seq<char>, name: Seq<char>) -> Seq<char> {
    joined(joined(runtime_dir, "wayhand-mcp"@), name)
}

/// Where a sandbox keeps its files, given the runtime directory and the
/// display of the session around it; both have to be set.
pub fn start_plan(runtime_dir: Option<&str>, wayland_display: Option<&str>, name: &str) -> (plan:
    Result<StartPlan, String>)
    ensures
        match plan {
            Ok(plan) => is_set(runtime_dir) && is_set(wayland_display) && plan.dir@ == sandbox_dir(
                runtime_dir->0@,
                name@,
            ) && plan.display_file@ == joined(plan.dir@, "display"@) && plan.config_path@ == joined(
                plan.dir@,
                "sway.conf"@,
            ),
            Err(error) => if !is_set(runtime_dir) {
                error@ == "XDG_RUNTIME_DIR is not set; cannot start the sandbox"@
            } else {
                !is_set(wayland_display) && error@
                    == "WAYLAND_DISPLAY is not set; the sandbox needs a parent Wayland session"@
            },
        },
{
    match runtime_dir {
        Some(base) if has_text(runtime_dir) => {
            if !has_text(wayland_display) {
                return Err(
                    "WAYLAND_DISPLAY is not set; the sandbox needs a parent Wayland session".to_owned(),
                );
            }
            let shared = join(base, "wayhand-mcp");
            let dir = join(shared.as_str(), name);
            let display_file = join(dir.as_str(), "display");
            let config_path = join(dir.as_str(), "sway.conf");
            Ok(StartPlan { dir, display_file, config_path })
        },
        _ => Err("XDG_RUNTIME_DIR is not set; cannot start the sandbox".to_owned()),
    }
}

/// What is done about a compositor that starts.
#[derive(Debug)]
pub enum StartStep {
    /// It is gone; report this error.
    Fail(String),
    /// It serves this display.
    Connect(String),
    /// It takes too long: kill it and report this error.
    GiveUp(String),
    /// Look again after a while.
    Retry(Duration),
}

pub enum StartStepModel {
    Fail(Seq<char>),
    Connect(Seq<char>),
    GiveUp(Seq<char>),
    Retry(Duration),
}

impl View for StartStep {
    type V = StartStepModel;

    open spec fn view(&self) -> StartStepModel {
        match *self {
            StartStep::Fail(error) => StartStepModel::Fail(error@),
            StartStep::Connect(display) => StartStepModel::Connect(display@),
            StartStep::GiveUp(error) => StartStepModel::GiveUp(error@),
            StartStep::Retry(pause) => StartStepModel::Retry(pause),
        }
    }
}

/// An exit comes before everything else, a published display before the time
/// limit.
pub open spec fn start_step_of(exited: Option<&str>, published: Option<&str>, late: bool) -> StartStepModel {
    match exited {
        Some(status) => StartStepModel::Fail("sway exited immediately with "@ + status@),
        None => match published {
            Some(name) if trim(name@).len() > 0 => StartStepModel::Connect(trim(name@)),
            _ => if late {
                StartStepModel::GiveUp("sway did not publish its display name within 10 seconds"@)
            } else {
                StartStepModel::Retry(Duration::of_millis(START_POLL_MS))
            },
        },
    }
}

/// The next step while a compositor starts: how it exited, if it did, what it
/// has published so far, and whether its time is up.
pub fn start_step(exited: Option<&str>, published: Option<&str>, late: bool) -> (step: StartStep)
    ensures
        step@ == start_step_of(exited, published, late),
{
    if let Some(status) = exited {
        let mut error = "sway exited immediately with ".to_owned();
        error.append(status);
        return StartStep::Fail(error);
    }
    if let Some(name) = published {
        let chars: Vec<char> = chars_of(name);
        let display: Vec<char> = trimmed(&chars);
        if display.len() > 0 {
            return StartStep::Connect(text_of(&display));
        }
    }
    if late {
        StartStep::GiveUp("sway did not publish its display name within 10 seconds".to_owned())
    } else {
        StartStep::Retry(Duration::from_millis(START_POLL_MS))
    }
}

pub open spec fn texts(words: Seq<String>) -> Seq<Seq<char>> {
    words.map_values(|word: String| word@)
}

/// How a program is run inside a sandbox.
#[derive(Debug)]
pub struct LaunchPlan {
    pub program: String,
    pub args: Vec<String>,
    /// Environment variables to set.
    pub env: Vec<(&'static str, String)>,
    /// Environment variables to take away.
    pub removed: Vec<&'static str>,
}

pub open spec fn env_texts(env: Seq<(&'static str, String)>) -> Seq<(Seq<char>, Seq<char>)> {
    env.map_values(|pair: (&'static str, String)| (pair.0@, pair.1@))
}

pub open spec fn names(words: Seq<&'static str>) -> Seq<Seq<char>> {
    words.map_values(|word: &'static str| word@)
}

/// The environment of a program inside a sandbox: it finds the nested display
/// and no other.
pub open spec fn launch_env(display: Seq<char>) -> Seq<(Seq<char>, Seq<char>)> {
    seq![
        ("WAYLAND_DISPLAY"@, display),
        ("XDG_SESSION_TYPE"@, "wayland"@),
        ("GDK_BACKEND"@, "wayland"@),
        ("QT_QPA_PLATFORM"@, "wayland"@),
    ]
}

/// The program and its arguments, run as they are given and never through a
/// shell.
pub fn launch_plan(display: &str, argv: &[String]) -> (plan: Result<LaunchPlan, String>)
    ensures
        match plan {
            Ok(plan) => argv@.len() > 0 && plan.program@ == argv@[0]@ && texts(plan.args@) == texts(
                argv@.skip(1),
            ) && env_texts(plan.env@) == launch_env(display@) && names(plan.removed@)
                == seq!["DISPLAY"@],
            Err(error) => argv@.len() == 0 && error@ == "argv must contain at least the program"@,
        },
{
    if argv.len() == 0 {
        return Err("argv must contain at least the program".to_owned());
    }
    let mut args: Vec<String> = Vec::new();
    let mut i: usize = 1;
    while i < argv.len()
        invariant
            1 <= i <= argv@.len(),
            args@.len() == i - 1,
            forall|k: int| 0 <= k < args@.len() ==> (#[trigger] args@[k])@ == argv@[k + 1]@,
        decreases argv@.len() - i,
    {
        args.push(argv[i].clone());
        i = i + 1;
    }
    assert(texts(args@) =~= texts(argv@.skip(1)));
    let env: Vec<(&'static str, String)> = vec![
        ("WAYLAND_DISPLAY", display.to_owned()),
        ("XDG_SESSION_TYPE", "wayland".to_owned()),
        ("GDK_BACKEND", "wayland".to_owned()),
        ("QT_QPA_PLATFORM", "wayland".to_owned()),
    ];
    assert(env_texts(env@) =~= launch_env(display@));
    let removed: Vec<&'static str> = vec!["DISPLAY"];
    assert(names(removed@) =~= seq!["DISPLAY"@]);
    Ok(LaunchPlan { program: argv[0].clone(), args, env, removed })
}

pub open spec fn launch_error(program: Seq<char>, error: Seq<char>) -> Seq<char> {
    "launch "@ + debug_text(program) + " inside the sandbox: "@ + error
}

/// What a program that could not be run is reported as.
pub fn launch_failed(program: &str, error: &str) -> (text: String)
    ensures
        text@ == launch_error(program@, error@),
{
    let mut text = "launch ".to_owned();
    text.append(debug_of(program).as_str());
    text.append(" inside the sandbox: ");
    text.append(error);
    text
}

/// The evdev code of a mouse button.
pub fn button_code(button: Button) -> (code: u32)
    ensures
        code == match button {
            Button::Left => BTN_LEFT,
            Button::Right => BTN_RIGHT,
            Button::Middle => BTN_MIDDLE,
        },
        code == match button {
            Button::Left => 0x110u32,
            Button::Right => 0x111,
            Button::Middle => 0x112,
        },
{
    match button {
        Button::Left => BTN_LEFT,
        Button::Right => BTN_RIGHT,
        Button::Middle => BTN_MIDDLE,
    }
}

/// A sandbox is headless unless it is asked to be visible, 1920 by 1080 unless
/// another size is asked for, and of the size asked for as far as that lies
/// between 640 by 480 and 3840 by 2160.
pub proof fn lemma_sandboxes_are_as_asked(
    visible: Option<bool>,
    width: Option<u32>,
    height: Option<u32>,
)
    ensures
        ({
            let options = SandboxOptions::asked(visible, width, height);
            &&& options.visible <==> visible == Some(true)
            &&& 640 <= options.width <= 3840 && 480 <= options.height <= 2160
            &&& width is None ==> options.width == 1920
            &&& height is None ==> options.height == 1080
            &&& width matches Some(side) ==> (640 <= side <= 3840 ==> options.width == side) && (
            side < 640 ==> options.width == 640) && (side > 3840 ==> options.width == 3840)
            &&& height matches Some(side) ==> (480 <= side <= 2160 ==> options.height == side) && (
            side < 480 ==> options.height == 480) && (side > 2160 ==> options.height == 2160)
        }),
{
}

/// A compositor that exited is never connected to; one that published its
/// display is connected to it, in time or not, by its name without the white
/// space around it; one that did neither is given up when its time is over,
/// and looked at again every tenth of a second before.
pub proof fn lemma_how_a_sandbox_starts(exited: Option<&str>, published: Option<&str>, late: bool)
    ensures
        ({
            let step = start_step_of(exited, published, late);
            let named = published matches Some(name) && !is_blank(name@);
            &&& step is Fail <==> exited is Some
            &&& step is Connect <==> exited is None && named
            &&& step matches StartStepModel::Connect(name) ==> name == trim(published->0@)
            &&& step is GiveUp <==> exited is None && !named && late
            &&& step matches StartStepModel::Retry(pause) ==> pause.nanos == 100_000_000
        }),
{
    if let Some(name) = published {
        lemma_trim(name@);
    }
    assert(Duration::of_millis(START_POLL_MS).nanos == 100_000_000);
}

/// A program inside a sandbox is told of the nested display, once, and of no
/// other.
pub proof fn lemma_programs_find_the_nested_display(display: Seq<char>, i: int)
    requires
        0 <= i < launch_env(display).len(),
    ensures
        launch_env(display)[i].0 == "WAYLAND_DISPLAY"@ <==> i == 0,
        launch_env(display)[0].1 == display,
        launch_env(display)[i].0 != "DISPLAY"@,
{
    reveal_strlit("WAYLAND_DISPLAY");
    reveal_strlit("XDG_SESSION_TYPE");
    reveal_strlit("GDK_BACKEND");
    reveal_strlit("QT_QPA_PLATFORM");
    reveal_strlit("DISPLAY");
    assert("WAYLAND_DISPLAY"@.len() == 15 && "XDG_SESSION_TYPE"@.len() == 16);
    assert("GDK_BACKEND"@.len() == 11 && "QT_QPA_PLATFORM"@.len() == 15 && "DISPLAY"@.len() == 7);
    assert("WAYLAND_DISPLAY"@[0] == 'W' && "QT_QPA_PLATFORM"@[0] == 'Q');
}

/// The configuration of a headless sandbox is that of a visible one and, in it,
/// the line that gives its output the size asked for.
pub proof fn lemma_headless_outputs_have_their_size(options: SandboxOptions)
    ensures
        exists|start: Seq<char>, end: Seq<char>|
            {
                &&& (SandboxOptions { visible: true, ..options }).config_text() == #[trigger] (start
                    + end)
                &&& (SandboxOptions { visible: false, ..options }).config_text() == start
                    + "output HEADLESS-1 mode "@ + decimal(options.width as int) + "x"@ + decimal(
                    options.height as int,
                ) + "\n"@ + end
            },
{
    let start =
        "default_border none\nfocus_follows_mouse no\noutput * bg #ff00ff solid_color\n"@;
    let end =
        "exec sh -c 'printf %s \"$WAYLAND_DISPLAY\" > \"$WAYHAND_SANDBOX_DIR/display\"'\n"@;
    assert((SandboxOptions { visible: true, ..options }).config_text() == start + end);
}

} // verus!
