//! Performing the steps of an action: which command comes next, whatever came
//! of the last one.

use vstd::prelude::*;
use vstd::string::*;

use crate::inject::Button;
use crate::safety::{Admission, BudgetError};
use crate::time::Duration;

use super::effects::{clicked, trail};
use super::state::{
    release_error, release_everything, result_view, sandbox_missing, stopped_error, stopped_text,
    OperationState, StateModel,
};
use super::steps::{step_views, Step, StepModel};
use super::Target;

verus! {

/// What the program does next for an action. Input commands go to the input
/// device of the target.
#[derive(Debug)]
pub enum Command {
    /// Let this much time pass.
    Wait(Duration),
    /// Nothing is to be done for this step.
    Skip,
    Move(u32, u32),
    Button(Button, bool),
    Key(u16, bool),
    Scroll(i32, i32),
    /// Set the modifier state of the sandbox keyboard.
    SetModifiers(u32),
    /// Put text on a clipboard: that of this display, or of the program's own
    /// session.
    Copy { text: String, display: Option<String> },
    /// Release what the input device of the target holds down.
    ReleaseTarget,
    /// Release what any input device holds down.
    ReleaseEverything,
    Finished(Result<(), String>),
}

pub enum CommandModel {
    Wait(Duration),
    Skip,
    Move(u32, u32),
    Button(Button, bool),
    Key(u16, bool),
    Scroll(i32, i32),
    SetModifiers(u32),
    Copy { text: Seq<char>, display: Option<Seq<char>> },
    ReleaseTarget,
    ReleaseEverything,
    Finished(Result<(), Seq<char>>),
}

pub open spec fn text_view(text: Option<String>) -> Option<Seq<char>> {
    match text {
        Some(text) => Some(text@),
        None => None,
    }
}

impl View for Command {
    type V = CommandModel;

    open spec fn view(&self) -> CommandModel {
        match *self {
            Command::Wait(span) => CommandModel::Wait(span),
            Command::Skip => CommandModel::Skip,
            Command::Move(x, y) => CommandModel::Move(x, y),
            Command::Button(button, pressed) => CommandModel::Button(button, pressed),
            Command::Key(code, pressed) => CommandModel::Key(code, pressed),
            Command::Scroll(horizontal, vertical) => CommandModel::Scroll(horizontal, vertical),
            Command::SetModifiers(mask) => CommandModel::SetModifiers(mask),
            Command::Copy { text, display } => CommandModel::Copy {
                text: text@,
                display: text_view(display),
            },
            Command::ReleaseTarget => CommandModel::ReleaseTarget,
            Command::ReleaseEverything => CommandModel::ReleaseEverything,
            Command::Finished(result) => CommandModel::Finished(result_view(result)),
        }
    }
}

/// What came of the last command.
#[derive(Debug)]
pub enum Outcome {
    Done,
    Failed(String),
    /// What came of releasing each device; a sandbox that is not running has
    /// nothing to release.
    Released { desktop: Result<(), String>, sandbox: Result<(), String> },
}

impl Outcome {
    pub open spec fn error(self) -> Option<Seq<char>> {
        match self {
            Outcome::Done => None,
            Outcome::Failed(error) => Some(error@),
            Outcome::Released { desktop, sandbox } => release_error(
                result_view(desktop),
                result_view(sandbox),
            ),
        }
    }

    fn into_result(self) -> (result: Result<(), String>)
        ensures
            match result {
                Ok(_) => self.error() is None,
                Err(error) => self.error() == Some(error@),
            },
    {
        match self {
            Outcome::Done => Ok(()),
            Outcome::Failed(error) => Err(error),
            Outcome::Released { desktop, sandbox } => release_everything(desktop, sandbox),
        }
    }
}

/// Where an action stands.
#[derive(Debug)]
pub enum Phase {
    /// Waiting for the budget to let it start.
    Asking,
    /// A step is being performed.
    Stepping,
    /// A step failed with this error; the target is being released.
    Cleaning(String),
    /// The client cancelled the action; the target is being released.
    Cancelling,
    /// Injection was stopped; everything is being released.
    Stopping,
    Finished,
}

pub enum PhaseModel {
    Asking,
    Stepping,
    Cleaning(Seq<char>),
    Cancelling,
    Stopping,
    Finished,
}

impl View for Phase {
    type V = PhaseModel;

    open spec fn view(&self) -> PhaseModel {
        match *self {
            Phase::Asking => PhaseModel::Asking,
            Phase::Stepping => PhaseModel::Stepping,
            Phase::Cleaning(error) => PhaseModel::Cleaning(error@),
            Phase::Cancelling => PhaseModel::Cancelling,
            Phase::Stopping => PhaseModel::Stopping,
            Phase::Finished => PhaseModel::Finished,
        }
    }
}

/// An action: its steps, the one that is next or being performed, and where it
/// stands.
#[derive(Debug)]
pub struct Run {
    pub target: Target,
    pub steps: Vec<Step>,
    pub next: usize,
    pub phase: Phase,
}

pub struct RunModel {
    pub target: Target,
    pub steps: Seq<StepModel>,
    pub next: int,
    pub phase: PhaseModel,
}

impl View for Run {
    type V = RunModel;

    open spec fn view(&self) -> RunModel {
        RunModel {
            target: self.target,
            steps: step_views(self.steps@),
            next: self.next as int,
            phase: self.phase@,
        }
    }
}

/// How a step that failed is named in the error.
pub open spec fn failed_step(step: StepModel, error: Seq<char>) -> Seq<char> {
    match step {
        StepModel::Move(_, _) => "move failed: "@ + error,
        StepModel::Button(_, _) => "button failed: "@ + error,
        StepModel::Key(_, _) => "key failed: "@ + error,
        StepModel::Scroll(_, _) => "scroll failed: "@ + error,
        _ => error,
    }
}

pub open spec fn cancelled_text(release: Option<Seq<char>>) -> Seq<char> {
    match release {
        None => "cancelled by the client; pressed inputs released"@,
        Some(error) => "cancelled by the client; releasing pressed inputs failed: "@ + error,
    }
}

pub open spec fn cleaned_text(error: Seq<char>, release: Option<Seq<char>>) -> Seq<char> {
    match release {
        None => error,
        Some(release) => error + "; releasing pressed inputs also failed: "@ + release,
    }
}

/// The vertical notches as the device of the target counts them: a wheel event
/// of the desktop device counts upwards.
pub open spec fn vertical_notches(target: Target, dy: i32) -> i32 {
    if target == Target::Desktop && dy != i32::MIN {
        (-dy) as i32
    } else {
        dy
    }
}

impl StateModel {
    /// The command that performs a step, where the devices it needs are there.
    pub open spec fn step_command(self, target: Target, step: StepModel) -> CommandModel {
        match step {
            StepModel::Sleep(span) => CommandModel::Wait(span),
            StepModel::Modifiers(mask) => if target == Target::Sandbox && self.sandbox is Some {
                CommandModel::SetModifiers(mask)
            } else {
                CommandModel::Skip
            },
            StepModel::Clipboard(text) => CommandModel::Copy {
                text,
                display: if target == Target::Sandbox && self.sandbox is Some {
                    Some(self.sandbox->0.display)
                } else {
                    None
                },
            },
            StepModel::Move(x, y) => CommandModel::Move(x, y),
            StepModel::Button(button, pressed) => CommandModel::Button(button, pressed),
            StepModel::Key(code, pressed) => CommandModel::Key(code, pressed),
            StepModel::Scroll(dx, dy) => CommandModel::Scroll(dx, vertical_notches(target, dy)),
        }
    }
}

/// The step needs the input device of the target.
pub open spec fn needs_injector(step: StepModel) -> bool {
    step is Move || step is Button || step is Key || step is Scroll
}

impl RunModel {
    pub open spec fn finished(self) -> RunModel {
        RunModel { phase: PhaseModel::Finished, ..self }
    }

    pub open spec fn ended(self, state: StateModel, result: Result<(), Seq<char>>) -> (
        RunModel,
        StateModel,
        CommandModel,
    ) {
        (self.finished(), state, CommandModel::Finished(result))
    }

    /// Injection was found stopped: everything is released, once, and the
    /// action ends.
    pub open spec fn stopping(self, state: StateModel) -> (RunModel, StateModel, CommandModel) {
        if state.stop_release_done {
            self.ended(state, Err(stopped_text(None)))
        } else {
            (
                RunModel { phase: PhaseModel::Stopping, ..self },
                state.after_release_on_stop(),
                CommandModel::ReleaseEverything,
            )
        }
    }

    /// Goes on to the next step; after the last the action has succeeded and
    /// is counted.
    pub open spec fn stepping(self, state: StateModel, now: Duration, cancelled: bool) -> (
        RunModel,
        StateModel,
        CommandModel,
    ) {
        if self.next >= self.steps.len() {
            self.ended(StateModel { budget: state.budget.after_injection(now), ..state }, Ok(()))
        } else if state.budget.stopped {
            self.stopping(state)
        } else if cancelled {
            if state.has_injector(self.target) {
                (
                    RunModel { phase: PhaseModel::Cancelling, ..self },
                    state,
                    CommandModel::ReleaseTarget,
                )
            } else {
                self.ended(state, Err(cancelled_text(Some(sandbox_missing()))))
            }
        } else if needs_injector(self.steps[self.next]) && !state.has_injector(self.target) {
            self.ended(state, Err(sandbox_missing()))
        } else {
            (
                RunModel { phase: PhaseModel::Stepping, ..self },
                state,
                state.step_command(self.target, self.steps[self.next]),
            )
        }
    }

    /// What follows when the last command came to this.
    pub open spec fn advanced(
        self,
        state: StateModel,
        now: Duration,
        cancelled: bool,
        error: Option<Seq<char>>,
    ) -> (RunModel, StateModel, CommandModel) {
        match self.phase {
            PhaseModel::Asking => match state.budget.answer(now) {
                Ok(Admission::Granted) => self.stepping(state, now, cancelled),
                Ok(Admission::Wait(span)) => (self, state, CommandModel::Wait(span)),
                Err(BudgetError::Stopped) => self.stopping(state),
                Err(refusal) => self.ended(state, Err(refusal.text())),
            },
            PhaseModel::Stepping => match error {
                None => RunModel { next: self.next + 1, ..self }.stepping(state, now, cancelled),
                Some(error) => {
                    let text = failed_step(self.steps[self.next], error);
                    if state.has_injector(self.target) {
                        (
                            RunModel { phase: PhaseModel::Cleaning(text), ..self },
                            state,
                            CommandModel::ReleaseTarget,
                        )
                    } else {
                        self.ended(state, Err(cleaned_text(text, Some(sandbox_missing()))))
                    }
                },
            },
            PhaseModel::Cleaning(text) => self.ended(state, Err(cleaned_text(text, error))),
            PhaseModel::Cancelling => self.ended(state, Err(cancelled_text(error))),
            PhaseModel::Stopping => self.ended(state, Err(stopped_text(error))),
            PhaseModel::Finished => (self, state, CommandModel::Skip),
        }
    }

    /// The step being performed is one of the steps.
    pub open spec fn is_valid(self) -> bool {
        0 <= self.next && (self.phase is Stepping ==> self.next < self.steps.len())
    }
}

impl Run {
    /// An action that has not asked the budget yet.
    pub fn new(target: Target, steps: Vec<Step>) -> (run: Run)
        ensures
            run@ == (RunModel {
                target,
                steps: step_views(steps@),
                next: 0,
                phase: PhaseModel::Asking,
            }),
            run@.is_valid(),
    {
        Run { target, steps, next: 0, phase: Phase::Asking }
    }

    fn end(&mut self, result: Result<(), String>) -> (command: Command)
        ensures
            final(self)@ == old(self)@.finished(),
            command@ == CommandModel::Finished(result_view(result)),
    {
        self.phase = Phase::Finished;
        Command::Finished(result)
    }

    fn stop(&mut self, state: &mut OperationState) -> (command: Command)
        ensures
            (final(self)@, final(state)@, command@) == old(self)@.stopping(old(state)@),
    {
        if state.release_on_stop() {
            self.phase = Phase::Stopping;
            Command::ReleaseEverything
        } else {
            self.end(Err(stopped_error(Ok(()))))
        }
    }

    fn step(&mut self, state: &mut OperationState, now: Duration, cancelled: bool) -> (command:
        Command)
        ensures
            (final(self)@, final(state)@, command@) == old(self)@.stepping(
                old(state)@,
                now,
                cancelled,
            ),
            final(self)@.is_valid(),
    {
        assert(step_views(self.steps@).len() == self.steps@.len());
        if self.next >= self.steps.len() {
            state.budget.injection_succeeded(now);
            return self.end(Ok(()));
        }
        assert(step_views(self.steps@)[self.next as int] == self.steps@[self.next as int]@);
        if state.budget.is_stopped() {
            return self.stop(state);
        }
        let reachable = state.has_injector(self.target);
        if cancelled {
            if reachable {
                self.phase = Phase::Cancelling;
                return Command::ReleaseTarget;
            }
            let mut error = "cancelled by the client; releasing pressed inputs failed: ".to_owned();
            error.append("sandbox is not running; call sandbox_start first");
            return self.end(Err(error));
        }
        let needed = match &self.steps[self.next] {
            Step::Move(_, _) => true,
            Step::Button(_, _) => true,
            Step::Key(_, _) => true,
            Step::Scroll(_, _) => true,
            Step::Modifiers(_) => false,
            Step::Clipboard(_) => false,
            Step::Sleep(_) => false,
        };
        if needed && !reachable {
            return self.end(Err("sandbox is not running; call sandbox_start first".to_owned()));
        }
        let command = match &self.steps[self.next] {
            Step::Sleep(span) => Command::Wait(*span),
            Step::Modifiers(mask) => match self.target {
                Target::Sandbox => if state.sandbox.is_some() {
                    Command::SetModifiers(*mask)
                } else {
                    Command::Skip
                },
                Target::Desktop => Command::Skip,
            },
            Step::Clipboard(text) => Command::Copy {
                text: text.clone(),
                display: match self.target {
                    Target::Sandbox => state.sandbox_display(),
                    Target::Desktop => None,
                },
            },
            Step::Move(x, y) => Command::Move(*x, *y),
            Step::Button(button, pressed) => Command::Button(*button, *pressed),
            Step::Key(code, pressed) => Command::Key(*code, *pressed),
            Step::Scroll(dx, dy) => {
                let vertical: i32 = match self.target {
                    Target::Desktop => if *dy == i32::MIN {
                        *dy
                    } else {
                        -*dy
                    },
                    Target::Sandbox => *dy,
                };
                Command::Scroll(*dx, vertical)
            },
        };
        self.phase = Phase::Stepping;
        command
    }

    /// The next command, given what came of the last one. Before the first
    /// command nothing has come of anything, and `outcome` is not looked at.
    pub fn advance(
        &mut self,
        state: &mut OperationState,
        now: Duration,
        cancelled: bool,
        outcome: Outcome,
    ) -> (command: Command)
        requires
            old(self)@.is_valid(),
        ensures
            (final(self)@, final(state)@, command@) == old(self)@.advanced(
                old(state)@,
                now,
                cancelled,
                outcome.error(),
            ),
            final(self)@.is_valid(),
    {
        match &self.phase {
            Phase::Asking => match state.budget.before_injection(now) {
                Ok(Admission::Granted) => self.step(state, now, cancelled),
                Ok(Admission::Wait(span)) => Command::Wait(span),
                Err(BudgetError::Stopped) => self.stop(state),
                Err(refusal) => self.end(Err(refusal.message())),
            },
            Phase::Stepping => match outcome.into_result() {
                Ok(_) => {
                    let count: usize = self.steps.len();
                    assert(step_views(self.steps@).len() == count);
                    self.next = self.next + 1;
                    self.step(state, now, cancelled)
                },
                Err(error) => {
                    assert(step_views(self.steps@)[self.next as int]
                        == self.steps@[self.next as int]@);
                    let mut text = match &self.steps[self.next] {
                        Step::Move(_, _) => "move failed: ".to_owned(),
                        Step::Button(_, _) => "button failed: ".to_owned(),
                        Step::Key(_, _) => "key failed: ".to_owned(),
                        Step::Scroll(_, _) => "scroll failed: ".to_owned(),
                        Step::Modifiers(_) => String::new(),
                        Step::Clipboard(_) => String::new(),
                        Step::Sleep(_) => String::new(),
                    };
                    text.append(error.as_str());
                    assert(text@ =~= failed_step(self@.steps[self.next as int], error@));
                    if state.has_injector(self.target) {
                        self.phase = Phase::Cleaning(text);
                        return Command::ReleaseTarget;
                    }
                    text.append("; releasing pressed inputs also failed: ");
                    text.append("sandbox is not running; call sandbox_start first");
                    self.end(Err(text))
                },
            },
            Phase::Cleaning(error) => {
                let mut text = error.clone();
                if let Err(release) = outcome.into_result() {
                    text.append("; releasing pressed inputs also failed: ");
                    text.append(release.as_str());
                }
                self.end(Err(text))
            },
            Phase::Cancelling => match outcome.into_result() {
                Ok(_) => self.end(
                    Err("cancelled by the client; pressed inputs released".to_owned()),
                ),
                Err(release) => {
                    let mut text =
                        "cancelled by the client; releasing pressed inputs failed: ".to_owned();
                    text.append(release.as_str());
                    self.end(Err(text))
                },
            },
            Phase::Stopping => {
                let release = outcome.into_result();
                self.end(Err(stopped_error(release)))
            },
            Phase::Finished => Command::Skip,
        }
    }
}

/// The command makes an input device, the sandbox keyboard or a clipboard do
/// something other than let go.
pub open spec fn injects(command: CommandModel) -> bool {
    command is Move || command is Button || command is Key || command is Scroll
        || command is SetModifiers || command is Copy
}

/// After a stop nothing is injected any more.
pub proof fn lemma_nothing_is_injected_after_a_stop(
    run: RunModel,
    state: StateModel,
    now: Duration,
    cancelled: bool,
    error: Option<Seq<char>>,
)
    requires
        state.budget.stopped,
    ensures
        !injects(run.advanced(state, now, cancelled, error).2),
        run.advanced(state, now, cancelled, error).1.budget.stopped,
{
}

/// Once the client has cancelled an action, it injects nothing any more.
pub proof fn lemma_nothing_is_injected_after_a_cancel(
    run: RunModel,
    state: StateModel,
    now: Duration,
    error: Option<Seq<char>>,
)
    ensures
        !injects(run.advanced(state, now, true, error).2),
{
}

/// A stop before an action or between two of its steps releases everything,
/// unless that was done already, and then ends it with an error.
pub proof fn lemma_a_stop_releases_everything(
    run: RunModel,
    state: StateModel,
    now: Duration,
    cancelled: bool,
    later: Duration,
    released: Option<Seq<char>>,
)
    requires
        run.is_valid(),
        run.phase is Asking || (run.phase is Stepping && run.next + 1 < run.steps.len()),
        state.budget.stopped,
        !state.stop_release_done,
    ensures
        ({
            let (stopping, after, command) = run.advanced(state, now, cancelled, None);
            command is ReleaseEverything && stopping.advanced(after, later, cancelled, released).2
                == CommandModel::Finished(Err(stopped_text(released)))
        }),
{
}

/// A failed step releases what the target holds down before the action ends
/// with the error, and the action is not counted.
pub proof fn lemma_a_failure_releases_the_target(
    run: RunModel,
    state: StateModel,
    now: Duration,
    cancelled: bool,
    error: Seq<char>,
    later: Duration,
    released: Option<Seq<char>>,
)
    requires
        run.is_valid(),
        run.phase is Stepping,
        state.has_injector(run.target),
    ensures
        ({
            let (cleaning, after, command) = run.advanced(state, now, cancelled, Some(error));
            let (ended, last, answer) = cleaning.advanced(after, later, cancelled, released);
            command is ReleaseTarget && answer == CommandModel::Finished(
                Err(cleaned_text(failed_step(run.steps[run.next], error), released)),
            ) && ended.phase is Finished && last.budget == state.budget
        }),
{
}

/// An action that is cancelled before one of its steps releases what the target
/// holds down before it ends with an error, and it is not counted.
pub proof fn lemma_a_cancel_releases_the_target(
    run: RunModel,
    state: StateModel,
    now: Duration,
    later: Duration,
    released: Option<Seq<char>>,
)
    requires
        run.is_valid(),
        match run.phase {
            PhaseModel::Asking => run.next < run.steps.len() && state.budget.answer(now) == Ok::<
                Admission,
                BudgetError,
            >(Admission::Granted),
            PhaseModel::Stepping => run.next + 1 < run.steps.len() && !state.budget.stopped,
            _ => false,
        },
        state.has_injector(run.target),
    ensures
        ({
            let (cancelling, after, command) = run.advanced(state, now, true, None);
            let (ended, last, answer) = cancelling.advanced(after, later, true, released);
            command is ReleaseTarget && answer == CommandModel::Finished(
                Err(cancelled_text(released)),
            ) && ended.phase is Finished && last.budget == state.budget
        }),
{
}

/// The budget counts an action when it ends well, and changes at no other
/// time.
pub proof fn lemma_only_success_is_counted(
    run: RunModel,
    state: StateModel,
    now: Duration,
    cancelled: bool,
    error: Option<Seq<char>>,
)
    ensures
        ({
            let (_, after, command) = run.advanced(state, now, cancelled, error);
            after.budget == if command == CommandModel::Finished(Ok(())) {
                state.budget.after_injection(now)
            } else {
                state.budget
            }
        }),
{
}

impl RunModel {
    /// The commands of an action whose commands all succeed while nothing
    /// stops or cancels it, from where it stands, asked for at `times`.
    pub open spec fn undisturbed(self, state: StateModel, times: Seq<Duration>) -> Seq<CommandModel>
        decreases times.len(),
    {
        if times.len() == 0 || self.phase is Finished {
            Seq::empty()
        } else {
            let (next, after, command) = self.advanced(state, times.first(), false, None);
            seq![command] + next.undisturbed(after, times.drop_first())
        }
    }
}

proof fn lemma_steps_follow(run: RunModel, state: StateModel, times: Seq<Duration>)
    requires
        run.is_valid(),
        run.phase is Stepping,
        !state.budget.stopped,
        state.has_injector(run.target),
        times.len() == run.steps.len() - run.next,
    ensures
        run.undisturbed(state, times) == Seq::new(
            (run.steps.len() - run.next - 1) as nat,
            |i: int| state.step_command(run.target, run.steps[run.next + 1 + i]),
        ).push(CommandModel::Finished(Ok(()))),
    decreases times.len(),
{
    let (next, after, command) = run.advanced(state, times.first(), false, None);
    let rest = times.drop_first();
    if run.next + 1 < run.steps.len() {
        assert(after == state);
        lemma_steps_follow(next, state, rest);
        let mine = Seq::new(
            (run.steps.len() - run.next - 1) as nat,
            |i: int| state.step_command(run.target, run.steps[run.next + 1 + i]),
        ).push(CommandModel::Finished(Ok(())));
        let theirs = Seq::new(
            (run.steps.len() - next.next - 1) as nat,
            |i: int| state.step_command(run.target, run.steps[next.next + 1 + i]),
        ).push(CommandModel::Finished(Ok(())));
        assert(seq![command] + theirs =~= mine);
    } else {
        assert(next.undisturbed(after, rest) =~= Seq::empty());
        assert(run.undisturbed(state, times) =~= seq![CommandModel::Finished(Ok(()))]);
    }
}

/// An action that is granted, and that nothing disturbs, performs its steps one
/// after another, each once and in order, and then ends well.
pub proof fn lemma_steps_are_performed_in_order(
    run: RunModel,
    state: StateModel,
    times: Seq<Duration>,
)
    requires
        run.next == 0,
        run.phase is Asking,
        times.len() == run.steps.len() + 1,
        state.budget.answer(times.first()) == Ok::<Admission, BudgetError>(Admission::Granted),
        state.has_injector(run.target),
    ensures
        run.undisturbed(state, times) == Seq::new(
            run.steps.len(),
            |i: int| state.step_command(run.target, run.steps[i]),
        ).push(CommandModel::Finished(Ok(()))),
{
    let (next, after, command) = run.advanced(state, times.first(), false, None);
    let rest = times.drop_first();
    if run.steps.len() > 0 {
        lemma_steps_follow(next, state, rest);
        let theirs = Seq::new(
            (run.steps.len() - 1) as nat,
            |i: int| state.step_command(run.target, run.steps[0 + 1 + i]),
        ).push(CommandModel::Finished(Ok(())));
        assert(seq![command] + theirs =~= Seq::new(
            run.steps.len(),
            |i: int| state.step_command(run.target, run.steps[i]),
        ).push(CommandModel::Finished(Ok(()))));
    } else {
        assert(next.undisturbed(after, rest) =~= Seq::empty());
    }
}

/// A command does what a step asks for, on this target: it moves the pointer to
/// the same place, presses or releases the same button or key, turns the wheel
/// as far, waits as long, copies the same text. The wheel of the desktop counts
/// upwards and that of the sandbox downwards. Modifiers are announced to the
/// sandbox alone, whose clipboard is that of its display.
pub open spec fn does_what_is_asked(
    state: StateModel,
    target: Target,
    step: StepModel,
    command: CommandModel,
) -> bool {
    match step {
        StepModel::Move(x, y) => command == CommandModel::Move(x, y),
        StepModel::Button(button, pressed) => command == CommandModel::Button(button, pressed),
        StepModel::Key(code, pressed) => command == CommandModel::Key(code, pressed),
        StepModel::Scroll(dx, dy) => command matches CommandModel::Scroll(across, turned)
            && across == dx && (target == Target::Sandbox ==> turned == dy) && (target
            == Target::Desktop && dy != i32::MIN ==> turned + dy == 0),
        StepModel::Sleep(span) => command == CommandModel::Wait(span),
        StepModel::Modifiers(mask) => match target {
            Target::Sandbox => command == CommandModel::SetModifiers(mask),
            Target::Desktop => command is Skip,
        },
        StepModel::Clipboard(text) => command matches CommandModel::Copy { text: copied, display }
            && copied == text && match target {
            Target::Sandbox => display matches Some(name) && state.sandbox matches Some(sandbox)
                && name == sandbox.display,
            Target::Desktop => display is None,
        },
    }
}

/// An action that is granted, and that nothing disturbs, does what its steps
/// ask for, each once and in order, and then ends well.
pub proof fn lemma_commands_do_what_is_asked(run: RunModel, state: StateModel, times: Seq<Duration>)
    requires
        run.next == 0,
        run.phase is Asking,
        times.len() == run.steps.len() + 1,
        state.budget.answer(times.first()) == Ok::<Admission, BudgetError>(Admission::Granted),
        state.has_injector(run.target),
    ensures
        ({
            let commands = run.undisturbed(state, times);
            &&& commands.len() == run.steps.len() + 1
            &&& forall|i: int|
                0 <= i < run.steps.len() ==> does_what_is_asked(
                    state,
                    run.target,
                    run.steps[i],
                    #[trigger] commands[i],
                )
            &&& commands.last() == CommandModel::Finished(Ok(()))
        }),
{
    lemma_steps_are_performed_in_order(run, state, times);
}

/// The wheel turns as far as asked, one way on the desktop and the other way in
/// the sandbox, and on either target the opposite way for the opposite number
/// of notches.
pub proof fn lemma_scrolls_are_symmetric(state: StateModel, dx: i32, dy: i32)
    requires
        -50 <= dx <= 50,
        -50 <= dy <= 50,
    ensures
        state.step_command(Target::Desktop, StepModel::Scroll(dx, dy)) matches CommandModel::Scroll(
            across,
            turned,
        ) && across == dx && turned + dy == 0,
        state.step_command(Target::Sandbox, StepModel::Scroll(dx, dy)) matches CommandModel::Scroll(
            across,
            turned,
        ) && across == dx && turned == dy,
        forall|target: Target|
            {
                let one = state.step_command(target, StepModel::Scroll(dx, dy));
                let other = #[trigger] state.step_command(
                    target,
                    StepModel::Scroll((-dx) as i32, (-dy) as i32),
                );
                one matches CommandModel::Scroll(a, b) && other matches CommandModel::Scroll(c, d)
                    && a + c == 0 && b + d == 0
            },
{
}

/// On either target the command that performs a button step is for the same
/// button, and presses or releases it as the step does.
pub proof fn lemma_buttons_stay_as_asked(
    state: StateModel,
    target: Target,
    button: Button,
    pressed: bool,
)
    ensures
        state.step_command(target, StepModel::Button(button, pressed)) matches CommandModel::Button(
            used,
            down,
        ) && used == button && down == pressed,
{
}

/// What is done with the buttons, in order.
pub open spec fn button_commands(commands: Seq<CommandModel>) -> Seq<(Button, bool)>
    decreases commands.len(),
{
    if commands.len() == 0 {
        Seq::empty()
    } else {
        let before = button_commands(commands.drop_last());
        match commands.last() {
            CommandModel::Button(button, pressed) => before.push((button, pressed)),
            _ => before,
        }
    }
}

/// Where the pointer is sent, in order.
pub open spec fn move_commands(commands: Seq<CommandModel>) -> Seq<(u32, u32)>
    decreases commands.len(),
{
    if commands.len() == 0 {
        Seq::empty()
    } else {
        let before = move_commands(commands.drop_last());
        match commands.last() {
            CommandModel::Move(x, y) => before.push((x, y)),
            _ => before,
        }
    }
}

/// Commands that do what steps ask for use the buttons and move the pointer as
/// the steps do.
pub proof fn lemma_pointer_follows(
    state: StateModel,
    target: Target,
    steps: Seq<StepModel>,
    commands: Seq<CommandModel>,
)
    requires
        commands.len() == steps.len(),
        forall|i: int|
            0 <= i < steps.len() ==> does_what_is_asked(
                state,
                target,
                steps[i],
                #[trigger] commands[i],
            ),
    ensures
        button_commands(commands).len() == clicked(steps).len(),
        forall|i: int|
            0 <= i < clicked(steps).len() ==> #[trigger] button_commands(commands)[i] == (
                clicked(steps)[i].button,
                clicked(steps)[i].pressed,
            ),
        move_commands(commands).len() == trail(steps).len(),
        forall|i: int|
            0 <= i < trail(steps).len() ==> #[trigger] move_commands(commands)[i]
                == trail(steps)[i].at,
    decreases steps.len(),
{
    if steps.len() > 0 {
        let fewer = commands.drop_last();
        assert forall|i: int| 0 <= i < steps.drop_last().len() implies does_what_is_asked(
            state,
            target,
            steps.drop_last()[i],
            #[trigger] fewer[i],
        ) by {
            assert(fewer[i] == commands[i]);
        }
        lemma_pointer_follows(state, target, steps.drop_last(), fewer);
        assert(does_what_is_asked(
            state,
            target,
            steps[steps.len() - 1],
            commands[commands.len() - 1],
        ));
    }
}

/// An action that is granted, and that nothing disturbs, uses the buttons and
/// moves the pointer as its steps do.
pub proof fn lemma_the_pointer_does_what_is_asked(
    run: RunModel,
    state: StateModel,
    times: Seq<Duration>,
)
    requires
        run.next == 0,
        run.phase is Asking,
        times.len() == run.steps.len() + 1,
        state.budget.answer(times.first()) == Ok::<Admission, BudgetError>(Admission::Granted),
        state.has_injector(run.target),
    ensures
        ({
            let commands = run.undisturbed(state, times);
            let done = clicked(run.steps);
            let way = trail(run.steps);
            &&& button_commands(commands).len() == done.len()
            &&& forall|i: int|
                0 <= i < done.len() ==> #[trigger] button_commands(commands)[i] == (
                    done[i].button,
                    done[i].pressed,
                )
            &&& move_commands(commands).len() == way.len()
            &&& forall|i: int|
                0 <= i < way.len() ==> #[trigger] move_commands(commands)[i] == way[i].at
        }),
{
    lemma_commands_do_what_is_asked(run, state, times);
    let commands = run.undisturbed(state, times);
    let performed = commands.drop_last();
    assert forall|i: int| 0 <= i < run.steps.len() implies does_what_is_asked(
        state,
        run.target,
        run.steps[i],
        #[trigger] performed[i],
    ) by {
        assert(performed[i] == commands[i]);
    }
    lemma_pointer_follows(state, run.target, run.steps, performed);
    assert(button_commands(commands) == button_commands(performed));
    assert(move_commands(commands) == move_commands(performed));
}

/// An action that the budget puts off waits as long as it is told and asks
/// again; one that the budget refuses ends with the refusal. Neither does
/// anything to a device.
pub proof fn lemma_the_budget_is_heeded(
    run: RunModel,
    state: StateModel,
    now: Duration,
    cancelled: bool,
    error: Option<Seq<char>>,
)
    requires
        run.phase is Asking,
    ensures
        ({
            let (next, after, command) = run.advanced(state, now, cancelled, error);
            match state.budget.answer(now) {
                Ok(Admission::Wait(span)) => command == CommandModel::Wait(span) && next == run
                    && after == state,
                Err(BudgetError::Stopped) => !injects(command) && after.budget == state.budget,
                Err(refusal) => command == CommandModel::Finished(Err(refusal.text()))
                    && next.phase is Finished && after == state,
                Ok(Admission::Granted) => true,
            }
        }),
{
}

/// Where the sandbox is not running, nothing is done to a device in its place:
/// an action on it ends with an error that says so, at the first step that
/// needs a device.
pub proof fn lemma_a_missing_sandbox_is_reported(
    run: RunModel,
    state: StateModel,
    now: Duration,
    cancelled: bool,
    error: Option<Seq<char>>,
)
    requires
        run.target == Target::Sandbox,
        state.sandbox is None,
    ensures
        ({
            let (_, _, command) = run.advanced(state, now, cancelled, error);
            &&& !(command is Move || command is Button || command is Key || command is Scroll
                || command is SetModifiers || command is ReleaseTarget)
            &&& run.phase is Asking && 0 <= run.next < run.steps.len() && !cancelled && (
            run.steps[run.next] is Move || run.steps[run.next] is Button || run.steps[run.next]
                is Key || run.steps[run.next] is Scroll) && state.budget.answer(now) == Ok::<
                Admission,
                BudgetError,
            >(Admission::Granted) ==> command == CommandModel::Finished(
                Err("sandbox is not running; call sandbox_start first"@),
            )
        }),
{
}

/// What failed is named in the error: a movement, a button, a key or the
/// wheel, before what the device said.
pub proof fn lemma_failures_are_named(step: StepModel, error: Seq<char>)
    ensures
        step is Move ==> failed_step(step, error) == "move failed: "@ + error,
        step is Button ==> failed_step(step, error) == "button failed: "@ + error,
        step is Key ==> failed_step(step, error) == "key failed: "@ + error,
        step is Scroll ==> failed_step(step, error) == "scroll failed: "@ + error,
        !needs_injector(step) ==> failed_step(step, error) == error,
        needs_injector(step) <==> step is Move || step is Button || step is Key || step is Scroll,
{
}

/// An action that has ended does nothing more and changes nothing.
pub proof fn lemma_ended_actions_do_nothing(
    run: RunModel,
    state: StateModel,
    now: Duration,
    cancelled: bool,
    error: Option<Seq<char>>,
)
    ensures
        ({
            let (next, after, command) = run.advanced(state, now, cancelled, error);
            &&& run.phase is Finished ==> next == run && after == state && command is Skip
            &&& command is Finished ==> next.phase is Finished
            &&& next.target == run.target && next.steps == run.steps
        }),
{
}

} // verus!
