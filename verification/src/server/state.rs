//! What the server remembers between tool calls.

use vstd::prelude::*;
use vstd::string::*;

use crate::calibrate::probe::Verdict;
use crate::coords::{
    is_affine, lemma_linear_accepts_the_screen, lemma_linear_is_proportional,
    lemma_mapped_is_affine, CoordError, Transform, TransformModel,
};
use crate::keys::{KeyMap, KeyMapModel};
use crate::safety::{Budget, BudgetError};
use crate::sandbox::wl::Session;
use crate::text::{decimal, push_decimal};

use super::{ScreenSize, Target};

verus! {

/// A measured mapping from desktop pixels to the pointer device, for
/// screenshots of one size.
#[derive(Debug, Clone, Copy, PartialEq, Eq, Structural)]
pub struct Calibration {
    pub width: u32,
    pub height: u32,
    pub transform: Transform,
}

/// A sandbox that is running.
#[derive(Debug, Clone)]
pub struct RunningSandbox {
    /// The name of its Wayland display.
    pub display: String,
    pub visible: bool,
}

pub struct SandboxModel {
    pub display: Seq<char>,
    pub visible: bool,
}

impl View for RunningSandbox {
    type V = SandboxModel;

    open spec fn view(&self) -> SandboxModel {
        SandboxModel { display: self.display@, visible: self.visible }
    }
}

pub struct OperationState {
    pub budget: Budget,
    pub keymap: KeyMap,
    /// Sizes of the last screenshots.
    pub desktop_screen: Option<ScreenSize>,
    pub sandbox_screen: Option<ScreenSize>,
    pub calibration: Option<Calibration>,
    pub sandbox: Option<RunningSandbox>,
    /// Whether the release that follows a stop has been started.
    pub stop_release_done: bool,
}

pub struct StateModel {
    pub budget: Budget,
    pub keymap: KeyMapModel,
    pub desktop_screen: Option<ScreenSize>,
    pub sandbox_screen: Option<ScreenSize>,
    pub calibration: Option<Calibration>,
    pub sandbox: Option<SandboxModel>,
    pub stop_release_done: bool,
}

pub open spec fn sandbox_view(sandbox: Option<RunningSandbox>) -> Option<SandboxModel> {
    match sandbox {
        Some(sandbox) => Some(sandbox@),
        None => None,
    }
}

impl View for OperationState {
    type V = StateModel;

    open spec fn view(&self) -> StateModel {
        StateModel {
            budget: self.budget,
            keymap: self.keymap@,
            desktop_screen: self.desktop_screen,
            sandbox_screen: self.sandbox_screen,
            calibration: self.calibration,
            sandbox: sandbox_view(self.sandbox),
            stop_release_done: self.stop_release_done,
        }
    }
}

pub open spec fn sandbox_missing() -> Seq<char> {
    "sandbox is not running; call sandbox_start first"@
}

/// The pixel lies outside a sandbox screenshot of this size.
pub open spec fn outside_sandbox(x: i64, y: i64, screen: ScreenSize) -> Seq<char> {
    "("@ + decimal(x as int) + ", "@ + decimal(y as int) + ") is outside the sandbox screenshot "@
        + decimal(screen.width as int) + "x"@ + decimal(screen.height as int)
}

impl StateModel {
    pub open spec fn screen(self, target: Target) -> Result<ScreenSize, Seq<char>> {
        let size = match target {
            Target::Desktop => self.desktop_screen,
            Target::Sandbox => self.sandbox_screen,
        };
        match size {
            Some(size) => Ok(size),
            None => Err(
                "no screenshot is available for target "@ + target.text()
                    + "; call screenshot first"@,
            ),
        }
    }

    /// The mapping of a desktop screenshot: as measured where it has the
    /// measured size, spread over the axes otherwise.
    pub open spec fn transform(self, screen: ScreenSize) -> TransformModel {
        match self.calibration {
            Some(calibration) if calibration.width == screen.width && calibration.height
                == screen.height => calibration.transform@,
            _ => TransformModel::linear(screen.width, screen.height),
        }
    }

    /// A calibration for this size of screenshot is at hand.
    pub open spec fn is_calibrated(self, screen: ScreenSize) -> bool {
        self.calibration matches Some(calibration) && calibration.width == screen.width
            && calibration.height == screen.height
    }

    /// Where the input device has a pixel of the last screenshot: on the
    /// desktop as mapped, in the sandbox at the pixel itself.
    pub open spec fn point(self, target: Target, x: i64, y: i64) -> Result<(u32, u32), Seq<char>> {
        match self.screen(target) {
            Err(error) => Err(error),
            Ok(screen) => match target {
                Target::Desktop => if !self.is_calibrated(screen) && (screen.width == 0
                    || screen.height == 0) {
                    Err(
                        "invalid screenshot dimensions: "@
                            + CoordError::InvalidScreenSize.text(),
                    )
                } else {
                    match self.transform(screen).mapped(x, y, screen.width, screen.height) {
                        Ok(point) => Ok((point.x as u32, point.y as u32)),
                        Err(error) => Err(error.text()),
                    }
                },
                Target::Sandbox => if 0 <= x < screen.width && 0 <= y < screen.height {
                    Ok((x as u32, y as u32))
                } else {
                    Err(outside_sandbox(x, y, screen))
                },
            },
        }
    }

    /// The target has an input device.
    pub open spec fn has_injector(self, target: Target) -> bool {
        target == Target::Desktop || self.sandbox is Some
    }
}

impl OperationState {
    pub fn new(budget: Budget, keymap: KeyMap, calibration: Option<Calibration>) -> (state:
        OperationState)
        ensures
            state@ == (StateModel {
                budget,
                keymap: keymap@,
                desktop_screen: None,
                sandbox_screen: None,
                calibration,
                sandbox: None,
                stop_release_done: false,
            }),
    {
        OperationState {
            budget,
            keymap,
            desktop_screen: None,
            sandbox_screen: None,
            calibration,
            sandbox: None,
            stop_release_done: false,
        }
    }

    pub fn screen(&self, target: Target) -> (screen: Result<ScreenSize, String>)
        ensures
            match screen {
                Ok(screen) => self@.screen(target) == Ok::<ScreenSize, Seq<char>>(screen),
                Err(error) => self@.screen(target) == Err::<ScreenSize, Seq<char>>(error@),
            },
    {
        let size = match target {
            Target::Desktop => self.desktop_screen,
            Target::Sandbox => self.sandbox_screen,
        };
        match size {
            Some(size) => Ok(size),
            None => {
                let mut error = "no screenshot is available for target ".to_owned();
                error.append(target.name());
                error.append("; call screenshot first");
                Err(error)
            },
        }
    }

    /// Map screenshot pixels of `target` into device coordinates.
    pub fn map_point(&self, target: Target, x: i64, y: i64) -> (point: Result<(u32, u32), String>)
        ensures
            match point {
                Ok(point) => self@.point(target, x, y) == Ok::<(u32, u32), Seq<char>>(point),
                Err(error) => self@.point(target, x, y) == Err::<(u32, u32), Seq<char>>(error@),
            },
    {
        let screen = match self.screen(target) {
            Ok(screen) => screen,
            Err(error) => {
                return Err(error);
            },
        };
        match target {
            Target::Desktop => {
                let measured = match self.calibration {
                    Some(calibration) => if calibration.width == screen.width && calibration.height
                        == screen.height {
                        Some(calibration.transform)
                    } else {
                        None
                    },
                    None => None,
                };
                let transform = match measured {
                    Some(transform) => transform,
                    None => match Transform::linear(screen.width, screen.height) {
                        Ok(transform) => transform,
                        Err(error) => {
                            let mut text = "invalid screenshot dimensions: ".to_owned();
                            text.append(error.message().as_str());
                            return Err(text);
                        },
                    },
                };
                match transform.map_pixel(x, y, screen.width, screen.height) {
                    Ok(point) => Ok((point.x as u32, point.y as u32)),
                    Err(error) => Err(error.message()),
                }
            },
            Target::Sandbox => {
                if x < 0 || y < 0 || x >= screen.width as i64 || y >= screen.height as i64 {
                    let mut error = "(".to_owned();
                    push_decimal(&mut error, x);
                    error.append(", ");
                    push_decimal(&mut error, y);
                    error.append(") is outside the sandbox screenshot ");
                    push_decimal(&mut error, screen.width as i64);
                    error.append("x");
                    push_decimal(&mut error, screen.height as i64);
                    return Err(error);
                }
                Ok((x as u32, y as u32))
            },
        }
    }
}

impl StateModel {
    /// A screenshot was taken: its size is remembered and the budget starts
    /// anew.
    pub open spec fn after_capture(self, target: Target, size: ScreenSize) -> StateModel {
        let budget = self.budget.after_screenshot();
        match target {
            Target::Desktop => StateModel { budget, desktop_screen: Some(size), ..self },
            Target::Sandbox => StateModel { budget, sandbox_screen: Some(size), ..self },
        }
    }

    /// A release after a stop is due, once.
    pub open spec fn after_release_on_stop(self) -> StateModel {
        StateModel { stop_release_done: true, ..self }
    }

    pub open spec fn after_stop(self) -> StateModel {
        StateModel { budget: self.budget.after_stop(), ..self }.after_release_on_stop()
    }

    pub open spec fn after_calibration(
        self,
        verdict: Verdict,
        screen: ScreenSize,
        linear: Transform,
        fitted: Transform,
    ) -> StateModel {
        let calibration = match verdict {
            Verdict::Linear => Some(
                Calibration { width: screen.width, height: screen.height, transform: linear },
            ),
            Verdict::Fitted => Some(
                Calibration { width: screen.width, height: screen.height, transform: fitted },
            ),
            Verdict::Rejected => None,
        };
        StateModel { calibration, ..self }
    }

    /// A sandbox was started: nothing has been seen of it yet.
    pub open spec fn after_sandbox_start(self, sandbox: SandboxModel) -> StateModel {
        StateModel { sandbox: Some(sandbox), sandbox_screen: None, ..self }
    }

    pub open spec fn after_sandbox_stop(self) -> StateModel {
        StateModel { sandbox: None, sandbox_screen: None, ..self }
    }
}

/// What releasing everything comes to: the first error, with the device that
/// reported it.
pub open spec fn release_error(
    desktop: Result<(), Seq<char>>,
    sandbox: Result<(), Seq<char>>,
) -> Option<Seq<char>> {
    match (desktop, sandbox) {
        (Err(error), _) => Some("desktop: "@ + error),
        (Ok(_), Err(error)) => Some("sandbox: "@ + error),
        (Ok(_), Ok(_)) => None,
    }
}

pub open spec fn result_view(result: Result<(), String>) -> Result<(), Seq<char>> {
    match result {
        Ok(_) => Ok(()),
        Err(error) => Err(error@),
    }
}

/// The outcome of releasing both devices; a sandbox that is not running has
/// nothing to release.
pub fn release_everything(desktop: Result<(), String>, sandbox: Result<(), String>) -> (outcome:
    Result<(), String>)
    ensures
        match outcome {
            Ok(_) => release_error(result_view(desktop), result_view(sandbox)) is None,
            Err(error) => release_error(result_view(desktop), result_view(sandbox)) == Some(
                error@,
            ),
        },
{
    match desktop {
        Err(error) => {
            let mut text = "desktop: ".to_owned();
            text.append(error.as_str());
            Err(text)
        },
        Ok(_) => match sandbox {
            Err(error) => {
                let mut text = "sandbox: ".to_owned();
                text.append(error.as_str());
                Err(text)
            },
            Ok(_) => Ok(()),
        },
    }
}

pub open spec fn release_after_stop_failed(error: Seq<char>) -> Seq<char> {
    "release pressed inputs after stop failed: "@ + error
}

/// What a call that finds the server stopped is told: that it is, and what
/// went wrong with the release that followed.
pub open spec fn stopped_text(release: Option<Seq<char>>) -> Seq<char> {
    match release {
        None => BudgetError::Stopped.text(),
        Some(error) => BudgetError::Stopped.text() + "; "@ + release_after_stop_failed(error),
    }
}

pub fn stopped_error(release: Result<(), String>) -> (text: String)
    ensures
        text@ == stopped_text(
            match release {
                Ok(_) => None,
                Err(error) => Some(error@),
            },
        ),
{
    let mut text = BudgetError::Stopped.message();
    if let Err(error) = release {
        let ghost start = text@;
        text.append("; ");
        text.append("release pressed inputs after stop failed: ");
        text.append(error.as_str());
        assert(text@ =~= start + "; "@ + release_after_stop_failed(error@));
    }
    text
}

impl OperationState {
    /// Remembers a screenshot.
    pub fn captured(&mut self, target: Target, size: ScreenSize)
        ensures
            final(self)@ == old(self)@.after_capture(target, size),
    {
        match target {
            Target::Desktop => {
                self.desktop_screen = Some(size);
            },
            Target::Sandbox => {
                self.sandbox_screen = Some(size);
            },
        }
        self.budget.screenshot_completed();
    }

    /// Whether everything has to be released because of a stop: the first time
    /// that this is asked, and not again.
    pub fn release_on_stop(&mut self) -> (due: bool)
        ensures
            due == !old(self)@.stop_release_done,
            final(self)@ == old(self)@.after_release_on_stop(),
    {
        let due = !self.stop_release_done;
        self.stop_release_done = true;
        due
    }

    /// Stops injection for good. Tells whether everything has to be released
    /// now.
    pub fn stop(&mut self) -> (due: bool)
        ensures
            due == !old(self)@.stop_release_done,
            final(self)@ == old(self)@.after_stop(),
    {
        self.budget.stop();
        self.release_on_stop()
    }

    pub fn sandbox_display(&self) -> (display: Option<String>)
        ensures
            match display {
                Some(display) => self@.sandbox matches Some(sandbox) && sandbox.display == display@,
                None => self@.sandbox is None,
            },
    {
        match &self.sandbox {
            Some(sandbox) => Some(sandbox.display.clone()),
            None => None,
        }
    }

    pub fn has_injector(&self, target: Target) -> (answer: bool)
        ensures
            answer == self@.has_injector(target),
    {
        match target {
            Target::Desktop => true,
            Target::Sandbox => self.sandbox.is_some(),
        }
    }

    pub fn sandbox_started(&mut self, sandbox: RunningSandbox)
        ensures
            final(self)@ == old(self)@.after_sandbox_start(sandbox@),
    {
        self.sandbox = Some(sandbox);
        self.sandbox_screen = None;
    }

    pub fn sandbox_stopped(&mut self)
        ensures
            final(self)@ == old(self)@.after_sandbox_stop(),
    {
        self.sandbox = None;
        self.sandbox_screen = None;
    }

    /// Keeps what a calibration found for screenshots of this size: the linear
    /// mapping, the fitted one, or none.
    pub fn calibrated(
        &mut self,
        verdict: Verdict,
        screen: ScreenSize,
        linear: Transform,
        fitted: Transform,
    )
        ensures
            final(self)@ == old(self)@.after_calibration(verdict, screen, linear, fitted),
    {
        self.calibration = match verdict {
            Verdict::Linear => Some(
                Calibration { width: screen.width, height: screen.height, transform: linear },
            ),
            Verdict::Fitted => Some(
                Calibration { width: screen.width, height: screen.height, transform: fitted },
            ),
            Verdict::Rejected => None,
        };
    }
}

/// Sandbox pixels map one to one onto the virtual pointer.
pub proof fn lemma_sandbox_pixels_map_one_to_one(state: StateModel, x: i64, y: i64)
    ensures
        state.point(Target::Sandbox, x, y) matches Ok(point) ==> point.0 == x && point.1 == y,
{
}

/// Only pixels of the last screenshot of the same target are accepted, and
/// none before a screenshot was taken.
pub proof fn lemma_only_pixels_of_the_last_screenshot(
    state: StateModel,
    target: Target,
    x: i64,
    y: i64,
)
    ensures
        state.point(target, x, y) is Ok ==> (state.screen(target) matches Ok(screen) && 0 <= x
            < screen.width && 0 <= y < screen.height),
{
}

/// Every pixel of a sandbox screenshot is accepted, and every pixel of a
/// desktop screenshot that was not measured otherwise.
pub proof fn lemma_pixels_of_the_last_screenshot_are_accepted(
    state: StateModel,
    target: Target,
    size: ScreenSize,
    x: i64,
    y: i64,
)
    requires
        target == Target::Sandbox || !state.is_calibrated(size),
        0 <= x < size.width,
        0 <= y < size.height,
    ensures
        state.after_capture(target, size).point(target, x, y) is Ok,
{
    lemma_linear_accepts_the_screen(x, y, size.width, size.height);
}

/// A screenshot of one target changes nothing for the other.
pub proof fn lemma_targets_are_apart(
    state: StateModel,
    target: Target,
    other: Target,
    size: ScreenSize,
    x: i64,
    y: i64,
)
    requires
        target != other,
    ensures
        state.after_capture(target, size).point(other, x, y) == state.point(other, x, y),
{
}

/// Everything is released because of a stop once, however often it is asked.
pub proof fn lemma_stop_releases_once(state: StateModel)
    ensures
        state.after_stop().stop_release_done,
        state.after_stop().after_stop() == state.after_stop(),
        state.after_stop().budget.stopped,
{
}

/// A calibration that verifies the linear mapping changes no point, and one
/// that rejects it falls back to that mapping.
pub proof fn lemma_linear_calibration_changes_nothing(
    state: StateModel,
    size: ScreenSize,
    linear: Transform,
    fitted: Transform,
    x: i64,
    y: i64,
)
    requires
        state.desktop_screen == Some(size),
        size.width > 0,
        size.height > 0,
        !state.is_calibrated(size),
        linear@ == TransformModel::linear(size.width, size.height),
    ensures
        state.after_calibration(Verdict::Linear, size, linear, fitted).point(Target::Desktop, x, y)
            == state.point(Target::Desktop, x, y),
        state.after_calibration(Verdict::Rejected, size, linear, fitted).point(
            Target::Desktop,
            x,
            y,
        ) == state.point(Target::Desktop, x, y),
{
}

/// Where the pointer of the sandbox may go is what the last screenshot shows:
/// a mapped pixel is never refused by a client that captured it.
pub proof fn lemma_mapped_pixels_are_on_the_output(
    state: StateModel,
    size: ScreenSize,
    session: Session,
    x: i64,
    y: i64,
)
    requires
        session.extent == (size.width, size.height),
    ensures
        state.after_capture(Target::Sandbox, size).point(Target::Sandbox, x, y) matches Ok(point)
            ==> point.0 < session.extent.0 && point.1 < session.extent.1,
{
}

/// On a desktop that was not measured at this size, the pointer goes to the
/// part of each axis that the pixel is of the screenshot.
pub proof fn lemma_unmeasured_pixels_map_evenly(state: StateModel, size: ScreenSize, x: i64, y: i64)
    requires
        state.desktop_screen == Some(size),
        !state.is_calibrated(size),
    ensures
        state.point(Target::Desktop, x, y) matches Ok(point) ==> {
            &&& -(size.width - 1) <= 2 * (point.0 * (size.width - 1) - 65_535 * x) <= size.width - 1
            &&& -(size.height - 1) <= 2 * (point.1 * (size.height - 1) - 65_535 * y)
                <= size.height - 1
            &&& point.0 <= 65_535 && point.1 <= 65_535
        },
{
    lemma_linear_is_proportional(x, y, size.width, size.height);
}

/// On a desktop whose calibration kept the fitted mapping, the pointer goes to
/// where that mapping takes the pixel, in screenshots of the size that was
/// measured.
pub proof fn lemma_fitted_mapping_is_used(
    state: StateModel,
    size: ScreenSize,
    linear: Transform,
    fitted: Transform,
    x: i64,
    y: i64,
)
    ensures
        ({
            let measured = state.after_calibration(Verdict::Fitted, size, linear, fitted);
            measured.after_capture(Target::Desktop, size).point(Target::Desktop, x, y) matches Ok(
                point,
            ) ==> {
                &&& fitted@.m11 matches Some(a) && fitted@.m12 matches Some(b)
                    && fitted@.m13 matches Some(c) && is_affine(
                    point.0 as int,
                    a,
                    b,
                    c,
                    x as int,
                    y as int,
                )
                &&& fitted@.m21 matches Some(a) && fitted@.m22 matches Some(b)
                    && fitted@.m23 matches Some(c) && is_affine(
                    point.1 as int,
                    a,
                    b,
                    c,
                    x as int,
                    y as int,
                )
            }
        }),
{
    lemma_mapped_is_affine(fitted@, x, y, size.width, size.height);
}

/// What a calibration keeps holds for screenshots of the size that was
/// measured and for no others, and one that is rejected keeps nothing. It
/// changes neither the sandbox nor the budget.
pub proof fn lemma_calibration_is_for_its_size(
    state: StateModel,
    verdict: Verdict,
    size: ScreenSize,
    linear: Transform,
    fitted: Transform,
    other: ScreenSize,
    x: i64,
    y: i64,
)
    ensures
        ({
            let after = state.after_calibration(verdict, size, linear, fitted);
            &&& after.is_calibrated(other) <==> other == size && verdict != Verdict::Rejected
            &&& after.point(Target::Sandbox, x, y) == state.point(Target::Sandbox, x, y)
            &&& after.budget == state.budget
            &&& after.sandbox == state.sandbox
            &&& after.desktop_screen == state.desktop_screen
        }),
{
}

/// A screenshot is remembered as the last of its target, counts for the
/// budget, and changes nothing else.
pub proof fn lemma_screenshot_is_remembered(state: StateModel, target: Target, size: ScreenSize)
    ensures
        ({
            let after = state.after_capture(target, size);
            &&& after.screen(target) == Ok::<ScreenSize, Seq<char>>(size)
            &&& after.budget.consecutive_injections == 0
            &&& after.budget.last_injection == state.budget.last_injection
            &&& after.budget.stopped == state.budget.stopped
            &&& after.calibration == state.calibration
            &&& after.sandbox == state.sandbox
            &&& after.stop_release_done == state.stop_release_done
            &&& after.keymap == state.keymap
        }),
{
}

/// A sandbox that starts or stops leaves the real desktop as it was.
pub proof fn lemma_sandbox_leaves_the_desktop_alone(
    state: StateModel,
    sandbox: SandboxModel,
    x: i64,
    y: i64,
)
    ensures
        state.after_sandbox_start(sandbox).point(Target::Desktop, x, y) == state.point(
            Target::Desktop,
            x,
            y,
        ),
        state.after_sandbox_stop().point(Target::Desktop, x, y) == state.point(
            Target::Desktop,
            x,
            y,
        ),
        state.after_sandbox_start(sandbox).budget == state.budget,
        state.after_sandbox_stop().budget == state.budget,
        state.has_injector(Target::Desktop),
        state.after_sandbox_start(sandbox).has_injector(Target::Sandbox),
        !state.after_sandbox_stop().has_injector(Target::Sandbox),
{
}

/// Releasing everything succeeds exactly where both devices did; the error is
/// that of the desktop where it failed, and names the device.
pub proof fn lemma_first_release_error(
    desktop: Result<(), Seq<char>>,
    sandbox: Result<(), Seq<char>>,
)
    ensures
        release_error(desktop, sandbox) is None <==> desktop is Ok && sandbox is Ok,
        desktop matches Err(error) ==> release_error(desktop, sandbox) == Some(
            "desktop: "@ + error,
        ),
        sandbox matches Err(error) ==> desktop is Ok ==> release_error(desktop, sandbox) == Some(
            "sandbox: "@ + error,
        ),
{
}

} // verus!
