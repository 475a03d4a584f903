//! The course of a calibration: find the window that serves as a ruler, send
//! the pointer to places in it, and look where it shows up.

use vstd::prelude::*;
use vstd::string::*;

use crate::calibrate::measure::{measure, Measurement, Sighting};
use crate::calibrate::probe::{
    cursor_missing, cursor_missing_text, intended, lemma_position_is_bounded,
    lemma_probes_are_parts_of_the_window, lemma_probes_lie_within_the_window, probe_percents,
    probe_point, Verdict, PROBE_PAUSE_MS,
};
use crate::calibrate::{
    find_cursor_on_bg, find_sandbox_rect, image_of, lemma_painted_window_is_found,
    lemma_solid_cursor_is_found, Image, ImageModel, Rect, MIN_WINDOW_HEIGHT, MIN_WINDOW_WIDTH,
};
use crate::codec::png_frame;
use crate::coords::{
    lemma_linear_accepts_the_screen, lemma_linear_is_proportional, CoordError, TransformModel,
};
use crate::time::Duration;

use super::effects::{clicked, elapsed, only_pointer, trail};
use super::steps::{step_views, Step, StepModel};
use super::ScreenSize;

verus! {

/// The ruler in a desktop screenshot.
pub open spec fn ruler_in(image: ImageModel) -> Result<Rect, Seq<char>> {
    match image.window() {
        Ok(rect) => Ok(rect),
        Err(error) => Err(
            error
                + ". The ruler window must be visible and not covered on the real desktop while calibrate runs."@,
        ),
    }
}

/// The ruler in what a desktop screenshot was decoded to.
pub open spec fn ruler_of(decoded: Result<ImageModel, Seq<char>>) -> Result<Rect, Seq<char>> {
    match decoded {
        Ok(image) => ruler_in(image),
        Err(error) => Err("decode desktop screenshot: "@ + error),
    }
}

/// Finds the ruler in an image.
pub fn find_ruler(image: &Image) -> (ruler: Result<Rect, String>)
    requires
        image@.is_complete(),
    ensures
        match ruler {
            Ok(rect) => ruler_in(image@) == Ok::<Rect, Seq<char>>(rect),
            Err(error) => ruler_in(image@) == Err::<Rect, Seq<char>>(error@),
        },
{
    match find_sandbox_rect(image) {
        Ok(rect) => Ok(rect),
        Err(reason) => {
            let mut error = reason;
            error.append(
                ". The ruler window must be visible and not covered on the real desktop while calibrate runs.",
            );
            Err(error)
        },
    }
}

/// Finds the ruler in a desktop screenshot.
pub fn locate_ruler(desktop_png: &[u8]) -> (ruler: Result<Rect, String>)
    ensures
        match ruler {
            Ok(rect) => ruler_of(image_of(png_frame(desktop_png@))) == Ok::<Rect, Seq<char>>(rect),
            Err(error) => ruler_of(image_of(png_frame(desktop_png@))) == Err::<Rect, Seq<char>>(
                error@,
            ),
        },
{
    match Image::from_png(desktop_png) {
        Ok(image) => find_ruler(&image),
        Err(reason) => {
            let mut error = "decode desktop screenshot: ".to_owned();
            error.append(reason.as_str());
            Err(error)
        },
    }
}

/// Where the pointer shows up in a picture of the ruler.
pub open spec fn sighting_in(image: ImageModel, rect: Rect, percent: (u8, u8)) -> Result<
    Sighting,
    Seq<char>,
> {
    match image.cursor() {
        Some(blob) => Ok(Sighting { percent, hotspot: (blob.min_x, blob.min_y) }),
        None => Err(cursor_missing_text(rect, percent)),
    }
}

/// Where the pointer shows up in what a picture of the ruler was decoded to.
pub open spec fn sighting_of(
    decoded: Result<ImageModel, Seq<char>>,
    rect: Rect,
    percent: (u8, u8),
) -> Result<Sighting, Seq<char>> {
    match decoded {
        Ok(image) => sighting_in(image, rect, percent),
        Err(error) => Err("decode ruler screenshot: "@ + error),
    }
}

/// Looks for the pointer in a picture of the ruler.
pub fn look_for_cursor(image: &Image, rect: Rect, percent: (u8, u8)) -> (sighting: Result<
    Sighting,
    String,
>)
    requires
        image@.is_complete(),
    ensures
        match sighting {
            Ok(sighting) => sighting_in(image@, rect, percent) == Ok::<Sighting, Seq<char>>(
                sighting,
            ),
            Err(error) => sighting_in(image@, rect, percent) == Err::<Sighting, Seq<char>>(error@),
        },
{
    match find_cursor_on_bg(image) {
        Some(cursor) => Ok(Sighting { percent, hotspot: cursor.hotspot() }),
        None => Err(cursor_missing(rect, percent)),
    }
}

/// What a calibration does next.
#[derive(Debug)]
pub enum CalibrationStep {
    /// Perform these steps on the desktop.
    Move(Vec<Step>),
    /// Take a picture of the ruler.
    Look,
    /// All probes are done: judge by what they measured.
    Judge(Measurement),
}

pub enum CalibrationStepModel {
    Move(Seq<StepModel>),
    Look,
    Judge,
}

impl View for CalibrationStep {
    type V = CalibrationStepModel;

    open spec fn view(&self) -> CalibrationStepModel {
        match *self {
            CalibrationStep::Move(steps) => CalibrationStepModel::Move(step_views(steps@)),
            CalibrationStep::Look => CalibrationStepModel::Look,
            CalibrationStep::Judge(_) => CalibrationStepModel::Judge,
        }
    }
}

/// A calibration under way: the ruler on the desktop, the size of its picture,
/// the size of the desktop, and what has been seen so far.
#[derive(Debug)]
pub struct Calibrating {
    pub rect: Rect,
    pub picture: (u32, u32),
    pub screen: ScreenSize,
    pub sightings: Vec<Sighting>,
    /// The pointer has been sent to the next place.
    pub sent: bool,
}

pub struct CalibratingModel {
    pub rect: Rect,
    pub picture: (u32, u32),
    pub screen: ScreenSize,
    pub sightings: Seq<Sighting>,
    pub sent: bool,
}

impl View for Calibrating {
    type V = CalibratingModel;

    open spec fn view(&self) -> CalibratingModel {
        CalibratingModel {
            rect: self.rect,
            picture: self.picture,
            screen: self.screen,
            sightings: self.sightings@,
            sent: self.sent,
        }
    }
}

/// The places of the probes, in order.
pub open spec fn probes() -> Seq<(u8, u8)> {
    seq![(20u8, 20u8), (80u8, 25u8), (50u8, 80u8), (75u8, 70u8)]
}

impl CalibratingModel {
    /// The picture has pixels, and there are no more sightings than probes.
    pub open spec fn is_valid(self) -> bool {
        self.picture.0 > 0 && self.picture.1 > 0 && self.sightings.len() <= probes().len()
    }

    pub open spec fn is_done(self) -> bool {
        self.sightings.len() == probes().len()
    }

    /// The steps that send the pointer to a place of the ruler.
    pub open spec fn probe_steps(self, percent: (u8, u8)) -> Result<Seq<StepModel>, Seq<char>> {
        let (x, y) = intended(self.rect, percent);
        match TransformModel::linear(self.screen.width, self.screen.height).mapped(
            x as i64,
            y as i64,
            self.screen.width,
            self.screen.height,
        ) {
            Ok(point) => Ok(
                seq![
                    StepModel::Move(point.x as u32, point.y as u32),
                    StepModel::Sleep(Duration::of_millis(PROBE_PAUSE_MS)),
                ],
            ),
            Err(error) => Err(error.text()),
        }
    }

    /// Each probe sends the pointer and then looks for it; after the last the
    /// sightings are judged.
    pub open spec fn next(self) -> Result<CalibrationStepModel, Seq<char>> {
        if self.is_done() {
            Ok(CalibrationStepModel::Judge)
        } else if self.sent {
            Ok(CalibrationStepModel::Look)
        } else {
            match self.probe_steps(probes()[self.sightings.len() as int]) {
                Ok(steps) => Ok(CalibrationStepModel::Move(steps)),
                Err(error) => Err(error),
            }
        }
    }
}

impl Calibrating {
    /// A calibration that has found its ruler.
    pub fn new(rect: Rect, picture: (u32, u32), screen: ScreenSize) -> (calibrating: Result<
        Calibrating,
        CoordError,
    >)
        requires
            picture.0 > 0,
            picture.1 > 0,
        ensures
            match calibrating {
                Ok(calibrating) => screen.width > 0 && screen.height > 0 && calibrating@ == (
                CalibratingModel { rect, picture, screen, sightings: Seq::empty(), sent: false })
                    && calibrating@.is_valid(),
                Err(error) => (screen.width == 0 || screen.height == 0) && error
                    == CoordError::InvalidScreenSize,
            },
    {
        if screen.width == 0 || screen.height == 0 {
            return Err(CoordError::InvalidScreenSize);
        }
        Ok(Calibrating { rect, picture, screen, sightings: Vec::new(), sent: false })
    }

    /// What comes next.
    pub fn next(&self) -> (step: Result<CalibrationStep, String>)
        requires
            self@.is_valid(),
        ensures
            match step {
                Ok(step) => self@.next() == Ok::<CalibrationStepModel, Seq<char>>(step@) && (
                step matches CalibrationStep::Judge(measured) ==> measured.is_of(
                    self.rect,
                    self.picture,
                    self.sightings@,
                )),
                Err(error) => self@.next() == Err::<CalibrationStepModel, Seq<char>>(error@),
            },
    {
        let percents = probe_percents();
        if self.sightings.len() == percents.len() {
            let measured = measure(self.rect, self.picture, &self.sightings);
            return Ok(CalibrationStep::Judge(measured));
        }
        if self.sent {
            return Ok(CalibrationStep::Look);
        }
        let percent = percents[self.sightings.len()];
        match probe_point(self.rect, percent, self.screen.width, self.screen.height) {
            Ok((x, y)) => {
                let steps: Vec<Step> = vec![
                    Step::Move(x, y),
                    Step::Sleep(Duration::from_millis(PROBE_PAUSE_MS)),
                ];
                assert(step_views(steps@) =~= seq![
                    StepModel::Move(x, y),
                    StepModel::Sleep(Duration::of_millis(PROBE_PAUSE_MS)),
                ]);
                Ok(CalibrationStep::Move(steps))
            },
            Err(error) => Err(error.message()),
        }
    }

    /// The pointer was sent to the place of the next probe.
    pub fn moved(&mut self)
        requires
            old(self)@.is_valid(),
        ensures
            final(self)@ == (CalibratingModel { sent: true, ..old(self)@ }),
            final(self)@.is_valid(),
    {
        self.sent = true;
    }

    /// A picture of the ruler was taken: the pointer is looked for in it, for
    /// the probe that is next.
    pub fn looked(&mut self, ruler_png: &[u8]) -> (seen: Result<(), String>)
        requires
            old(self)@.is_valid(),
            !old(self)@.is_done(),
        ensures
            final(self)@.is_valid(),
            ({
                let before = old(self)@;
                let percent = probes()[before.sightings.len() as int];
                match sighting_of(image_of(png_frame(ruler_png@)), before.rect, percent) {
                    Ok(sighting) => seen is Ok && final(self)@ == (CalibratingModel {
                        sightings: before.sightings.push(sighting),
                        sent: false,
                        ..before
                    }),
                    Err(error) => seen matches Err(text) && text@ == error && final(self)@ == before,
                }
            }),
    {
        let percents = probe_percents();
        let percent = percents[self.sightings.len()];
        let image = match Image::from_png(ruler_png) {
            Ok(image) => image,
            Err(reason) => {
                let mut error = "decode ruler screenshot: ".to_owned();
                error.append(reason.as_str());
                return Err(error);
            },
        };
        match look_for_cursor(&image, self.rect, percent) {
            Ok(sighting) => {
                self.sightings.push(sighting);
                self.sent = false;
                Ok(())
            },
            Err(error) => Err(error),
        }
    }
}

/// What a calibration replies: the summary of its measurement, the residual
/// that a fit leaves in pixels, and the file that keeps the mapping. One that
/// is rejected keeps nothing.
pub open spec fn report_text(
    verdict: Verdict,
    summary: Seq<char>,
    residual: Seq<char>,
    path: Seq<char>,
) -> Result<Seq<char>, Seq<char>> {
    match verdict {
        Verdict::Linear => Ok(
            "linear desktop mapping verified within the 3 px limit: "@ + summary + "; saved to "@
                + path,
        ),
        Verdict::Fitted => Ok(
            "linear mapping was off ("@ + summary + "); fitted affine transform with residual "@
                + residual + " px saved to "@ + path,
        ),
        Verdict::Rejected => Err(
            "calibration rejected: "@ + summary + "; an affine fit still leaves "@ + residual
                + " px. Keeping the linear mapping; nothing saved."@,
        ),
    }
}

pub fn report(verdict: Verdict, summary: &str, residual: &str, path: &str) -> (reply: Result<
    String,
    String,
>)
    ensures
        match reply {
            Ok(reply) => report_text(verdict, summary@, residual@, path@) == Ok::<
                Seq<char>,
                Seq<char>,
            >(reply@),
            Err(error) => report_text(verdict, summary@, residual@, path@) == Err::<
                Seq<char>,
                Seq<char>,
            >(error@),
        },
{
    match verdict {
        Verdict::Linear => {
            let mut reply = "linear desktop mapping verified within the 3 px limit: ".to_owned();
            reply.append(summary);
            reply.append("; saved to ");
            reply.append(path);
            Ok(reply)
        },
        Verdict::Fitted => {
            let mut reply = "linear mapping was off (".to_owned();
            reply.append(summary);
            reply.append("); fitted affine transform with residual ");
            reply.append(residual);
            reply.append(" px saved to ");
            reply.append(path);
            Ok(reply)
        },
        Verdict::Rejected => {
            let mut error = "calibration rejected: ".to_owned();
            error.append(summary);
            error.append("; an affine fit still leaves ");
            error.append(residual);
            error.append(" px. Keeping the linear mapping; nothing saved.");
            Err(error)
        },
    }
}

/// A calibration whose ruler lies on the desktop never fails to send the
/// pointer: it moves for each probe, looks, and judges after the last.
pub proof fn lemma_calibration_goes_on(calibrating: CalibratingModel)
    requires
        calibrating.is_valid(),
        calibrating.rect.width >= MIN_WINDOW_WIDTH,
        calibrating.rect.height >= MIN_WINDOW_HEIGHT,
        calibrating.rect.x + calibrating.rect.width <= calibrating.screen.width,
        calibrating.rect.y + calibrating.rect.height <= calibrating.screen.height,
    ensures
        calibrating.next() is Ok,
        calibrating.next()->Ok_0 is Judge <==> calibrating.is_done(),
        calibrating.next()->Ok_0 is Move <==> !calibrating.is_done() && !calibrating.sent,
{
    if !calibrating.is_done() {
        let percent = probes()[calibrating.sightings.len() as int];
        let (x, y) = intended(calibrating.rect, percent);
        lemma_probes_lie_within_the_window(calibrating.rect, percent);
        lemma_linear_accepts_the_screen(
            x as i64,
            y as i64,
            calibrating.screen.width,
            calibrating.screen.height,
        );
    }
}

/// The probes are four, none near an edge of the window, and no three of them
/// lie on one line, so that they determine a mapping.
pub proof fn lemma_probes_determine_a_mapping(i: int, j: int, k: int)
    requires
        0 <= i < j < k < probes().len(),
    ensures
        probes().len() == 4,
        forall|n: int|
            0 <= n < probes().len() ==> 20 <= (#[trigger] probes()[n]).0 <= 80 && 20
                <= probes()[n].1 <= 80,
        ({
            let (a, b, c) = (probes()[i], probes()[j], probes()[k]);
            (b.0 - a.0) * (c.1 - a.1) != (b.1 - a.1) * (c.0 - a.0)
        }),
{
    let (a, b, c) = (probes()[i], probes()[j], probes()[k]);
    let (one, other) = ((b.0 - a.0) * (c.1 - a.1), (b.1 - a.1) * (c.0 - a.0));
    if i == 1 {
        assert(one == (-30) * 45 && other == 55 * (-5));
    } else if j == 2 {
        assert(one == 30 * 50 && other == 60 * 55);
    } else if k == 2 {
        assert(one == 60 * 60 && other == 5 * 30);
    } else {
        assert(one == 60 * 50 && other == 5 * 55);
    }
}

/// A probe sends the pointer once, to the part of the desktop where its pixel
/// of the ruler is, waits a quarter of a second, and uses nothing but the
/// pointer.
pub proof fn lemma_probes_send_the_pointer(calibrating: CalibratingModel)
    requires
        calibrating.is_valid(),
        !calibrating.is_done(),
        !calibrating.sent,
    ensures
        calibrating.next() matches Ok(step) ==> {
            let percent = probes()[calibrating.sightings.len() as int];
            let pixel = intended(calibrating.rect, percent);
            let last = (calibrating.screen.width - 1, calibrating.screen.height - 1);
            &&& step matches CalibrationStepModel::Move(steps) && {
                let way = trail(steps);
                &&& way.len() == 1
                &&& -last.0 <= 2 * (way[0].at.0 * last.0 - 65_535 * pixel.0) <= last.0
                &&& -last.1 <= 2 * (way[0].at.1 * last.1 - 65_535 * pixel.1) <= last.1
                &&& clicked(steps).len() == 0
                &&& elapsed(steps) == 250_000_000
                &&& only_pointer(steps)
            }
            &&& -50 <= 100 * (pixel.0 - calibrating.rect.x) - percent.0 * calibrating.rect.width
                <= 50
            &&& -50 <= 100 * (pixel.1 - calibrating.rect.y) - percent.1 * calibrating.rect.height
                <= 50
        },
{
    let percent = probes()[calibrating.sightings.len() as int];
    let (x, y) = intended(calibrating.rect, percent);
    lemma_probes_are_parts_of_the_window(calibrating.rect, percent);
    lemma_position_is_bounded(calibrating.rect.x, calibrating.rect.width, percent.0);
    lemma_position_is_bounded(calibrating.rect.y, calibrating.rect.height, percent.1);
    lemma_linear_is_proportional(
        x as i64,
        y as i64,
        calibrating.screen.width,
        calibrating.screen.height,
    );
    if let Ok(steps) = calibrating.probe_steps(percent) {
        reveal_with_fuel(trail, 3);
        reveal_with_fuel(clicked, 3);
        reveal_with_fuel(elapsed, 3);
        assert(steps.drop_last() =~= seq![steps[0]]);
        assert(seq![steps[0]].drop_last() =~= Seq::<StepModel>::empty());
        assert(Duration::of_millis(PROBE_PAUSE_MS).nanos == 250_000_000);
    }
}

/// A pointer that shows up as a solid area on the background is sighted at the
/// top-left corner of that area, for the probe it was sent to.
pub proof fn lemma_pointer_is_sighted_at_its_corner(
    image: ImageModel,
    rect: Rect,
    percent: (u8, u8),
    left: int,
    top: int,
    wide: int,
    high: int,
)
    requires
        image.foreground().is_rectangle(image.height, left, top, wide, high),
        wide * high >= 12,
        wide <= 96,
        high <= 96,
    ensures
        sighting_in(image, rect, percent) matches Ok(sighting) && sighting.percent == percent
            && sighting.hotspot.0 == left && sighting.hotspot.1 == top,
{
    lemma_solid_cursor_is_found(image, left, top, wide, high);
}

/// A ruler that is painted on the desktop, with no more than stray pixels of
/// its colour beside it, is found where it is.
pub proof fn lemma_painted_ruler_is_found(image: ImageModel, rect: Rect)
    requires
        image.is_complete(),
        image.is_painted(rect),
        image.has_only_strays_beside(rect),
        rect.width >= 320,
        rect.height >= 200,
    ensures
        ruler_in(image) == Ok::<Rect, Seq<char>>(rect),
{
    lemma_painted_window_is_found(image, rect);
}

/// A calibration reports a failure exactly where it is rejected.
pub proof fn lemma_rejections_are_failures(
    verdict: Verdict,
    summary: Seq<char>,
    residual: Seq<char>,
    path: Seq<char>,
)
    ensures
        report_text(verdict, summary, residual, path) is Err <==> verdict == Verdict::Rejected,
{
}

} // verus!
