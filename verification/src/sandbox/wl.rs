//! What the client of the nested compositor decides: screen captures, pointer
//! motion, scrolling and keys.

use vstd::arithmetic::div_mod::lemma_fundamental_div_mod_converse;
use vstd::prelude::*;
use vstd::string::*;

use crate::calibrate::{image_of, leading_bytes};
use crate::codec::{encode_rgb, png_bytes, png_frame, reads_back, DECODABLE_ROW};
use crate::text::{decimal, push_decimal};
use crate::time::Duration;

verus! {

pub const BTN_LEFT: u32 = 0x110;

pub const BTN_RIGHT: u32 = 0x111;

pub const BTN_MIDDLE: u32 = 0x112;

/// A captured screen as a PNG.
#[derive(Debug, Clone)]
pub struct Frame {
    pub width: u32,
    pub height: u32,
    pub png: Vec<u8>,
}

/// Format of the four bytes of a pixel in a shared-memory buffer.
#[derive(Debug, Clone)]
pub enum PixelFormat {
    Xrgb8888,
    Argb8888,
    Xbgr8888,
    Abgr8888,
    /// Any other format, by its name.
    Other(String),
}

/// The places of red, green and blue among the bytes of a pixel.
pub open spec fn channels(format: PixelFormat) -> Option<(int, int, int)> {
    match format {
        PixelFormat::Xrgb8888 => Some((2, 1, 0)),
        PixelFormat::Argb8888 => Some((2, 1, 0)),
        PixelFormat::Xbgr8888 => Some((0, 1, 2)),
        PixelFormat::Abgr8888 => Some((0, 1, 2)),
        PixelFormat::Other(_) => None,
    }
}

/// A shared-memory buffer: `height` lines of `width` pixels, `stride` bytes
/// apart, from the bottom up where it is inverted.
pub struct BufferModel {
    pub data: Seq<u8>,
    pub width: int,
    pub height: int,
    pub stride: int,
    pub y_invert: bool,
}

impl BufferModel {
    /// The line of the buffer that holds a row of the image.
    pub open spec fn line(self, y: int) -> int {
        if self.y_invert {
            self.height - 1 - y
        } else {
            y
        }
    }

    /// The buffer holds all its lines.
    pub open spec fn is_long_enough(self) -> bool {
        self.height == 0 || (self.height - 1) * self.stride + self.width * 4 <= self.data.len()
    }

    /// A byte of a pixel of the image.
    pub open spec fn byte(self, x: int, y: int, place: int) -> u8 {
        self.data[self.line(y) * self.stride + x * 4 + place]
    }

    /// The pixels of the image, row by row, red, green and blue of each.
    pub open spec fn rgb(self, order: (int, int, int)) -> Seq<u8> {
        Seq::new(
            (self.width * self.height * 3) as nat,
            |i: int|
                self.byte(
                    i / 3 % self.width,
                    i / 3 / self.width,
                    if i % 3 == 0 {
                        order.0
                    } else if i % 3 == 1 {
                        order.1
                    } else {
                        order.2
                    },
                ),
        )
    }
}

/// The PNG of a buffer, or why there is none.
pub open spec fn encoded(
    buffer: BufferModel,
    format: PixelFormat,
    width: u32,
    height: u32,
) -> Result<Seq<u8>, Seq<char>> {
    match channels(format) {
        None => Err("unsupported screencopy pixel format "@ + format->Other_0@),
        Some(order) => if !buffer.is_long_enough() {
            Err("screencopy buffer is shorter than its stride implies"@)
        } else if width == 0 {
            Err("write PNG header: "@ + "Zero width not allowed"@)
        } else if height == 0 {
            Err("write PNG header: "@ + "Zero height not allowed"@)
        } else {
            Ok(png_bytes(width, height, buffer.rgb(order)))
        },
    }
}

proof fn lemma_buffer_index(buffer: BufferModel, x: int, y: int)
    requires
        buffer.is_long_enough(),
        0 <= x < buffer.width,
        0 <= y < buffer.height,
        0 <= buffer.stride,
    ensures
        0 <= buffer.line(y) < buffer.height,
        0 <= buffer.line(y) * buffer.stride,
        buffer.line(y) * buffer.stride + x * 4 + 3 < buffer.data.len(),
{
    let line = buffer.line(y);
    let stride = buffer.stride;
    assert(0 <= line * stride <= (buffer.height - 1) * stride) by (nonlinear_arith)
        requires
            0 <= line <= buffer.height - 1,
            0 <= stride,
    ;
}

proof fn lemma_rgb_index(x: int, y: int, width: int, height: int)
    requires
        0 <= x < width,
        0 <= y < height,
    ensures
        forall|c: int|
            0 <= c < 3 ==> (#[trigger] ((y * width + x) * 3 + c)) / 3 == y * width + x && ((y
                * width + x) * 3 + c) % 3 == c,
        (y * width + x) % width == x,
        (y * width + x) / width == y,
        0 <= (y * width + x) * 3,
        (y * width + x) * 3 + 3 <= width * height * 3,
{
    lemma_fundamental_div_mod_converse(y * width + x, width, y, x);
    assert(y * width + width <= width * height) by (nonlinear_arith)
        requires
            0 <= y < height,
            0 < width,
    ;
    assert(0 <= y * width) by (nonlinear_arith)
        requires
            0 <= y,
            0 < width,
    ;
}

/// The pixels of a buffer that is long enough.
fn rgb_of(
    data: &[u8],
    order: (usize, usize, usize),
    width: u32,
    height: u32,
    stride: u32,
    y_invert: bool,
) -> (rgb: Vec<u8>)
    requires
        order.0 < 4,
        order.1 < 4,
        order.2 < 4,
        (BufferModel {
            data: data@,
            width: width as int,
            height: height as int,
            stride: stride as int,
            y_invert,
        }).is_long_enough(),
    ensures
        rgb@ == (BufferModel {
            data: data@,
            width: width as int,
            height: height as int,
            stride: stride as int,
            y_invert,
        }).rgb((order.0 as int, order.1 as int, order.2 as int)),
        rgb@.len() == width * height * 3,
{
    let ghost buffer = BufferModel {
        data: data@,
        width: width as int,
        height: height as int,
        stride: stride as int,
        y_invert,
    };
    let ghost want = buffer.rgb((order.0 as int, order.1 as int, order.2 as int));
    let len: usize = data.len();
    let mut rgb: Vec<u8> = Vec::new();
    let mut y: u32 = 0;
    proof {
        assert(0 <= width * height) by (nonlinear_arith);
    }
    while y < height
        invariant
            y <= height,
            len == data@.len(),
            order.0 < 4,
            order.1 < 4,
            order.2 < 4,
            buffer == (BufferModel {
                data: data@,
                width: width as int,
                height: height as int,
                stride: stride as int,
                y_invert,
            }),
            want == buffer.rgb((order.0 as int, order.1 as int, order.2 as int)),
            want.len() == width * height * 3,
            buffer.is_long_enough(),
            rgb@.len() == y * width * 3,
            forall|i: int| 0 <= i < rgb@.len() ==> #[trigger] rgb@[i] == want[i],
        decreases height - y,
    {
        let line: u32 = if y_invert {
            height - 1 - y
        } else {
            y
        };
        let mut x: u32 = 0;
        while x < width
            invariant
                x <= width,
                y < height,
                line == buffer.line(y as int),
                len == data@.len(),
                order.0 < 4,
                order.1 < 4,
                order.2 < 4,
                buffer == (BufferModel {
                    data: data@,
                    width: width as int,
                    height: height as int,
                    stride: stride as int,
                    y_invert,
                }),
                want == buffer.rgb((order.0 as int, order.1 as int, order.2 as int)),
                want.len() == width * height * 3,
                buffer.is_long_enough(),
                rgb@.len() == (y * width + x) * 3,
                forall|i: int| 0 <= i < rgb@.len() ==> #[trigger] rgb@[i] == want[i],
            decreases width - x,
        {
            let ghost start = (y * width + x) * 3;
            proof {
                lemma_buffer_index(buffer, x as int, y as int);
                lemma_rgb_index(x as int, y as int, width as int, height as int);
                assert((start + 0) / 3 == y * width + x && (start + 0) % 3 == 0);
                assert((start + 1) / 3 == y * width + x && (start + 1) % 3 == 1);
                assert((start + 2) / 3 == y * width + x && (start + 2) % 3 == 2);
            }
            let at: usize = line as usize * stride as usize + x as usize * 4;
            rgb.push(data[at + order.0]);
            rgb.push(data[at + order.1]);
            rgb.push(data[at + order.2]);
            x = x + 1;
        }
        proof {
            assert((y * width + width) * 3 == (y + 1) * width * 3) by (nonlinear_arith);
        }
        y = y + 1;
    }
    proof {
        assert(height * width * 3 == width * height * 3) by (nonlinear_arith);
    }
    assert(rgb@ =~= want);
    rgb
}

/// The PNG of a shared-memory buffer.
pub fn encode_png(
    data: &[u8],
    format: &PixelFormat,
    width: u32,
    height: u32,
    stride: u32,
    y_invert: bool,
) -> (png: Result<Vec<u8>, String>)
    ensures
        ({
            let buffer = BufferModel {
                data: data@,
                width: width as int,
                height: height as int,
                stride: stride as int,
                y_invert,
            };
            match png {
                Ok(bytes) => encoded(buffer, *format, width, height) == Ok::<Seq<u8>, Seq<char>>(
                    bytes@,
                ) && (width * 3 <= DECODABLE_ROW ==> reads_back(
                    bytes@,
                    width,
                    height,
                    buffer.rgb(channels(*format)->0),
                )),
                Err(error) => encoded(buffer, *format, width, height) == Err::<Seq<u8>, Seq<char>>(
                    error@,
                ),
            }
        }),
{
    let order: (usize, usize, usize) = match format {
        PixelFormat::Xrgb8888 => (2, 1, 0),
        PixelFormat::Argb8888 => (2, 1, 0),
        PixelFormat::Xbgr8888 => (0, 1, 2),
        PixelFormat::Abgr8888 => (0, 1, 2),
        PixelFormat::Other(name) => {
            let mut error = "unsupported screencopy pixel format ".to_owned();
            error.append(name.as_str());
            return Err(error);
        },
    };
    if height > 0 {
        proof {
            assert(0 <= (height - 1) * stride <= u32::MAX * u32::MAX) by (nonlinear_arith)
                requires
                    0 < height <= u32::MAX,
                    0 <= stride <= u32::MAX,
            ;
        }
        let needed: u128 = (height - 1) as u128 * stride as u128 + width as u128 * 4;
        if needed > data.len() as u128 {
            return Err("screencopy buffer is shorter than its stride implies".to_owned());
        }
    }
    let rgb = rgb_of(data, order, width, height, stride, y_invert);
    match encode_rgb(width, height, &rgb) {
        Ok(bytes) => Ok(bytes),
        Err(text) => {
            let mut error = "write PNG header: ".to_owned();
            error.append(text.as_str());
            Err(error)
        },
    }
}

/// A captured frame that is decoded again has the size of the buffer, and each
/// of its pixels the colour of the buffer's pixel.
pub proof fn lemma_captured_pixels_survive(
    buffer: BufferModel,
    format: PixelFormat,
    width: u32,
    height: u32,
    png: Seq<u8>,
    x: int,
    y: int,
)
    requires
        buffer.width == width,
        buffer.height == height,
        channels(format) is Some,
        reads_back(png, width, height, buffer.rgb(channels(format)->0)),
        0 <= x < width,
        0 <= y < height,
    ensures
        image_of(png_frame(png)) matches Ok(image) && image.width == width && image.height
            == height && image.is_complete() && image.pixel(x, y) == (
            buffer.byte(x, y, (channels(format)->0).0),
            buffer.byte(x, y, (channels(format)->0).1),
            buffer.byte(x, y, (channels(format)->0).2),
        ),
{
    let rgb = buffer.rgb(channels(format)->0);
    assert(0 <= width * height) by (nonlinear_arith);
    assert(rgb.len() == width * height * 3);
    assert(leading_bytes(rgb, 3) =~= rgb);
    lemma_rgb_index(x, y, width as int, height as int);
    let start = (y * width + x) * 3;
    assert((start + 0) / 3 == y * width + x && (start + 0) % 3 == 0);
    assert((start + 1) / 3 == y * width + x && (start + 1) % 3 == 1);
    assert((start + 2) / 3 == y * width + x && (start + 2) % 3 == 2);
}

/// The buffer that a capture needs, as the compositor announced it.
#[derive(Debug, Clone)]
pub struct BufferInfo {
    pub format: PixelFormat,
    pub width: u32,
    pub height: u32,
    pub stride: u32,
}

/// What the compositor says of a capture.
#[derive(Debug)]
pub enum FrameEvent {
    Buffer(BufferInfo),
    Flags { y_invert: bool },
    Ready,
    Failed,
}

/// A capture under way.
#[derive(Debug)]
pub struct PendingFrame {
    pub buffer: Option<BufferInfo>,
    pub y_invert: bool,
    pub ready: bool,
    pub failed: bool,
}

impl PendingFrame {
    pub fn new() -> (pending: PendingFrame)
        ensures
            pending == (PendingFrame {
                buffer: None,
                y_invert: false,
                ready: false,
                failed: false,
            }),
    {
        PendingFrame { buffer: None, y_invert: false, ready: false, failed: false }
    }

    pub open spec fn after(self, event: FrameEvent) -> PendingFrame {
        match event {
            FrameEvent::Buffer(info) => PendingFrame { buffer: Some(info), ..self },
            FrameEvent::Flags { y_invert } => PendingFrame { y_invert, ..self },
            FrameEvent::Ready => PendingFrame { ready: true, ..self },
            FrameEvent::Failed => PendingFrame { failed: true, ..self },
        }
    }

    /// Takes note of an event.
    pub fn apply(&mut self, event: FrameEvent)
        ensures
            *final(self) == old(self).after(event),
    {
        match event {
            FrameEvent::Buffer(info) => {
                self.buffer = Some(info);
            },
            FrameEvent::Flags { y_invert } => {
                self.y_invert = y_invert;
            },
            FrameEvent::Ready => {
                self.ready = true;
            },
            FrameEvent::Failed => {
                self.failed = true;
            },
        }
    }
}

/// A shared-memory pool for one capture, in the signed numbers of the
/// protocol.
#[derive(Debug, Clone, Copy, PartialEq, Eq, Structural)]
pub struct BufferPlan {
    pub size: i32,
    pub width: i32,
    pub height: i32,
    pub stride: i32,
}

/// The size of a buffer, where the protocol can express it.
pub open spec fn fits_protocol(info: BufferInfo) -> bool {
    info.stride * info.height <= i32::MAX && info.width <= i32::MAX && info.height <= i32::MAX
        && info.stride <= i32::MAX
}

/// The pool for a capture: one has to be announced, and to fit the protocol.
pub fn buffer_plan(pending: &PendingFrame) -> (plan: Result<BufferPlan, String>)
    ensures
        match plan {
            Ok(plan) => pending.buffer matches Some(info) && fits_protocol(info) && plan.size
                == info.stride * info.height && plan.width == info.width && plan.height
                == info.height && plan.stride == info.stride,
            Err(error) => match pending.buffer {
                None => error@ == "screencopy did not announce a buffer"@,
                Some(info) => !fits_protocol(info) && error@
                    == "out of range integral type conversion attempted"@,
            },
        },
{
    match &pending.buffer {
        None => Err("screencopy did not announce a buffer".to_owned()),
        Some(info) => {
            proof {
                let stride = info.stride;
                let height = info.height;
                assert(0 <= stride * height <= 0xffff_fffe_0000_0001) by (nonlinear_arith)
                    requires
                        0 <= stride <= 0xffff_ffff,
                        0 <= height <= 0xffff_ffff,
                ;
            }
            let size: u64 = info.stride as u64 * info.height as u64;
            if size > i32::MAX as u64 || info.width > i32::MAX as u32 || info.height
                > i32::MAX as u32 || info.stride > i32::MAX as u32 {
                return Err("out of range integral type conversion attempted".to_owned());
            }
            Ok(
                BufferPlan {
                    size: size as i32,
                    width: info.width as i32,
                    height: info.height as i32,
                    stride: info.stride as i32,
                },
            )
        },
    }
}

/// Seconds that a capture may take.
pub const CAPTURE_LIMIT_SECS: u64 = 5;

/// What is done about a capture under way.
#[derive(Debug)]
pub enum CaptureStep {
    /// The frame is in the buffer, upside down or not.
    Done { y_invert: bool },
    Fail(String),
    /// Wait for the compositor, at most this many milliseconds.
    Poll(u64),
}

pub enum CaptureStepModel {
    Done { y_invert: bool },
    Fail(Seq<char>),
    Poll(u64),
}

impl View for CaptureStep {
    type V = CaptureStepModel;

    open spec fn view(&self) -> CaptureStepModel {
        match *self {
            CaptureStep::Done { y_invert } => CaptureStepModel::Done { y_invert },
            CaptureStep::Fail(error) => CaptureStepModel::Fail(error@),
            CaptureStep::Poll(millis) => CaptureStepModel::Poll(millis),
        }
    }
}

pub open spec fn capture_timeout() -> Seq<char> {
    "screencopy timed out after 5 seconds; the sandbox compositor produced no frame (a visible sandbox window that is covered, minimized or on another workspace does not get frames from GNOME; use a headless sandbox)"@
}

/// A failure comes before everything else, a frame before the time limit.
pub open spec fn capture_step_of(pending: Option<PendingFrame>, remaining: Duration) -> CaptureStepModel {
    match pending {
        None => CaptureStepModel::Fail("screencopy state lost"@),
        Some(pending) => if pending.failed {
            CaptureStepModel::Fail("compositor reported screencopy failure"@)
        } else if pending.ready {
            CaptureStepModel::Done { y_invert: pending.y_invert }
        } else if remaining.nanos == 0 {
            CaptureStepModel::Fail(capture_timeout())
        } else {
            CaptureStepModel::Poll(remaining.millis())
        },
    }
}

/// The next step of a capture, with the time that it still has.
pub fn capture_step(pending: &Option<PendingFrame>, remaining: Duration) -> (step: CaptureStep)
    ensures
        step@ == capture_step_of(*pending, remaining),
{
    match pending {
        None => CaptureStep::Fail("screencopy state lost".to_owned()),
        Some(pending) => {
            if pending.failed {
                return CaptureStep::Fail("compositor reported screencopy failure".to_owned());
            }
            if pending.ready {
                return CaptureStep::Done { y_invert: pending.y_invert };
            }
            if remaining.is_zero() {
                return CaptureStep::Fail(
                    "screencopy timed out after 5 seconds; the sandbox compositor produced no frame (a visible sandbox window that is covered, minimized or on another workspace does not get frames from GNOME; use a headless sandbox)".to_owned(),
                );
            }
            CaptureStep::Poll(remaining.as_millis())
        },
    }
}

/// The size of an output, where a mode event gives one.
pub fn output_size(width: i32, height: i32) -> (size: Option<(u32, u32)>)
    ensures
        size == if width > 0 && height > 0 {
            Some((width as u32, height as u32))
        } else {
            None
        },
{
    if width > 0 && height > 0 {
        Some((width as u32, height as u32))
    } else {
        None
    }
}

/// An axis of a wheel.
#[derive(Debug, Clone, Copy, PartialEq, Eq, Structural)]
pub enum Axis {
    Vertical,
    Horizontal,
}

/// Pixels that one notch scrolls.
pub const SCROLL_PIXELS_PER_NOTCH: i64 = 15;

/// A wheel event: notches, and the pixels they stand for.
#[derive(Debug, Clone, Copy, PartialEq, Eq, Structural)]
pub struct AxisStep {
    pub axis: Axis,
    pub pixels: i64,
    pub notches: i32,
}

pub open spec fn axis_step(axis: Axis, notches: i32) -> Seq<AxisStep> {
    if notches == 0 {
        Seq::empty()
    } else {
        seq![AxisStep { axis, pixels: (notches * SCROLL_PIXELS_PER_NOTCH) as i64, notches }]
    }
}

/// The wheel events of a scroll: the vertical one first, none for an axis that
/// does not move.
pub fn scroll_steps(horizontal: i32, vertical: i32) -> (steps: Vec<AxisStep>)
    ensures
        steps@ == axis_step(Axis::Vertical, vertical) + axis_step(Axis::Horizontal, horizontal),
{
    let mut steps: Vec<AxisStep> = Vec::new();
    if vertical != 0 {
        steps.push(
            AxisStep {
                axis: Axis::Vertical,
                pixels: vertical as i64 * SCROLL_PIXELS_PER_NOTCH,
                notches: vertical,
            },
        );
    }
    if horizontal != 0 {
        steps.push(
            AxisStep {
                axis: Axis::Horizontal,
                pixels: horizontal as i64 * SCROLL_PIXELS_PER_NOTCH,
                notches: horizontal,
            },
        );
    }
    assert(steps@ =~= axis_step(Axis::Vertical, vertical) + axis_step(
        Axis::Horizontal,
        horizontal,
    ));
    steps
}

/// What a client of the compositor remembers: the size of the last captured
/// frame, within which the pointer moves, and the modifiers last announced.
#[derive(Debug, Clone, Copy)]
pub struct Session {
    pub extent: (u32, u32),
    pub last_modifiers: u32,
}

impl Session {
    /// A client of an output of this size, where that is known.
    pub fn new(output: Option<(u32, u32)>) -> (session: Session)
        ensures
            session.extent == match output {
                Some(size) => size,
                None => (1u32, 1u32),
            },
            session.last_modifiers == 0,
    {
        Session {
            extent: match output {
                Some(size) => size,
                None => (1, 1),
            },
            last_modifiers: 0,
        }
    }

    /// The pointer stays where it was: the pixel lies outside the output.
    pub open spec fn outside(self, x: u32, y: u32) -> Seq<char> {
        "sandbox pointer target ("@ + decimal(x as int) + ", "@ + decimal(y as int)
            + ") is outside the sandbox output "@ + decimal(self.extent.0 as int) + "x"@ + decimal(
            self.extent.1 as int,
        )
    }

    /// Whether the pointer may move to a pixel.
    pub fn motion(&self, x: u32, y: u32) -> (answer: Result<(), String>)
        ensures
            match answer {
                Ok(_) => x < self.extent.0 && y < self.extent.1,
                Err(error) => !(x < self.extent.0 && y < self.extent.1) && error@ == self.outside(
                    x,
                    y,
                ),
            },
    {
        if x >= self.extent.0 || y >= self.extent.1 {
            let mut error = "sandbox pointer target (".to_owned();
            push_decimal(&mut error, x as i64);
            error.append(", ");
            push_decimal(&mut error, y as i64);
            error.append(") is outside the sandbox output ");
            push_decimal(&mut error, self.extent.0 as i64);
            error.append("x");
            push_decimal(&mut error, self.extent.1 as i64);
            return Err(error);
        }
        Ok(())
    }

    /// The modifiers to announce before a key: those that hold now, where they
    /// differ from what was announced last.
    pub fn key(&mut self, modifiers: u32) -> (announce: Option<u32>)
        ensures
            announce == if modifiers == old(self).last_modifiers {
                None
            } else {
                Some(modifiers)
            },
            *final(self) == (Session { last_modifiers: modifiers, ..*old(self) }),
    {
        if modifiers == self.last_modifiers {
            None
        } else {
            self.last_modifiers = modifiers;
            Some(modifiers)
        }
    }

    /// A frame of this size was captured.
    pub fn captured(&mut self, width: u32, height: u32)
        ensures
            *final(self) == (Session { extent: (width, height), ..*old(self) }),
    {
        self.extent = (width, height);
    }
}

impl BufferModel {
    /// The four bytes of a pixel of the image as one number, the first byte
    /// being the lowest.
    pub open spec fn word(self, x: int, y: int) -> int {
        self.byte(x, y, 0) + 256 * self.byte(x, y, 1) + 65_536 * self.byte(x, y, 2) + 16_777_216
            * self.byte(x, y, 3)
    }
}

/// The colour of a pixel is that of its number: red, green and blue from the
/// high end to the low end in the `rgb` formats, the other way round in the
/// `bgr` formats; the highest byte is no colour.
pub proof fn lemma_colours_are_read_from_the_word(
    buffer: BufferModel,
    format: PixelFormat,
    x: int,
    y: int,
)
    requires
        0 <= x < buffer.width,
        0 <= y < buffer.height,
    ensures
        channels(format) is None <==> format is Other,
        channels(format) matches Some(order) ==> {
            let start = (y * buffer.width + x) * 3;
            let rgb = buffer.rgb(order);
            let (red, green, blue) = (rgb[start] as int, rgb[start + 1] as int, rgb[start + 2] as int);
            let colour = buffer.word(x, y) % 16_777_216;
            &&& 0 <= start && start + 3 <= rgb.len()
            &&& format is Xrgb8888 || format is Argb8888 ==> colour == 65_536 * red + 256 * green
                + blue
            &&& format is Xbgr8888 || format is Abgr8888 ==> colour == red + 256 * green + 65_536
                * blue
        },
{
    if let Some(order) = channels(format) {
        lemma_rgb_index(x, y, buffer.width, buffer.height);
        let start = (y * buffer.width + x) * 3;
        assert((start + 0) / 3 == y * buffer.width + x && (start + 0) % 3 == 0);
        assert((start + 1) / 3 == y * buffer.width + x && (start + 1) % 3 == 1);
        assert((start + 2) / 3 == y * buffer.width + x && (start + 2) % 3 == 2);
    }
}

/// A buffer that is inverted shows the image of the same buffer that is not,
/// upside down; one that is not inverted has its rows from the top, `stride`
/// bytes apart, and the pixels of a row four bytes apart.
pub proof fn lemma_inverted_buffers_are_upside_down(buffer: BufferModel, x: int, y: int, place: int)
    ensures
        ({
            let upright = BufferModel { y_invert: false, ..buffer };
            let inverted = BufferModel { y_invert: true, ..buffer };
            &&& upright.byte(x, y, place) == buffer.data[y * buffer.stride + x * 4 + place]
            &&& inverted.byte(x, y, place) == upright.byte(x, buffer.height - 1 - y, place)
            &&& upright.is_long_enough() == inverted.is_long_enough()
        }),
{
}

impl PendingFrame {
    /// A capture after several events.
    pub open spec fn after_all(self, events: Seq<FrameEvent>) -> PendingFrame
        decreases events.len(),
    {
        if events.len() == 0 {
            self
        } else {
            self.after_all(events.drop_last()).after(events.last())
        }
    }
}

/// A capture has failed once the compositor has said so and is ready once it
/// has said so, whatever else it says.
pub proof fn lemma_reports_are_kept(pending: PendingFrame, events: Seq<FrameEvent>)
    ensures
        pending.after_all(events).failed <==> pending.failed || exists|i: int|
            0 <= i < events.len() && #[trigger] events[i] is Failed,
        pending.after_all(events).ready <==> pending.ready || exists|i: int|
            0 <= i < events.len() && #[trigger] events[i] is Ready,
    decreases events.len(),
{
    if events.len() > 0 {
        let rest = events.drop_last();
        lemma_reports_are_kept(pending, rest);
        assert forall|i: int| 0 <= i < rest.len() implies #[trigger] rest[i] == events[i] by {}
        assert(events[events.len() - 1] == events.last());
        if pending.after_all(rest).failed && !pending.failed {
            let i = choose|i: int| 0 <= i < rest.len() && #[trigger] rest[i] is Failed;
            assert(events[i] is Failed);
        }
        if pending.after_all(rest).ready && !pending.ready {
            let i = choose|i: int| 0 <= i < rest.len() && #[trigger] rest[i] is Ready;
            assert(events[i] is Ready);
        }
        if exists|i: int| 0 <= i < events.len() && #[trigger] events[i] is Failed {
            let i = choose|i: int| 0 <= i < events.len() && #[trigger] events[i] is Failed;
            if i < rest.len() {
                assert(rest[i] is Failed);
            }
        }
        if exists|i: int| 0 <= i < events.len() && #[trigger] events[i] is Ready {
            let i = choose|i: int| 0 <= i < events.len() && #[trigger] events[i] is Ready;
            if i < rest.len() {
                assert(rest[i] is Ready);
            }
        }
    }
}

/// A frame is taken exactly where it is ready and nothing failed; what is
/// neither ready nor failed is waited for as long as there is time, and no
/// longer.
pub proof fn lemma_captures_end(pending: PendingFrame, remaining: Duration)
    ensures
        ({
            let step = capture_step_of(Some(pending), remaining);
            &&& step is Done <==> pending.ready && !pending.failed
            &&& step matches CaptureStepModel::Done { y_invert } ==> y_invert == pending.y_invert
            &&& step is Poll <==> !pending.ready && !pending.failed && remaining.nanos > 0
            &&& step matches CaptureStepModel::Poll(millis) ==> millis * 1_000_000
                <= remaining.nanos && (millis < u64::MAX ==> remaining.nanos < (millis + 1)
                * 1_000_000)
            &&& capture_step_of(None, remaining) is Fail
        }),
{
}

/// A notch scrolls fifteen pixels, on either axis and either way; an axis that
/// does not turn has no event.
pub proof fn lemma_notches_scroll_pixels(axis: Axis, notches: i32)
    ensures
        axis_step(axis, notches).len() == if notches == 0 {
            0int
        } else {
            1
        },
        notches != 0 ==> axis_step(axis, notches)[0].axis == axis && axis_step(axis, notches)[0].pixels
            == 15 * notches && axis_step(axis, notches)[0].notches == notches,
{
}

/// A buffer is long enough exactly where every byte of every pixel lies in it.
pub proof fn lemma_long_enough_holds_every_pixel(buffer: BufferModel)
    requires
        buffer.width > 0,
        buffer.height > 0,
        buffer.stride >= 0,
    ensures
        buffer.is_long_enough() <==> forall|x: int, y: int|
            0 <= x < buffer.width && 0 <= y < buffer.height ==> #[trigger] place_of(buffer, x, y) + 3
                < buffer.data.len(),
{
    if buffer.is_long_enough() {
        assert forall|x: int, y: int|
            0 <= x < buffer.width && 0 <= y < buffer.height implies #[trigger] place_of(
            buffer,
            x,
            y,
        ) + 3 < buffer.data.len() by {
            lemma_buffer_index(buffer, x, y);
        }
    } else {
        let y = buffer.line(buffer.height - 1);
        assert(buffer.line(y) == buffer.height - 1);
        assert(place_of(buffer, buffer.width - 1, y) + 3 >= buffer.data.len());
    }
}

/// Where the bytes of a pixel of the image start.
pub open spec fn place_of(buffer: BufferModel, x: int, y: int) -> int {
    buffer.line(y) * buffer.stride + x * 4
}

/// A capture is encoded exactly where its format is known, its buffer long
/// enough and its image not empty.
pub proof fn lemma_what_is_encoded(
    buffer: BufferModel,
    format: PixelFormat,
    width: u32,
    height: u32,
)
    ensures
        encoded(buffer, format, width, height) is Ok <==> !(format is Other)
            && buffer.is_long_enough() && width > 0 && height > 0,
{
}

/// A buffer fits the protocol exactly where its size in bytes and each of its
/// sides are below 2^31.
pub proof fn lemma_what_fits_the_protocol(info: BufferInfo)
    ensures
        fits_protocol(info) <==> info.stride * info.height < 0x8000_0000 && info.width < 0x8000_0000
            && info.height < 0x8000_0000 && info.stride < 0x8000_0000,
{
}

} // verus!
