//! Finding the sandbox window and the cursor in screenshots, and judging the
//! mapping between desktop pixels and the pointer.

pub mod blobs;
pub mod fit;
pub mod measure;
pub mod probe;

use vstd::prelude::*;
use vstd::string::*;

use crate::codec::{decode_frame, png_frame, PngError, PngErrorModel, PngFrame, PngFrameModel};
use crate::text::{decimal, push_decimal};

use blobs::{blobs_from_mask, Blob, Mask, MAX_CURSOR_SIZE, MIN_CURSOR_PIXELS};

verus! {

/// Background colour that the sandbox compositor paints, so that its window
/// can be found in a desktop screenshot.
pub const SANDBOX_BG: (u8, u8, u8) = (255, 0, 255);

/// How far a channel of a background pixel may be from the background colour.
pub const BG_TOLERANCE: u8 = 24;

/// Background pixels that a row or a column of the window has at least.
pub const MIN_LINE_PIXELS: u32 = 200;

pub const MIN_WINDOW_WIDTH: u32 = 320;

pub const MIN_WINDOW_HEIGHT: u32 = 180;

/// Decoded RGB image, row by row, three bytes for each pixel.
pub struct Image {
    pub width: u32,
    pub height: u32,
    pub rgb: Vec<u8>,
}

#[verifier::ext_equal]
pub struct ImageModel {
    pub width: int,
    pub height: int,
    pub rgb: Seq<u8>,
}

impl View for Image {
    type V = ImageModel;

    open spec fn view(&self) -> ImageModel {
        ImageModel { width: self.width as int, height: self.height as int, rgb: self.rgb@ }
    }
}

/// The first three bytes of each pixel of a frame.
pub open spec fn leading_bytes(data: Seq<u8>, pixel_bytes: int) -> Seq<u8> {
    Seq::new(
        (data.len() as int / pixel_bytes * 3) as nat,
        |i: int| data[i / 3 * pixel_bytes + i % 3],
    )
}

/// The image of a decoded frame, which has three bytes or more for each pixel.
pub open spec fn image_of_frame(frame: PngFrameModel) -> Result<ImageModel, Seq<char>> {
    if frame.pixel_bytes() < 3 {
        Err("PNG is not an RGB image"@)
    } else {
        Ok(
            ImageModel {
                width: frame.width as int,
                height: frame.height as int,
                rgb: leading_bytes(frame.data, frame.pixel_bytes()),
            },
        )
    }
}

/// The image of what a decoder gave.
pub open spec fn image_of(decoded: Result<PngFrameModel, PngErrorModel>) -> Result<
    ImageModel,
    Seq<char>,
> {
    match decoded {
        Ok(frame) => image_of_frame(frame),
        Err(PngErrorModel::Header(text)) => Err("decode PNG: "@ + text),
        Err(PngErrorModel::TooLarge) => Err("PNG too large"@),
        Err(PngErrorModel::Frame(text)) => Err("read PNG frame: "@ + text),
    }
}

impl Image {
    /// The image in a PNG of at least three bytes for each pixel.
    pub fn from_png(bytes: &[u8]) -> (image: Result<Image, String>)
        ensures
            match image {
                Ok(image) => image_of(png_frame(bytes@)) == Ok::<ImageModel, Seq<char>>(image@)
                    && image@.is_complete(),
                Err(error) => image_of(png_frame(bytes@)) == Err::<ImageModel, Seq<char>>(error@),
            },
    {
        match decode_frame(bytes) {
            Ok(frame) => {
                let ghost model = frame@;
                proof {
                    if model.pixel_bytes() >= 3 {
                        lemma_frame_is_complete(model);
                    }
                }
                Image::from_frame(frame)
            },
            Err(PngError::Header(text)) => {
                let mut error = "decode PNG: ".to_owned();
                error.append(text.as_str());
                Err(error)
            },
            Err(PngError::TooLarge) => Err("PNG too large".to_owned()),
            Err(PngError::Frame(text)) => {
                let mut error = "read PNG frame: ".to_owned();
                error.append(text.as_str());
                Err(error)
            },
        }
    }

    /// The image of a decoded frame: the first three bytes of each pixel.
    pub fn from_frame(frame: PngFrame) -> (image: Result<Image, String>)
        ensures
            match image {
                Ok(image) => image_of_frame(frame@) == Ok::<ImageModel, Seq<char>>(image@),
                Err(error) => image_of_frame(frame@) == Err::<ImageModel, Seq<char>>(error@),
            },
    {
        assert(frame.samples * (frame.bit_depth / 8) <= 255 * 31) by (nonlinear_arith)
            requires
                0 <= frame.samples <= 255,
                0 <= frame.bit_depth / 8 <= 31,
        ;
        let pixel_bytes: usize = frame.samples as usize * (frame.bit_depth / 8) as usize;
        if pixel_bytes < 3 {
            return Err("PNG is not an RGB image".to_owned());
        }
        let ghost want = leading_bytes(frame.data@, pixel_bytes as int);
        let len: usize = frame.data.len();
        let count: usize = len / pixel_bytes;
        let mut rgb: Vec<u8> = Vec::new();
        let mut pixel: usize = 0;
        while pixel < count
            invariant
                pixel <= count,
                pixel_bytes >= 3,
                len == frame.data@.len(),
                count == len as int / pixel_bytes as int,
                want == leading_bytes(frame.data@, pixel_bytes as int),
                rgb@.len() == pixel * 3,
                forall|i: int| 0 <= i < rgb@.len() ==> #[trigger] rgb@[i] == want[i],
            decreases count - pixel,
        {
            assert(pixel * pixel_bytes + pixel_bytes <= frame.data@.len()) by (nonlinear_arith)
                requires
                    0 <= pixel < count,
                    pixel_bytes >= 3,
                    count == frame.data@.len() as int / pixel_bytes as int,
            ;
            assert(0 <= pixel * pixel_bytes) by (nonlinear_arith);
            let at: usize = pixel * pixel_bytes;
            rgb.push(frame.data[at]);
            rgb.push(frame.data[at + 1]);
            rgb.push(frame.data[at + 2]);
            pixel = pixel + 1;
        }
        assert(rgb@ =~= want);
        Ok(Image { width: frame.width, height: frame.height, rgb })
    }
}

proof fn lemma_frame_is_complete(frame: PngFrameModel)
    requires
        frame.is_packed(),
        frame.pixel_bytes() >= 3,
    ensures
        leading_bytes(frame.data, frame.pixel_bytes()).len() == frame.width * frame.height * 3,
{
    let pixels = frame.width * frame.height;
    let size = frame.pixel_bytes();
    assert(frame.bit_depth >= 8) by {
        if frame.bit_depth < 8 {
            assert(frame.bit_depth / 8 == 0);
        }
    }
    assert(pixels * size / size == pixels) by (nonlinear_arith)
        requires
            size >= 3,
    ;
    assert(pixels >= 0) by (nonlinear_arith)
        requires
            pixels == frame.width * frame.height,
    ;
}

/// A channel value is as close to another as the tolerance allows.
pub open spec fn is_near(a: u8, b: u8) -> bool {
    -BG_TOLERANCE < a - b < BG_TOLERANCE
}

pub open spec fn is_background(pixel: (u8, u8, u8)) -> bool {
    is_near(pixel.0, SANDBOX_BG.0) && is_near(pixel.1, SANDBOX_BG.1) && is_near(
        pixel.2,
        SANDBOX_BG.2,
    )
}

impl ImageModel {
    /// The image has three bytes for each pixel.
    pub open spec fn is_complete(self) -> bool {
        0 <= self.width && 0 <= self.height && self.rgb.len() >= self.width * self.height * 3
    }

    /// The pixel at index `i`, counted row by row.
    pub open spec fn pixel_at(self, i: int) -> (u8, u8, u8) {
        (self.rgb[i * 3], self.rgb[i * 3 + 1], self.rgb[i * 3 + 2])
    }

    pub open spec fn pixel(self, x: int, y: int) -> (u8, u8, u8) {
        self.pixel_at(y * self.width + x)
    }

    pub open spec fn is_bg(self, x: int, y: int) -> bool {
        is_background(self.pixel(x, y))
    }

    /// Background pixels among the first `n` of a row.
    pub open spec fn in_row(self, y: int, n: nat) -> nat
        decreases n,
    {
        if n == 0 {
            0
        } else {
            self.in_row(y, (n - 1) as nat) + if self.is_bg(n - 1, y) {
                1nat
            } else {
                0
            }
        }
    }

    /// Background pixels among the first `n` of a column.
    pub open spec fn in_column(self, x: int, n: nat) -> nat
        decreases n,
    {
        if n == 0 {
            0
        } else {
            self.in_column(x, (n - 1) as nat) + if self.is_bg(x, n - 1) {
                1nat
            } else {
                0
            }
        }
    }

    /// Background pixels of each row.
    pub open spec fn rows(self) -> Seq<nat> {
        Seq::new(self.height as nat, |y: int| self.in_row(y, self.width as nat))
    }

    /// Background pixels of each column.
    pub open spec fn columns(self) -> Seq<nat> {
        Seq::new(self.width as nat, |x: int| self.in_column(x, self.height as nat))
    }
}

#[derive(Debug, Clone, Copy, PartialEq, Eq, Structural)]
pub struct Rect {
    pub x: u32,
    pub y: u32,
    pub width: u32,
    pub height: u32,
}

impl Rect {
    pub open spec fn text(self) -> Seq<char> {
        "Rect { x: "@ + decimal(self.x as int) + ", y: "@ + decimal(self.y as int) + ", width: "@
            + decimal(self.width as int) + ", height: "@ + decimal(self.height as int) + " }"@
    }
}

/// The lines from the first to the last that count enough background pixels.
pub open spec fn is_span(counts: Seq<nat>, first: int, last: int) -> bool {
    &&& 0 <= first <= last < counts.len()
    &&& counts[first] >= MIN_LINE_PIXELS
    &&& counts[last] >= MIN_LINE_PIXELS
    &&& forall|i: int| 0 <= i < first ==> #[trigger] counts[i] < MIN_LINE_PIXELS
    &&& forall|i: int| last < i < counts.len() ==> #[trigger] counts[i] < MIN_LINE_PIXELS
}

/// No line counts enough background pixels.
pub open spec fn has_no_span(counts: Seq<nat>) -> bool {
    forall|i: int| 0 <= i < counts.len() ==> #[trigger] counts[i] < MIN_LINE_PIXELS
}

pub open spec fn window_not_found() -> Seq<char> {
    "sandbox window not found in the desktop screenshot"@
}

pub open spec fn window_too_small(rect: Rect) -> Seq<char> {
    "sandbox window candidate "@ + rect.text()
        + " is too small; is the sandbox window visible and unobstructed?"@
}

impl ImageModel {
    /// The rectangle spans exactly the columns and the rows that are mostly
    /// background.
    pub open spec fn is_window(self, rect: Rect) -> bool {
        rect.width > 0 && rect.height > 0 && is_span(
            self.columns(),
            rect.x as int,
            rect.x + rect.width - 1,
        ) && is_span(self.rows(), rect.y as int, rect.y + rect.height - 1)
    }

    pub open spec fn has_no_window(self) -> bool {
        has_no_span(self.columns()) || has_no_span(self.rows())
    }

    /// The window in a screenshot, where there is one that is large enough.
    pub open spec fn window(self) -> Result<Rect, Seq<char>> {
        let rect = choose|rect: Rect| self.is_window(rect);
        if self.has_no_window() {
            Err(window_not_found())
        } else if rect.width < MIN_WINDOW_WIDTH || rect.height < MIN_WINDOW_HEIGHT {
            Err(window_too_small(rect))
        } else {
            Ok(rect)
        }
    }
}

proof fn lemma_pixel_index(x: int, y: int, width: int, height: int, len: int)
    requires
        0 <= x < width,
        0 <= y < height,
        len >= width * height * 3,
    ensures
        0 <= y * width,
        0 <= (y * width + x) * 3,
        (y * width + x) * 3 + 2 < len,
        y * width + x < width * height,
{
    assert(y * width + width <= width * height) by (nonlinear_arith)
        requires
            0 <= y < height,
            0 < width,
    ;
    assert(0 <= y * width) by (nonlinear_arith)
        requires
            0 <= y,
            0 < width,
    ;
}

impl Image {
    pub fn pixel(&self, x: u32, y: u32) -> (pixel: (u8, u8, u8))
        requires
            self@.is_complete(),
            x < self.width,
            y < self.height,
        ensures
            pixel == self@.pixel(x as int, y as int),
    {
        let len: usize = self.rgb.len();
        proof {
            lemma_pixel_index(
                x as int,
                y as int,
                self.width as int,
                self.height as int,
                len as int,
            );
        }
        let i: usize = (y as usize * self.width as usize + x as usize) * 3;
        (self.rgb[i], self.rgb[i + 1], self.rgb[i + 2])
    }
}

fn near(a: u8, b: u8) -> (answer: bool)
    ensures
        answer == is_near(a, b),
{
    if a < b {
        b - a < BG_TOLERANCE
    } else {
        a - b < BG_TOLERANCE
    }
}

pub fn is_bg(pixel: (u8, u8, u8)) -> (answer: bool)
    ensures
        answer == is_background(pixel),
{
    near(pixel.0, SANDBOX_BG.0) && near(pixel.1, SANDBOX_BG.1) && near(pixel.2, SANDBOX_BG.2)
}

pub open spec fn as_counts(counts: Seq<u32>) -> Seq<nat> {
    counts.map_values(|count: u32| count as nat)
}

/// The first and the last line that count enough background pixels.
fn span(counts: &[u32]) -> (found: Option<(u32, u32)>)
    requires
        counts@.len() <= u32::MAX,
    ensures
        match found {
            Some((first, last)) => is_span(as_counts(counts@), first as int, last as int),
            None => has_no_span(as_counts(counts@)),
        },
{
    let ghost all = as_counts(counts@);
    let mut first: usize = 0;
    while first < counts.len() && counts[first] < MIN_LINE_PIXELS
        invariant
            all == as_counts(counts@),
            first <= counts@.len(),
            forall|i: int| 0 <= i < first ==> #[trigger] all[i] < MIN_LINE_PIXELS,
        decreases counts@.len() - first,
    {
        assert(all[first as int] == counts@[first as int]);
        first = first + 1;
    }
    if first == counts.len() {
        return None;
    }
    assert(all[first as int] == counts@[first as int]);
    let mut last: usize = counts.len() - 1;
    while counts[last] < MIN_LINE_PIXELS
        invariant
            all == as_counts(counts@),
            first <= last < counts@.len(),
            all[first as int] >= MIN_LINE_PIXELS,
            forall|i: int| last < i < counts@.len() ==> #[trigger] all[i] < MIN_LINE_PIXELS,
        decreases last,
    {
        assert(all[last as int] == counts@[last as int]);
        last = last - 1;
    }
    assert(all[last as int] == counts@[last as int]);
    Some((first as u32, last as u32))
}

/// Counts the background pixels of each row and each column.
fn count_lines(image: &Image) -> (counts: (Vec<u32>, Vec<u32>))
    requires
        image@.is_complete(),
    ensures
        as_counts(counts.0@) == image@.rows(),
        as_counts(counts.1@) == image@.columns(),
{
    let ghost model = image@;
    let ghost width = image.width as nat;
    let ghost height = image.height as nat;
    let mut rows: Vec<u32> = Vec::new();
    let mut columns: Vec<u32> = Vec::new();
    rows.resize(image.height as usize, 0);
    columns.resize(image.width as usize, 0);
    let mut y: u32 = 0;
    while y < image.height
        invariant
            model == image@,
            model.is_complete(),
            width == image.width,
            height == image.height,
            y <= image.height,
            rows@.len() == height,
            columns@.len() == width,
            forall|i: int| 0 <= i < y ==> #[trigger] rows@[i] == model.in_row(i, width),
            forall|i: int| y <= i < height ==> #[trigger] rows@[i] == 0,
            forall|i: int| 0 <= i < width ==> #[trigger] columns@[i] == model.in_column(i, y as nat),
        decreases image.height - y,
    {
        let mut x: u32 = 0;
        while x < image.width
            invariant
                model == image@,
                model.is_complete(),
                width == image.width,
                height == image.height,
                x <= image.width,
                y < image.height,
                rows@.len() == height,
                columns@.len() == width,
                forall|i: int| 0 <= i < y ==> #[trigger] rows@[i] == model.in_row(i, width),
                rows@[y as int] == model.in_row(y as int, x as nat),
                rows@[y as int] <= x,
                forall|i: int| y < i < height ==> #[trigger] rows@[i] == 0,
                forall|i: int|
                    0 <= i < x ==> #[trigger] columns@[i] == model.in_column(i, (y + 1) as nat),
                forall|i: int|
                    x <= i < width ==> #[trigger] columns@[i] == model.in_column(i, y as nat),
            decreases image.width - x,
        {
            proof {
                lemma_in_column_is_bounded(model, x as int, y as nat);
            }
            if is_bg(image.pixel(x, y)) {
                let in_row: u32 = rows[y as usize];
                let in_column: u32 = columns[x as usize];
                rows.set(y as usize, in_row + 1);
                columns.set(x as usize, in_column + 1);
            }
            x = x + 1;
        }
        y = y + 1;
    }
    assert(as_counts(rows@) =~= model.rows());
    assert(as_counts(columns@) =~= model.columns());
    (rows, columns)
}

proof fn lemma_in_column_is_bounded(image: ImageModel, x: int, n: nat)
    ensures
        image.in_column(x, n) <= n,
    decreases n,
{
    if n > 0 {
        lemma_in_column_is_bounded(image, x, (n - 1) as nat);
    }
}

fn rect_text(rect: Rect) -> (text: String)
    ensures
        text@ == rect.text(),
{
    let mut text = "Rect { x: ".to_owned();
    push_decimal(&mut text, rect.x as i64);
    text.append(", y: ");
    push_decimal(&mut text, rect.y as i64);
    text.append(", width: ");
    push_decimal(&mut text, rect.width as i64);
    text.append(", height: ");
    push_decimal(&mut text, rect.height as i64);
    text.append(" }");
    text
}

/// Bounding box of the sandbox background colour in a desktop screenshot. Rows
/// and columns must be mostly background, so that stray pixels do not count.
pub fn find_sandbox_rect(image: &Image) -> (found: Result<Rect, String>)
    requires
        image@.is_complete(),
    ensures
        match found {
            Ok(rect) => image@.window() == Ok::<Rect, Seq<char>>(rect) && image@.is_window(rect),
            Err(error) => image@.window() == Err::<Rect, Seq<char>>(error@),
        },
        !image@.has_no_window() ==> exists|rect: Rect| image@.is_window(rect),
{
    let (rows, columns) = count_lines(image);
    assert(as_counts(rows@).len() == rows@.len());
    assert(as_counts(columns@).len() == columns@.len());
    let horizontal = span(&columns);
    let vertical = span(&rows);
    match (horizontal, vertical) {
        (Some((x_first, x_last)), Some((y_first, y_last))) => {
            let rect = Rect {
                x: x_first,
                y: y_first,
                width: x_last - x_first + 1,
                height: y_last - y_first + 1,
            };
            proof {
                assert(image@.is_window(rect));
                lemma_window_is_unique(image@, rect, choose|rect: Rect| image@.is_window(rect));
            }
            if rect.width < MIN_WINDOW_WIDTH || rect.height < MIN_WINDOW_HEIGHT {
                let mut error = "sandbox window candidate ".to_owned();
                error.append(rect_text(rect).as_str());
                error.append(" is too small; is the sandbox window visible and unobstructed?");
                assert(error@ =~= window_too_small(rect));
                return Err(error);
            }
            Ok(rect)
        },
        _ => Err("sandbox window not found in the desktop screenshot".to_owned()),
    }
}

/// A screenshot has one window at most.
pub proof fn lemma_window_is_unique(image: ImageModel, a: Rect, b: Rect)
    requires
        image.is_window(a),
        image.is_window(b),
    ensures
        a == b,
        !image.has_no_window(),
{
    assert(image.columns()[a.x as int] >= MIN_LINE_PIXELS);
    assert(image.columns()[b.x as int] >= MIN_LINE_PIXELS);
    assert(image.columns()[a.x + a.width - 1] >= MIN_LINE_PIXELS);
    assert(image.columns()[b.x + b.width - 1] >= MIN_LINE_PIXELS);
    assert(image.rows()[a.y as int] >= MIN_LINE_PIXELS);
    assert(image.rows()[b.y as int] >= MIN_LINE_PIXELS);
    assert(image.rows()[a.y + a.height - 1] >= MIN_LINE_PIXELS);
    assert(image.rows()[b.y + b.height - 1] >= MIN_LINE_PIXELS);
}

impl ImageModel {
    /// The rectangle is painted with the background colour.
    pub open spec fn is_painted(self, rect: Rect) -> bool {
        rect.x + rect.width <= self.width && rect.y + rect.height <= self.height && forall|
            x: int,
            y: int,
        |
            rect.x <= x < rect.x + rect.width && rect.y <= y < rect.y + rect.height
                ==> #[trigger] self.is_bg(x, y)
    }

    /// Beside the rectangle, no row and no column has more than stray
    /// background pixels.
    pub open spec fn has_only_strays_beside(self, rect: Rect) -> bool {
        &&& forall|x: int|
            0 <= x < self.width && !(rect.x <= x < rect.x + rect.width) ==> #[trigger] self.in_column(
                x,
                self.height as nat,
            ) < MIN_LINE_PIXELS
        &&& forall|y: int|
            0 <= y < self.height && !(rect.y <= y < rect.y + rect.height) ==> #[trigger] self.in_row(
                y,
                self.width as nat,
            ) < MIN_LINE_PIXELS
    }
}

proof fn lemma_painted_row(image: ImageModel, rect: Rect, y: int, n: nat)
    requires
        image.is_painted(rect),
        rect.y <= y < rect.y + rect.height,
    ensures
        n >= rect.x ==> image.in_row(y, n) >= if n <= rect.x + rect.width {
            n - rect.x
        } else {
            rect.width as int
        },
    decreases n,
{
    if n > 0 {
        lemma_painted_row(image, rect, y, (n - 1) as nat);
        if rect.x <= n - 1 < rect.x + rect.width {
            assert(image.is_bg(n - 1, y));
        }
    }
}

proof fn lemma_painted_column(image: ImageModel, rect: Rect, x: int, n: nat)
    requires
        image.is_painted(rect),
        rect.x <= x < rect.x + rect.width,
    ensures
        n >= rect.y ==> image.in_column(x, n) >= if n <= rect.y + rect.height {
            n - rect.y
        } else {
            rect.height as int
        },
    decreases n,
{
    if n > 0 {
        lemma_painted_column(image, rect, x, (n - 1) as nat);
        if rect.y <= n - 1 < rect.y + rect.height {
            assert(image.is_bg(x, n - 1));
        }
    }
}

/// A window of the background colour is found where it is, whatever stray
/// background pixels the rest of the screenshot holds.
pub proof fn lemma_painted_window_is_found(image: ImageModel, rect: Rect)
    requires
        image.is_complete(),
        image.is_painted(rect),
        image.has_only_strays_beside(rect),
        rect.width >= MIN_LINE_PIXELS,
        rect.height >= MIN_LINE_PIXELS,
    ensures
        image.is_window(rect),
        rect.width >= MIN_WINDOW_WIDTH ==> image.window() == Ok::<Rect, Seq<char>>(rect),
{
    let columns = image.columns();
    let rows = image.rows();
    assert forall|x: int| rect.x <= x < rect.x + rect.width implies #[trigger] columns[x]
        >= MIN_LINE_PIXELS by {
        lemma_painted_column(image, rect, x, image.height as nat);
    }
    assert forall|y: int| rect.y <= y < rect.y + rect.height implies #[trigger] rows[y]
        >= MIN_LINE_PIXELS by {
        lemma_painted_row(image, rect, y, image.width as nat);
    }
    assert forall|x: int|
        0 <= x < columns.len() && !(rect.x <= x < rect.x + rect.width) implies #[trigger] columns[x]
        < MIN_LINE_PIXELS by {
        assert(image.in_column(x, image.height as nat) < MIN_LINE_PIXELS);
    }
    assert forall|y: int|
        0 <= y < rows.len() && !(rect.y <= y < rect.y + rect.height) implies #[trigger] rows[y]
        < MIN_LINE_PIXELS by {
        assert(image.in_row(y, image.width as nat) < MIN_LINE_PIXELS);
    }
    assert(image.is_window(rect));
    lemma_window_is_unique(image, rect, choose|rect: Rect| image.is_window(rect));
}

/// The last of the blobs with the most pixels.
pub open spec fn largest(blobs: Seq<Blob>) -> Option<Blob>
    decreases blobs.len(),
{
    if blobs.len() == 0 {
        None
    } else {
        match largest(blobs.drop_last()) {
            Some(best) => if best.pixels > blobs.last().pixels {
                Some(best)
            } else {
                Some(blobs.last())
            },
            None => Some(blobs.last()),
        }
    }
}

/// The largest of several blobs is one of them, and none has more pixels.
pub proof fn lemma_largest_has_most_pixels(blobs: Seq<Blob>)
    ensures
        largest(blobs) is None <==> blobs.len() == 0,
        largest(blobs) matches Some(best) ==> blobs.contains(best) && forall|i: int|
            0 <= i < blobs.len() ==> (#[trigger] blobs[i]).pixels <= best.pixels,
    decreases blobs.len(),
{
    if blobs.len() > 0 {
        let rest = blobs.drop_last();
        lemma_largest_has_most_pixels(rest);
        assert forall|i: int| 0 <= i < blobs.len() implies (#[trigger] blobs[i]).pixels
            <= largest(blobs)->0.pixels by {
            if i < rest.len() {
                assert(rest[i].pixels <= largest(rest)->0.pixels);
            }
        }
        if largest(blobs) == Some(blobs.last()) {
            assert(blobs[blobs.len() - 1] == blobs.last());
        } else {
            let k = choose|k: int| 0 <= k < rest.len() && rest[k] == largest(rest)->0;
            assert(blobs[k] == largest(blobs)->0);
        }
    }
}

impl ImageModel {
    /// The pixels that are not background.
    pub open spec fn foreground(self) -> Mask {
        Mask {
            cells: Seq::new(
                (self.width * self.height) as nat,
                |i: int| !is_background(self.pixel_at(i)),
            ),
            width: self.width,
        }
    }

    /// The largest area of the size of a cursor that is not background.
    pub open spec fn cursor(self) -> Option<Blob> {
        largest(self.foreground().blobs((self.width * self.height) as nat))
    }
}

/// The largest area that is not background in a sandbox screenshot: the cursor
/// drawn by the sandbox compositor.
pub fn find_cursor_on_bg(image: &Image) -> (cursor: Option<Blob>)
    requires
        image@.is_complete(),
    ensures
        cursor == image@.cursor(),
        image@.foreground().has_outlines(image.width * image.height),
{
    let ghost model = image@;
    let len: usize = image.rgb.len();
    let mut mask: Vec<bool> = Vec::new();
    let mut y: u32 = 0;
    while y < image.height
        invariant
            model == image@,
            model.is_complete(),
            len == image.rgb@.len(),
            y <= image.height,
            mask@.len() == y * image.width,
            forall|i: int| 0 <= i < mask@.len() ==> #[trigger] mask@[i] == !is_background(model.pixel_at(i)),
        decreases image.height - y,
    {
        let mut x: u32 = 0;
        while x < image.width
            invariant
                model == image@,
                model.is_complete(),
                len == image.rgb@.len(),
                x <= image.width,
                y < image.height,
                mask@.len() == y * image.width + x,
                forall|i: int|
                    0 <= i < mask@.len() ==> #[trigger] mask@[i] == !is_background(model.pixel_at(i)),
            decreases image.width - x,
        {
            mask.push(!is_bg(image.pixel(x, y)));
            x = x + 1;
        }
        proof {
            assert(y * image.width + image.width == (y + 1) * image.width) by (nonlinear_arith);
        }
        y = y + 1;
    }
    proof {
        assert(image.height * image.width == image.width * image.height) by (nonlinear_arith);
        assert(mask@ =~= model.foreground().cells);
        assert((Mask { cells: mask@, width: image.width as int }) =~= model.foreground());
    }
    let blobs = blobs_from_mask(&mask, image.width, image.height);
    let mut best: Option<Blob> = None;
    let mut i: usize = 0;
    assert(blobs@.take(0) =~= Seq::<Blob>::empty());
    while i < blobs.len()
        invariant
            i <= blobs@.len(),
            best == largest(blobs@.take(i as int)),
        decreases blobs@.len() - i,
    {
        assert(blobs@.take(i + 1).drop_last() =~= blobs@.take(i as int));
        let blob = blobs[i];
        best = match best {
            Some(earlier) => if earlier.pixels > blob.pixels {
                Some(earlier)
            } else {
                Some(blob)
            },
            None => Some(blob),
        };
        i = i + 1;
    }
    assert(blobs@.take(i as int) =~= blobs@);
    best
}

/// A solid rectangle of the size of a cursor, alone on the background, is
/// found where it is: its top-left corner is the hotspot.
pub proof fn lemma_solid_cursor_is_found(
    image: ImageModel,
    left: int,
    top: int,
    wide: int,
    high: int,
)
    requires
        image.foreground().is_rectangle(image.height, left, top, wide, high),
        wide * high >= MIN_CURSOR_PIXELS,
        wide <= MAX_CURSOR_SIZE,
        high <= MAX_CURSOR_SIZE,
    ensures
        image.cursor() matches Some(cursor) && cursor.min_x == left && cursor.min_y == top
            && cursor.pixels == wide * high,
{
    image.foreground().lemma_solid_rectangle_is_one_blob(image.height, left, top, wide, high);
    let blobs = image.foreground().blobs((image.width * image.height) as nat);
    assert(largest(blobs.drop_last()) is None);
    assert(wide * high <= 96 * 96) by (nonlinear_arith)
        requires
            0 < wide <= 96,
            0 < high <= 96,
    ;
}

/// A pixel counts as background where each channel is less than 24 away from
/// that of the background colour, which is full red and blue without green.
pub proof fn lemma_background_pixels(pixel: (u8, u8, u8))
    ensures
        is_background(pixel) <==> pixel.0 > 255 - 24 && pixel.1 < 24 && pixel.2 > 255 - 24,
{
}

/// The image of a frame has the size of the frame and, for each pixel, the
/// first three bytes that the frame has of it.
pub proof fn lemma_image_has_the_pixels_of_its_frame(frame: PngFrameModel, x: int, y: int)
    requires
        frame.is_packed(),
        0 <= x < frame.width,
        0 <= y < frame.height,
    ensures
        image_of_frame(frame) is Ok <==> frame.pixel_bytes() >= 3,
        image_of_frame(frame) matches Ok(image) ==> {
            let at = (y * frame.width + x) * frame.pixel_bytes();
            &&& image.width == frame.width && image.height == frame.height
            &&& image.is_complete()
            &&& 0 <= at && at + 2 < frame.data.len()
            &&& image.pixel(x, y) == (frame.data[at], frame.data[at + 1], frame.data[at + 2])
        },
{
    if let Ok(image) = image_of_frame(frame) {
        lemma_frame_is_complete(frame);
        let size = frame.pixel_bytes();
        let (wide, high) = (frame.width as int, frame.height as int);
        let i = y * wide + x;
        lemma_pixel_index(x, y, wide, high, wide * high * 3);
        assert(frame.bit_depth >= 8) by {
            if frame.bit_depth < 8 {
                assert(frame.bit_depth / 8 == 0);
            }
        }
        assert(0 <= i * size && i * size + size <= wide * high * size) by (nonlinear_arith)
            requires
                0 <= i < wide * high,
                size >= 3,
        ;
        assert((i * 3) / 3 == i && (i * 3) % 3 == 0);
        assert((i * 3 + 1) / 3 == i && (i * 3 + 1) % 3 == 1);
        assert((i * 3 + 2) / 3 == i && (i * 3 + 2) % 3 == 2);
    }
}

/// A window is found only where it is at least 320 pixels wide and 180 high.
/// The lines that count for it are those from the first to the last that have
/// 200 pixels of background or more.
pub proof fn lemma_window_limits(image: ImageModel, counts: Seq<nat>, first: int, last: int, i: int)
    ensures
        image.window() matches Ok(rect) ==> rect.width >= 320 && rect.height >= 180,
        is_span(counts, first, last) ==> counts[first] >= 200 && counts[last] >= 200,
        is_span(counts, first, last) && 0 <= i < counts.len() && counts[i] >= 200 ==> first <= i
            <= last,
        has_no_span(counts) && 0 <= i < counts.len() ==> counts[i] < 200,
{
}

} // verus!
