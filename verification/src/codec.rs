//! PNG and base64, as the outside crates compute them.

use base64::Engine;
use vstd::prelude::*;

verus! {

/// A decoded frame as it stands in a PNG: `samples` values of `bit_depth`
/// bits for each pixel, row by row.
pub struct PngFrame {
    pub width: u32,
    pub height: u32,
    pub samples: u8,
    pub bit_depth: u8,
    pub data: Vec<u8>,
}

#[verifier::ext_equal]
pub struct PngFrameModel {
    pub width: u32,
    pub height: u32,
    pub samples: u8,
    pub bit_depth: u8,
    pub data: Seq<u8>,
}

impl View for PngFrame {
    type V = PngFrameModel;

    open spec fn view(&self) -> PngFrameModel {
        PngFrameModel {
            width: self.width,
            height: self.height,
            samples: self.samples,
            bit_depth: self.bit_depth,
            data: self.data@,
        }
    }
}

/// What stopped a decoder: the chunks before the image data, a frame too
/// large for memory, or the image data.
#[derive(Debug)]
pub enum PngError {
    Header(String),
    TooLarge,
    Frame(String),
}

pub enum PngErrorModel {
    Header(Seq<char>),
    TooLarge,
    Frame(Seq<char>),
}

impl View for PngError {
    type V = PngErrorModel;

    open spec fn view(&self) -> PngErrorModel {
        match *self {
            PngError::Header(text) => PngErrorModel::Header(text@),
            PngError::TooLarge => PngErrorModel::TooLarge,
            PngError::Frame(text) => PngErrorModel::Frame(text@),
        }
    }
}

impl PngFrameModel {
    /// Whole bytes of each pixel; none where the samples are smaller.
    pub open spec fn pixel_bytes(self) -> int {
        self.samples * (self.bit_depth / 8)
    }

    /// A frame has pixels, of one to four samples, and where each sample is
    /// one or two bytes its data holds those of each pixel and no more.
    pub open spec fn is_packed(self) -> bool {
        &&& self.width > 0
        &&& self.height > 0
        &&& 1 <= self.samples <= 4
        &&& self.bit_depth < 8 || self.bit_depth == 8 || self.bit_depth == 16
        &&& self.bit_depth >= 8 ==> self.data.len() == self.width * self.height
            * self.pixel_bytes()
    }
}

/// The first frame of a PNG, or why there is none.
pub uninterp spec fn png_frame(bytes: Seq<u8>) -> Result<PngFrameModel, PngErrorModel>;

/// `png::Decoder::new(..).read_info()` and `Reader::next_frame` into a buffer
/// of `Reader::output_buffer_size`, with the decoder's defaults. What the
/// frame holds is left to the name, except for its shape: an IHDR without
/// pixels is refused, samples and bit depths are those of the PNG colour
/// types, and a frame fills `OutputInfo::buffer_size` bytes.
#[verifier::external_body]
pub(crate) fn decode_frame(bytes: &[u8]) -> (frame: Result<PngFrame, PngError>)
    ensures
        match frame {
            Ok(frame) => png_frame(bytes@) == Ok::<PngFrameModel, PngErrorModel>(frame@)
                && frame@.is_packed(),
            Err(error) => png_frame(bytes@) == Err::<PngFrameModel, PngErrorModel>(error@),
        },
{
    let decoder = png::Decoder::new(std::io::Cursor::new(bytes));
    let mut reader = decoder.read_info().map_err(|error| PngError::Header(error.to_string()))?;
    let size = reader.output_buffer_size().ok_or(PngError::TooLarge)?;
    let mut data = vec![0u8; size];
    let info = reader.next_frame(&mut data).map_err(|error| PngError::Frame(error.to_string()))?;
    data.truncate(info.buffer_size());
    Ok(
        PngFrame {
            width: info.width,
            height: info.height,
            samples: info.color_type.samples() as u8,
            bit_depth: info.bit_depth as u8,
            data,
        },
    )
}

/// Width and height in the header of a PNG, or why they cannot be read.
pub uninterp spec fn png_size(bytes: Seq<u8>) -> Result<(u32, u32), Seq<char>>;

/// `png::Decoder::new(..).read_info()` and the size in `Reader::info`. Which
/// size that is, is left to the name, except that neither side is zero.
#[verifier::external_body]
pub(crate) fn read_size(bytes: &[u8]) -> (size: Result<(u32, u32), String>)
    ensures
        match size {
            Ok(size) => png_size(bytes@) == Ok::<(u32, u32), Seq<char>>(size) && size.0 > 0
                && size.1 > 0,
            Err(error) => png_size(bytes@) == Err::<(u32, u32), Seq<char>>(error@),
        },
{
    let decoder = png::Decoder::new(std::io::Cursor::new(bytes));
    let reader = decoder.read_info().map_err(|error| error.to_string())?;
    let info = reader.info();
    Ok((info.width, info.height))
}

/// The PNG of an image of 8-bit RGB pixels.
pub uninterp spec fn png_bytes(width: u32, height: u32, rgb: Seq<u8>) -> Seq<u8>;

/// Longest row, in bytes, that a decoder takes with its defaults beside the
/// buffers for the few chunks that an encoder writes.
pub const DECODABLE_ROW: u32 = 0x200_0000;

/// The decoder finds an image of 8-bit RGB pixels in these bytes.
pub open spec fn reads_back(bytes: Seq<u8>, width: u32, height: u32, rgb: Seq<u8>) -> bool {
    png_size(bytes) == Ok::<(u32, u32), Seq<char>>((width, height)) && png_frame(bytes) == Ok::<
        PngFrameModel,
        PngErrorModel,
    >(PngFrameModel { width, height, samples: 3, bit_depth: 8, data: rgb })
}

/// `png::Encoder` for 8-bit RGB, with its defaults: `write_header` and
/// `write_image_data` into memory. It refuses an image without pixels. Which
/// bytes it writes is left to the name, except that the decoder gives back
/// size and pixels, as PNG is lossless; where a row is too long for the
/// decoder's default limits nothing is claimed of reading it back.
#[verifier::external_body]
pub(crate) fn encode_rgb(width: u32, height: u32, rgb: &[u8]) -> (encoded: Result<
    Vec<u8>,
    String,
>)
    requires
        rgb@.len() == width * height * 3,
    ensures
        match encoded {
            Ok(bytes) => width > 0 && height > 0 && bytes@ == png_bytes(width, height, rgb@) && (
            width * 3 <= DECODABLE_ROW ==> reads_back(bytes@, width, height, rgb@)),
            Err(error) => (width == 0 && error@ == "Zero width not allowed"@) || (width > 0
                && height == 0 && error@ == "Zero height not allowed"@),
        },
{
    let mut bytes = Vec::new();
    let mut encoder = png::Encoder::new(&mut bytes, width, height);
    encoder.set_color(png::ColorType::Rgb);
    encoder.set_depth(png::BitDepth::Eight);
    let mut writer = encoder.write_header().map_err(|error| error.to_string())?;
    writer.write_image_data(rgb).map_err(|error| error.to_string())?;
    drop(writer);
    Ok(bytes)
}

/// The character for a value of six bits.
pub open spec fn base64_char(value: int) -> char {
    if value < 26 {
        ('A' as int + value) as char
    } else if value < 52 {
        ('a' as int + value - 26) as char
    } else if value < 62 {
        ('0' as int + value - 52) as char
    } else if value == 62 {
        '+'
    } else {
        '/'
    }
}

/// Standard base64: four characters for each three bytes, padded with equals
/// signs.
pub open spec fn base64_text(bytes: Seq<u8>) -> Seq<char>
    decreases bytes.len(),
{
    let a = bytes[0] as int;
    let b = bytes[1] as int;
    let c = bytes[2] as int;
    if bytes.len() == 0 {
        Seq::empty()
    } else if bytes.len() == 1 {
        seq![base64_char(a / 4), base64_char((a % 4) * 16), '=', '=']
    } else if bytes.len() == 2 {
        seq![
            base64_char(a / 4),
            base64_char((a % 4) * 16 + b / 16),
            base64_char((b % 16) * 4),
            '=',
        ]
    } else {
        seq![
            base64_char(a / 4),
            base64_char((a % 4) * 16 + b / 16),
            base64_char((b % 16) * 4 + c / 64),
            base64_char(c % 64),
        ] + base64_text(bytes.skip(3))
    }
}

/// `base64::Engine::encode` of `general_purpose::STANDARD`: the standard
/// alphabet, padded. A result too long to be allocated is left out.
#[verifier::external_body]
pub(crate) fn to_base64(bytes: &[u8]) -> (text: String)
    requires
        bytes@.len() <= usize::MAX / 4,
    ensures
        text@ == base64_text(bytes@),
{
    base64::engine::general_purpose::STANDARD.encode(bytes)
}

} // verus!
