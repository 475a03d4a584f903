//! Screenshots from the desktop portal: where the file is, whether it may be
//! read, and its size in pixels.

use vstd::prelude::*;
use vstd::string::*;
use vstd::utf8::{
    decode_utf8, encode_utf8, encode_utf8_decode_utf8, encode_utf8_valid_utf8, valid_utf8,
};

use crate::codec::{png_size, read_size};
use crate::paths::{is_within, joined, lemma_what_lies_within, within};
use crate::text::{
    chars_of, debug_of, debug_text, decimal, from_utf8, push_decimal, spells, text_of,
    utf8_error,
};

verus! {

/// Largest screenshot file: 64 MiB.
pub const MAX_SCREENSHOT_BYTES: u64 = 67_108_864;

/// A screenshot as a PNG, with the instant at which it was taken.
#[derive(Debug, Clone)]
pub struct CapturedScreenshot {
    pub bytes: Vec<u8>,
    pub width: u32,
    pub height: u32,
    pub captured_at: String,
}

/// ASCII codes.
pub const PERCENT: u8 = 0x25;

pub const ZERO: u8 = 0x30;

pub const NINE: u8 = 0x39;

pub const UPPER_A: u8 = 0x41;

pub const UPPER_F: u8 = 0x46;

pub const LOWER_A: u8 = 0x61;

pub const LOWER_F: u8 = 0x66;

/// The value of a hexadecimal digit.
pub open spec fn hex_digit(byte: u8) -> Option<u8> {
    if ZERO <= byte <= NINE {
        Some((byte - ZERO) as u8)
    } else if LOWER_A <= byte <= LOWER_F {
        Some((byte - LOWER_A + 10) as u8)
    } else if UPPER_A <= byte <= UPPER_F {
        Some((byte - UPPER_A + 10) as u8)
    } else {
        None
    }
}

pub fn hex_value(byte: u8) -> (value: Option<u8>)
    ensures
        value == hex_digit(byte),
        value matches Some(value) ==> value < 16,
{
    if ZERO <= byte && byte <= NINE {
        Some(byte - ZERO)
    } else if LOWER_A <= byte && byte <= LOWER_F {
        Some(byte - LOWER_A + 10)
    } else if UPPER_A <= byte && byte <= UPPER_F {
        Some(byte - UPPER_A + 10)
    } else {
        None
    }
}

/// The bytes that percent-encoded bytes stand for, nothing where an escape is
/// cut short or has no hexadecimal digits.
pub open spec fn unescaped(bytes: Seq<u8>) -> Option<Seq<u8>>
    decreases bytes.len(),
{
    if bytes.len() == 0 {
        Some(Seq::empty())
    } else if bytes[0] != PERCENT {
        match unescaped(bytes.skip(1)) {
            Some(rest) => Some(seq![bytes[0]] + rest),
            None => None,
        }
    } else if bytes.len() < 3 {
        None
    } else {
        match (hex_digit(bytes[1]), hex_digit(bytes[2]), unescaped(bytes.skip(3))) {
            (Some(high), Some(low), Some(rest)) => Some(seq![(high * 16 + low) as u8] + rest),
            _ => None,
        }
    }
}

/// The text that a percent-encoded text stands for.
pub open spec fn percent_decoded(text: Seq<char>) -> Result<Seq<char>, Seq<char>> {
    match unescaped(encode_utf8(text)) {
        None => Err("invalid percent escape in screenshot URI"@),
        Some(bytes) => if valid_utf8(bytes) {
            Ok(decode_utf8(bytes))
        } else {
            Err("screenshot URI path is not valid UTF-8: "@ + utf8_error(bytes))
        },
    }
}

fn unescape(bytes: &[u8]) -> (decoded: Option<Vec<u8>>)
    ensures
        match decoded {
            Some(decoded) => unescaped(bytes@) == Some(decoded@),
            None => unescaped(bytes@) is None,
        },
{
    let mut decoded: Vec<u8> = Vec::new();
    let mut index: usize = 0;
    assert(bytes@.skip(0) =~= bytes@);
    proof {
        if let Some(rest) = unescaped(bytes@) {
            assert(decoded@ + rest =~= rest);
        }
    }
    while index < bytes.len()
        invariant
            index <= bytes@.len(),
            match unescaped(bytes@.skip(index as int)) {
                Some(rest) => unescaped(bytes@) == Some(decoded@ + rest),
                None => unescaped(bytes@) is None,
            },
        decreases bytes@.len() - index,
    {
        let ghost rest = bytes@.skip(index as int);
        let ghost before = decoded@;
        let byte: u8 = bytes[index];
        assert(rest[0] == byte);
        if byte == PERCENT {
            if bytes.len() - index < 3 {
                return None;
            }
            assert(rest[1] == bytes@[index + 1]);
            assert(rest[2] == bytes@[index + 2]);
            assert(rest.skip(3) =~= bytes@.skip(index + 3));
            match (hex_value(bytes[index + 1]), hex_value(bytes[index + 2])) {
                (Some(high), Some(low)) => {
                    decoded.push(high * 16 + low);
                    proof {
                        if let Some(tail) = unescaped(rest.skip(3)) {
                            assert(before + (seq![(high * 16 + low) as u8] + tail) =~= decoded@
                                + tail);
                        }
                    }
                },
                _ => {
                    return None;
                },
            }
            index = index + 3;
        } else {
            assert(rest.skip(1) =~= bytes@.skip(index + 1));
            decoded.push(byte);
            proof {
                if let Some(tail) = unescaped(rest.skip(1)) {
                    assert(before + (seq![byte] + tail) =~= decoded@ + tail);
                }
            }
            index = index + 1;
        }
    }
    assert(bytes@.skip(index as int) =~= Seq::<u8>::empty());
    assert(decoded@ + Seq::<u8>::empty() =~= decoded@);
    Some(decoded)
}

pub fn percent_decode(input: &str) -> (decoded: Result<String, String>)
    ensures
        match decoded {
            Ok(decoded) => percent_decoded(input@) == Ok::<Seq<char>, Seq<char>>(decoded@),
            Err(error) => percent_decoded(input@) == Err::<Seq<char>, Seq<char>>(error@),
        },
{
    match unescape(input.as_bytes()) {
        None => Err("invalid percent escape in screenshot URI".to_owned()),
        Some(bytes) => match from_utf8(bytes) {
            Ok(text) => Ok(text),
            Err(reason) => {
                let mut error = "screenshot URI path is not valid UTF-8: ".to_owned();
                error.append(reason.as_str());
                Err(error)
            },
        },
    }
}

/// Bytes without a percent sign stand for themselves.
pub proof fn lemma_plain_bytes_are_kept(bytes: Seq<u8>)
    requires
        !bytes.contains(PERCENT),
    ensures
        unescaped(bytes) == Some(bytes),
    decreases bytes.len(),
{
    if bytes.len() > 0 {
        let rest = bytes.skip(1);
        assert(bytes.contains(bytes[0]));
        assert(!rest.contains(PERCENT)) by {
            if rest.contains(PERCENT) {
                let i = choose|i: int| 0 <= i < rest.len() && rest[i] == PERCENT;
                assert(bytes[i + 1] == PERCENT);
            }
        }
        lemma_plain_bytes_are_kept(rest);
        assert(seq![bytes[0]] + rest =~= bytes);
    }
}

/// How one byte is written: as it is, or escaped, each digit in either case.
pub enum Writing {
    Plain,
    Escaped { upper_high: bool, upper_low: bool },
}

/// The hexadecimal digit of a value below 16.
pub open spec fn hex_code(value: u8, upper: bool) -> u8 {
    if value < 10 {
        (ZERO + value) as u8
    } else if upper {
        (UPPER_A + value - 10) as u8
    } else {
        (LOWER_A + value - 10) as u8
    }
}

pub open spec fn byte_written(byte: u8, writing: Writing) -> Seq<u8> {
    match writing {
        Writing::Plain => seq![byte],
        Writing::Escaped { upper_high, upper_low } => seq![
            PERCENT,
            hex_code((byte / 16) as u8, upper_high),
            hex_code((byte % 16) as u8, upper_low),
        ],
    }
}

/// Bytes, each written in its own way.
pub open spec fn written(bytes: Seq<u8>, writings: Seq<Writing>) -> Seq<u8>
    decreases bytes.len(),
{
    if bytes.len() == 0 {
        Seq::empty()
    } else {
        byte_written(bytes[0], writings[0]) + written(bytes.skip(1), writings.skip(1))
    }
}

/// Decoding gives back the bytes, however each was written. A percent sign is
/// always escaped.
pub proof fn lemma_written_bytes_are_read_back(bytes: Seq<u8>, writings: Seq<Writing>)
    requires
        writings.len() == bytes.len(),
        forall|i: int|
            0 <= i < bytes.len() && #[trigger] bytes[i] == PERCENT ==> writings[i] is Escaped,
    ensures
        unescaped(written(bytes, writings)) == Some(bytes),
    decreases bytes.len(),
{
    if bytes.len() > 0 {
        let (rest, others) = (bytes.skip(1), writings.skip(1));
        assert forall|i: int| 0 <= i < rest.len() && #[trigger] rest[i] == PERCENT implies others[i] is Escaped by {
            assert(bytes[i + 1] == PERCENT);
        }
        lemma_written_bytes_are_read_back(rest, others);
        let all = written(bytes, writings);
        let byte = bytes[0];
        match writings[0] {
            Writing::Plain => {
                assert(all.skip(1) =~= written(rest, others));
            },
            Writing::Escaped { upper_high, upper_low } => {
                assert(all.skip(3) =~= written(rest, others));
                assert(hex_digit(all[1]) == Some((byte / 16) as u8));
                assert(hex_digit(all[2]) == Some((byte % 16) as u8));
            },
        }
        assert(seq![byte] + rest =~= bytes);
    }
}

/// The place of the first slash of a text, or its length.
pub open spec fn first_slash(text: Seq<char>) -> int
    decreases text.len(),
{
    if text.len() == 0 || text[0] == '/' {
        0
    } else {
        1 + first_slash(text.skip(1))
    }
}

/// The encoded path of a file URI of this machine.
pub open spec fn uri_path(uri: Seq<char>) -> Result<Seq<char>, Seq<char>> {
    let scheme = "file://"@;
    let rest = uri.skip(scheme.len() as int);
    let slash = first_slash(rest);
    if !scheme.is_prefix_of(uri) {
        Err("screenshot portal returned a non-file URI: "@ + uri)
    } else if slash == rest.len() {
        Err("screenshot portal returned an invalid file URI: "@ + uri)
    } else if slash > 0 && rest.take(slash) != "localhost"@ {
        Err("refusing screenshot URI for unexpected host "@ + debug_text(rest.take(slash)))
    } else {
        Ok(rest.skip(slash))
    }
}

/// The path of a file URI: decoded, and absolute.
pub open spec fn file_path(uri: Seq<char>) -> Result<Seq<char>, Seq<char>> {
    match uri_path(uri) {
        Err(error) => Err(error),
        Ok(encoded) => match percent_decoded(encoded) {
            Err(error) => Err(error),
            Ok(path) => if path.len() > 0 && path[0] == '/' {
                Ok(path)
            } else {
                Err("screenshot portal file URI did not resolve to an absolute path"@)
            },
        },
    }
}

proof fn lemma_first_slash(text: Seq<char>, n: int)
    requires
        0 <= n <= text.len(),
        forall|i: int| 0 <= i < n ==> #[trigger] text[i] != '/',
        n == text.len() || text[n] == '/',
    ensures
        first_slash(text) == n,
    decreases text.len(),
{
    if n > 0 {
        assert(text[0] != '/');
        let rest = text.skip(1);
        assert forall|i: int| 0 <= i < n - 1 implies #[trigger] rest[i] != '/' by {
            assert(rest[i] == text[i + 1]);
        }
        lemma_first_slash(rest, n - 1);
    }
}

fn starts_with(text: &[char], start: &[char]) -> (answer: bool)
    ensures
        answer == start@.is_prefix_of(text@),
{
    if text.len() < start.len() {
        return false;
    }
    let mut i: usize = 0;
    while i < start.len()
        invariant
            i <= start@.len() <= text@.len(),
            forall|k: int| 0 <= k < i ==> #[trigger] text@[k] == start@[k],
        decreases start@.len() - i,
    {
        if text[i] != start[i] {
            return false;
        }
        i = i + 1;
    }
    assert(text@.subrange(0, start@.len() as int) =~= start@);
    true
}

fn copy_range(chars: &[char], start: usize, end: usize) -> (part: Vec<char>)
    requires
        start <= end <= chars@.len(),
    ensures
        part@ == chars@.subrange(start as int, end as int),
{
    let mut part: Vec<char> = Vec::new();
    let mut i: usize = start;
    while i < end
        invariant
            start <= i <= end <= chars@.len(),
            part@ == chars@.subrange(start as int, i as int),
        decreases end - i,
    {
        part.push(chars[i]);
        assert(part@ =~= chars@.subrange(start as int, i + 1));
        i = i + 1;
    }
    part
}

/// The path of the file that the portal names by a URI. Only files of this
/// machine are accepted.
pub fn file_uri_to_path(uri: &str) -> (path: Result<String, String>)
    ensures
        match path {
            Ok(path) => file_path(uri@) == Ok::<Seq<char>, Seq<char>>(path@),
            Err(error) => file_path(uri@) == Err::<Seq<char>, Seq<char>>(error@),
        },
{
    let chars: Vec<char> = chars_of(uri);
    let scheme: Vec<char> = chars_of("file://");
    if !starts_with(&chars, &scheme) {
        let mut error = "screenshot portal returned a non-file URI: ".to_owned();
        error.append(uri);
        return Err(error);
    }
    let start: usize = scheme.len();
    let ghost rest = uri@.skip(start as int);
    let mut slash: usize = start;
    while slash < chars.len() && chars[slash] != '/'
        invariant
            start <= slash <= chars@.len(),
            chars@ == uri@,
            rest == uri@.skip(start as int),
            forall|i: int| 0 <= i < slash - start ==> #[trigger] rest[i] != '/',
        decreases chars@.len() - slash,
    {
        slash = slash + 1;
    }
    proof {
        if slash < chars@.len() {
            assert(rest[slash - start] == chars@[slash as int]);
        }
        lemma_first_slash(rest, slash - start);
    }
    if slash == chars.len() {
        let mut error = "screenshot portal returned an invalid file URI: ".to_owned();
        error.append(uri);
        return Err(error);
    }
    if slash > start {
        let host: Vec<char> = copy_range(&chars, start, slash);
        assert(host@ =~= rest.take(slash - start));
        if !spells(&host, "localhost") {
            let mut error = "refusing screenshot URI for unexpected host ".to_owned();
            let host_text = text_of(&host);
            error.append(debug_of(host_text.as_str()).as_str());
            return Err(error);
        }
    }
    let part: Vec<char> = copy_range(&chars, slash, chars.len());
    assert(part@ =~= rest.skip(slash - start));
    let encoded = text_of(&part);
    let path = match percent_decode(encoded.as_str()) {
        Ok(path) => path,
        Err(error) => {
            return Err(error);
        },
    };
    let decoded: Vec<char> = chars_of(path.as_str());
    if decoded.len() > 0 && decoded[0] == '/' {
        Ok(path)
    } else {
        Err("screenshot portal file URI did not resolve to an absolute path".to_owned())
    }
}

/// A URI is accepted only where it names a file of this machine, and the path
/// it gives is absolute.
pub proof fn lemma_only_local_absolute_files(uri: Seq<char>)
    ensures
        file_path(uri) matches Ok(path) ==> "file://"@.is_prefix_of(uri) && path.len() > 0
            && path[0] == '/' && {
            let rest = uri.skip("file://"@.len() as int);
            first_slash(rest) < rest.len() && (first_slash(rest) == 0 || rest.take(first_slash(rest))
                == "localhost"@)
        },
{
    let rest = uri.skip("file://"@.len() as int);
    lemma_first_slash_range(rest);
}

proof fn lemma_first_slash_range(text: Seq<char>)
    ensures
        0 <= first_slash(text) <= text.len(),
    decreases text.len(),
{
    if text.len() > 0 && text[0] != '/' {
        lemma_first_slash_range(text.skip(1));
    }
}

/// What is known of a file that was opened without following links.
#[derive(Debug, Clone, Copy)]
pub struct FileFacts {
    pub is_regular: bool,
    pub owner: u32,
    /// Effective user of the program.
    pub user: u32,
    pub size: u64,
}

pub open spec fn too_large(path: Seq<char>) -> Seq<char> {
    "refusing screenshot file "@ + path + " because it exceeds the 64 MiB limit"@
}

/// Why a file is not read: only regular files of the user, up to the size
/// limit, are.
pub open spec fn file_refusal(path: Seq<char>, facts: FileFacts) -> Option<Seq<char>> {
    if !facts.is_regular {
        Some("refusing screenshot path "@ + path + " because it is not a regular file"@)
    } else if facts.owner != facts.user {
        Some(
            "refusing screenshot file "@ + path + " because its owner uid "@ + decimal(
                facts.owner as int,
            ) + " does not match effective uid "@ + decimal(facts.user as int),
        )
    } else if facts.size > MAX_SCREENSHOT_BYTES {
        Some(too_large(path))
    } else {
        None
    }
}

fn too_large_error(path: &str) -> (error: String)
    ensures
        error@ == too_large(path@),
{
    let mut error = "refusing screenshot file ".to_owned();
    error.append(path);
    error.append(" because it exceeds the 64 MiB limit");
    error
}

/// Whether an opened file may be read.
pub fn check_file(path: &str, facts: FileFacts) -> (verdict: Result<(), String>)
    ensures
        match verdict {
            Ok(_) => file_refusal(path@, facts) is None,
            Err(error) => file_refusal(path@, facts) == Some(error@),
        },
{
    if !facts.is_regular {
        let mut error = "refusing screenshot path ".to_owned();
        error.append(path);
        error.append(" because it is not a regular file");
        return Err(error);
    }
    if facts.owner != facts.user {
        let mut error = "refusing screenshot file ".to_owned();
        error.append(path);
        error.append(" because its owner uid ");
        push_decimal(&mut error, facts.owner as i64);
        error.append(" does not match effective uid ");
        push_decimal(&mut error, facts.user as i64);
        return Err(error);
    }
    if facts.size > MAX_SCREENSHOT_BYTES {
        return Err(too_large_error(path));
    }
    Ok(())
}

/// Why a file is refused for its place: its canonical path is not within the
/// canonical home directory.
pub open spec fn location_refusal(path: Seq<char>, home: Seq<char>) -> Option<Seq<char>> {
    if is_within(path, home) {
        None
    } else {
        Some(
            "refusing screenshot file "@ + path + " because its canonical path is outside HOME "@
                + home,
        )
    }
}

/// Whether a file may be read where it lies.
pub fn check_location(path: &str, home: &str) -> (verdict: Result<(), String>)
    ensures
        match verdict {
            Ok(_) => location_refusal(path@, home@) is None,
            Err(error) => location_refusal(path@, home@) == Some(error@),
        },
{
    if within(path, home) {
        return Ok(());
    }
    let mut error = "refusing screenshot file ".to_owned();
    error.append(path);
    error.append(" because its canonical path is outside HOME ");
    error.append(home);
    Err(error)
}

/// Whether what was read of a file is within the size limit.
pub fn check_read(path: &str, bytes: &[u8]) -> (verdict: Result<(), String>)
    ensures
        match verdict {
            Ok(_) => bytes@.len() <= MAX_SCREENSHOT_BYTES,
            Err(error) => bytes@.len() > MAX_SCREENSHOT_BYTES && error@ == too_large(path@),
        },
{
    if bytes.len() as u64 > MAX_SCREENSHOT_BYTES {
        return Err(too_large_error(path));
    }
    Ok(())
}

/// The size of a screenshot, from what the header of its PNG gave.
pub open spec fn dimensions_of(size: Result<(u32, u32), Seq<char>>) -> Result<
    (u32, u32),
    Seq<char>,
> {
    match size {
        Ok(size) => Ok(size),
        Err(error) => Err("decode screenshot PNG header: "@ + error),
    }
}

pub fn png_dimensions(bytes: &[u8]) -> (size: Result<(u32, u32), String>)
    ensures
        match size {
            Ok(size) => dimensions_of(png_size(bytes@)) == Ok::<(u32, u32), Seq<char>>(size)
                && size.0 > 0 && size.1 > 0,
            Err(error) => dimensions_of(png_size(bytes@)) == Err::<(u32, u32), Seq<char>>(error@),
        },
{
    match read_size(bytes) {
        Ok(size) => Ok(size),
        Err(reason) => {
            let mut error = "decode screenshot PNG header: ".to_owned();
            error.append(reason.as_str());
            Err(error)
        },
    }
}

/// A screenshot from the bytes of its file.
pub fn captured(bytes: Vec<u8>, captured_at: String) -> (shot: Result<CapturedScreenshot, String>)
    ensures
        match shot {
            Ok(shot) => shot.bytes@ == bytes@ && shot.captured_at@ == captured_at@
                && dimensions_of(png_size(bytes@)) == Ok::<(u32, u32), Seq<char>>(
                (shot.width, shot.height),
            ),
            Err(error) => dimensions_of(png_size(bytes@)) == Err::<(u32, u32), Seq<char>>(error@),
        },
{
    match png_dimensions(&bytes) {
        Ok((width, height)) => Ok(CapturedScreenshot { bytes, width, height, captured_at }),
        Err(error) => Err(error),
    }
}

/// How escaped bytes were written.
proof fn lemma_writings_of(bytes: Seq<u8>) -> (writings: Seq<Writing>)
    requires
        unescaped(bytes) is Some,
    ensures
        writings.len() == unescaped(bytes)->0.len(),
        forall|i: int|
            0 <= i < writings.len() && #[trigger] unescaped(bytes)->0[i] == PERCENT ==> writings[i]
                is Escaped,
        written(unescaped(bytes)->0, writings) == bytes,
    decreases bytes.len(),
{
    let out = unescaped(bytes)->0;
    if bytes.len() == 0 {
        assert(written(out, seq![]) =~= bytes);
        seq![]
    } else if bytes[0] != PERCENT {
        let rest = lemma_writings_of(bytes.skip(1));
        let writings = seq![Writing::Plain] + rest;
        let tail = unescaped(bytes.skip(1))->0;
        assert(out.skip(1) =~= tail);
        assert(writings.skip(1) =~= rest);
        assert(written(out, writings) =~= bytes);
        assert forall|i: int| 0 <= i < writings.len() && #[trigger] out[i] == PERCENT implies writings[i] is Escaped by {
            if i > 0 {
                assert(out[i] == tail[i - 1]);
            }
        }
        writings
    } else {
        let rest = lemma_writings_of(bytes.skip(3));
        let (high, low) = (hex_digit(bytes[1])->0, hex_digit(bytes[2])->0);
        let first = Writing::Escaped {
            upper_high: UPPER_A <= bytes[1] <= UPPER_F,
            upper_low: UPPER_A <= bytes[2] <= UPPER_F,
        };
        let writings = seq![first] + rest;
        let tail = unescaped(bytes.skip(3))->0;
        assert(out.skip(1) =~= tail);
        assert(writings.skip(1) =~= rest);
        let byte = (high * 16 + low) as u8;
        assert(out[0] == byte);
        assert(byte / 16 == high && byte % 16 == low);
        assert(byte_written(byte, first) =~= seq![bytes[0], bytes[1], bytes[2]]);
        assert(written(out, writings) =~= bytes);
        assert forall|i: int| 0 <= i < writings.len() && #[trigger] out[i] == PERCENT implies writings[i] is Escaped by {
            if i > 0 {
                assert(out[i] == tail[i - 1]);
            }
        }
        writings
    }
}

/// Only bytes that were written so are decoded: each as it is or as a percent
/// sign and its two hexadecimal digits, and a percent sign never as it is.
pub proof fn lemma_only_written_bytes_are_decoded(bytes: Seq<u8>)
    ensures
        unescaped(bytes) is Some <==> exists|out: Seq<u8>, writings: Seq<Writing>|
            #[trigger] written(out, writings) == bytes && writings.len() == out.len() && forall|i: int|
                0 <= i < out.len() && #[trigger] out[i] == PERCENT ==> writings[i] is Escaped,
{
    if unescaped(bytes) is Some {
        let writings = lemma_writings_of(bytes);
        assert(written(unescaped(bytes)->0, writings) == bytes);
    }
    if exists|out: Seq<u8>, writings: Seq<Writing>|
        #[trigger] written(out, writings) == bytes && writings.len() == out.len() && forall|i: int|
            0 <= i < out.len() && #[trigger] out[i] == PERCENT ==> writings[i] is Escaped {
        let (out, writings) = choose|out: Seq<u8>, writings: Seq<Writing>|
            #[trigger] written(out, writings) == bytes && writings.len() == out.len() && forall|i: int|
                0 <= i < out.len() && #[trigger] out[i] == PERCENT ==> writings[i] is Escaped;
        lemma_written_bytes_are_read_back(out, writings);
    }
}

/// The URI of a file gives its path back, whether it names this machine or no
/// host, and however the bytes of the path are written after the first slash.
pub proof fn lemma_file_uris_are_read_back(
    path: Seq<char>,
    encoded: Seq<char>,
    writings: Seq<Writing>,
    named: bool,
)
    requires
        path.len() > 0,
        path[0] == '/',
        encoded.len() > 0,
        encoded[0] == '/',
        writings.len() == encode_utf8(path).len(),
        forall|i: int|
            0 <= i < writings.len() && #[trigger] encode_utf8(path)[i] == PERCENT ==> writings[i]
                is Escaped,
        encode_utf8(encoded) == written(encode_utf8(path), writings),
    ensures
        file_path(
            "file://"@ + if named {
                "localhost"@
            } else {
                Seq::empty()
            } + encoded,
        ) == Ok::<Seq<char>, Seq<char>>(path),
{
    reveal_strlit("file://");
    reveal_strlit("localhost");
    let host = if named {
        "localhost"@
    } else {
        Seq::empty()
    };
    let scheme = "file://"@;
    let uri = scheme + host + encoded;
    let rest = uri.skip(scheme.len() as int);
    assert(rest =~= host + encoded);
    assert(scheme.is_prefix_of(uri)) by {
        assert(uri.subrange(0, scheme.len() as int) =~= scheme);
    }
    assert forall|i: int| 0 <= i < host.len() implies #[trigger] rest[i] != '/' by {
        assert(rest[i] == host[i]);
    }
    assert(rest[host.len() as int] == encoded[0]);
    lemma_first_slash(rest, host.len() as int);
    assert(rest.take(host.len() as int) =~= host);
    assert(rest.skip(host.len() as int) =~= encoded);
    lemma_written_bytes_are_read_back(encode_utf8(path), writings);
    encode_utf8_valid_utf8(path);
    encode_utf8_decode_utf8(path);
}

/// A file is read exactly where it is a regular file of the user of at most
/// 64 MiB.
pub proof fn lemma_which_files_are_read(path: Seq<char>, facts: FileFacts)
    ensures
        file_refusal(path, facts) is None <==> facts.is_regular && facts.owner == facts.user
            && facts.size <= 64 * 1024 * 1024,
{
}

/// A file is read only where it is the home directory or lies below it.
pub proof fn lemma_which_places_are_read(path: Seq<char>, home: Seq<char>)
    ensures
        location_refusal(path, home) is None <==> path == home || exists|name: Seq<char>| path
            == #[trigger] joined(home, name),
{
    lemma_what_lies_within(path, home);
}

} // verus!
