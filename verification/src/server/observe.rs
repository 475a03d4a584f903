//! The observation tools: screenshots and what is known of a screen.

use vstd::prelude::*;
use vstd::slice::slice_to_vec;
use vstd::string::*;
use vstd::utf8::{
    decode_utf8, encode_utf8, encode_utf8_decode_utf8, encode_utf8_valid_utf8, valid_utf8,
};

use crate::codec::{base64_text, to_base64};
use crate::safety::{settle_duration, settled};
use crate::screenshot::CapturedScreenshot;
use crate::text::{
    chars_of, debug_of, debug_text, decimal, digit_char, digits, from_utf8, is_blank,
    is_white_space, lemma_digits_spell_the_number,
    push_decimal, text_of, trim, trim_end, trimmed, utf8_error, white_space,
};
use crate::time::Duration;

use super::args::ObservationArgs;
use super::state::{sandbox_missing, OperationState};
use super::{chosen_target, target_or_default, Target};

verus! {

pub const COORDINATE_SYSTEM: &'static str =
    "x,y are pixel coordinates in the most recent screenshot of the same target, origin top-left";

pub const AUTOMATIC_SCALE_FACTOR_NOTE: &'static str =
    "GNOME scaling-factor is 0 (automatic); coordinates are screenshot pixels and do not depend on this value";

/// What an observation does: read the scale factor where it is reported,
/// capture the target and let the screen settle.
#[derive(Debug, Clone, Copy, PartialEq, Eq, Structural)]
pub struct Observation {
    pub target: Target,
    pub settle: Duration,
    pub reads_scale_factor: bool,
}

/// What an observation is asked for; the scale factor belongs to the real
/// desktop alone.
pub open spec fn observation_plan(args: ObservationArgs, with_info: bool) -> Result<
    Observation,
    Seq<char>,
> {
    let target = chosen_target(args.target);
    match settled(args.settle_ms) {
        Err(error) => Err(error),
        Ok(settle) => Ok(
            Observation {
                target,
                settle,
                reads_scale_factor: with_info && target == Target::Desktop,
            },
        ),
    }
}

pub fn observation(args: &ObservationArgs, with_info: bool) -> (plan: Result<Observation, String>)
    ensures
        match plan {
            Ok(plan) => observation_plan(*args, with_info) == Ok::<Observation, Seq<char>>(plan),
            Err(error) => observation_plan(*args, with_info) == Err::<Observation, Seq<char>>(
                error@,
            ),
        },
{
    let target = target_or_default(args.target);
    match settle_duration(args.settle_ms) {
        Ok(settle) => Ok(
            Observation {
                target,
                settle,
                reads_scale_factor: with_info && target == Target::Desktop,
            },
        ),
        Err(error) => Err(error),
    }
}

/// What `screen_info` reports.
#[derive(Debug)]
pub struct ScreenInfo {
    pub target: &'static str,
    pub width: u32,
    pub height: u32,
    pub scale_factor: Option<u32>,
    pub scale_factor_note: Option<&'static str>,
    pub coordinate_system: &'static str,
}

/// The report on a screen. An automatic scale factor, which reads as zero, is
/// replaced by a note.
pub fn screen_info(target: Target, width: u32, height: u32, scale_factor: Option<u32>) -> (info:
    ScreenInfo)
    ensures
        info.target@ == target.text(),
        info.width == width,
        info.height == height,
        info.scale_factor == if scale_factor == Some(0u32) {
            None
        } else {
            scale_factor
        },
        info.scale_factor_note is Some <==> scale_factor == Some(0u32),
        info.scale_factor_note matches Some(note) ==> note@ == AUTOMATIC_SCALE_FACTOR_NOTE@,
        info.coordinate_system@ == COORDINATE_SYSTEM@,
{
    let (factor, note) = match scale_factor {
        Some(0) => (None, Some(AUTOMATIC_SCALE_FACTOR_NOTE)),
        other => (other, None),
    };
    ScreenInfo {
        target: target.name(),
        width,
        height,
        scale_factor: factor,
        scale_factor_note: note,
        coordinate_system: COORDINATE_SYSTEM,
    }
}

pub open spec fn metadata_text(target: Target, shot: CapturedScreenshot) -> Seq<char> {
    "target="@ + target.text() + " timestamp="@ + shot.captured_at@ + " width="@ + decimal(
        shot.width as int,
    ) + " height="@ + decimal(shot.height as int) + " (screenshot pixels)"@
}

/// The line that goes with a screenshot.
pub fn metadata(target: Target, shot: &CapturedScreenshot) -> (line: String)
    ensures
        line@ == metadata_text(target, *shot),
{
    let mut line = "target=".to_owned();
    line.append(target.name());
    line.append(" timestamp=");
    line.append(shot.captured_at.as_str());
    line.append(" width=");
    push_decimal(&mut line, shot.width as i64);
    line.append(" height=");
    push_decimal(&mut line, shot.height as i64);
    line.append(" (screenshot pixels)");
    line
}

/// The PNG of a screenshot as it is sent to the client.
pub fn image_data(shot: &CapturedScreenshot) -> (data: String)
    requires
        shot.bytes@.len() <= usize::MAX / 4,
    ensures
        data@ == base64_text(shot.bytes@),
{
    to_base64(&shot.bytes)
}

/// Whether the target can be captured: a sandbox has to be running.
pub fn can_capture(state: &OperationState, target: Target) -> (answer: Result<(), String>)
    ensures
        match answer {
            Ok(_) => state@.has_injector(target),
            Err(error) => !state@.has_injector(target) && error@ == sandbox_missing(),
        },
{
    if state.has_injector(target) {
        Ok(())
    } else {
        Err("sandbox is not running; call sandbox_start first".to_owned())
    }
}

pub open spec fn capture_error(target: Target, error: Seq<char>) -> Seq<char> {
    match target {
        Target::Desktop => "screenshot failed: "@ + error,
        Target::Sandbox => "sandbox screenshot failed: "@ + error,
    }
}

/// What a capture that failed is reported as.
pub fn capture_failed(target: Target, error: &str) -> (text: String)
    ensures
        text@ == capture_error(target, error@),
{
    let mut text = match target {
        Target::Desktop => "screenshot failed: ".to_owned(),
        Target::Sandbox => "sandbox screenshot failed: ".to_owned(),
    };
    text.append(error);
    text
}

/// The characters after the last white space of a text.
pub open spec fn tail_word(text: Seq<char>) -> Seq<char>
    decreases text.len(),
{
    if text.len() == 0 || white_space(text.last()) {
        Seq::empty()
    } else {
        tail_word(text.drop_last()).push(text.last())
    }
}

/// The last word of a text, nothing where it is blank.
pub open spec fn last_word(text: Seq<char>) -> Option<Seq<char>> {
    let kept = trim_end(text);
    if kept.len() == 0 {
        None
    } else {
        Some(tail_word(kept))
    }
}

pub open spec fn is_digit(c: char) -> bool {
    '0' <= c <= '9'
}

/// The number that the first `n` digits of a word write, or what is wrong with
/// the first of them that cannot go on: it is no digit, or the number leaves
/// the range.
pub open spec fn number_prefix(digits: Seq<char>, n: nat) -> Result<nat, Seq<char>>
    decreases n,
{
    if n == 0 {
        Ok(0)
    } else {
        match number_prefix(digits, (n - 1) as nat) {
            Err(error) => Err(error),
            Ok(value) => if !is_digit(digits[n - 1]) {
                Err("invalid digit found in string"@)
            } else {
                let more = value * 10 + (digits[n - 1] as nat - '0' as nat) as nat;
                if more > u32::MAX {
                    Err("number too large to fit in target type"@)
                } else {
                    Ok(more)
                }
            },
        }
    }
}

/// The number that a word writes, with a plus sign before it or without.
pub open spec fn number(word: Seq<char>) -> Result<nat, Seq<char>> {
    if word.len() == 0 {
        Err("cannot parse integer from empty string"@)
    } else if word[0] == '+' && word.len() > 1 {
        number_prefix(word.skip(1), (word.len() - 1) as nat)
    } else {
        number_prefix(word, word.len())
    }
}

/// The scale factor that `gsettings` printed.
pub open spec fn scale_factor(stdout: Seq<u8>) -> Result<nat, Seq<char>> {
    if !valid_utf8(stdout) {
        Err("gsettings returned non-UTF-8 scale factor: "@ + utf8_error(stdout))
    } else {
        match last_word(decode_utf8(stdout)) {
            None => Err("gsettings returned an empty scale factor"@),
            Some(word) => match number(word) {
                Ok(factor) => Ok(factor),
                Err(error) => Err(
                    "parse GNOME scale factor "@ + debug_text(word) + ": "@ + error,
                ),
            },
        }
    }
}

proof fn lemma_bad_digit_persists(digits: Seq<char>, n: nat, m: nat)
    requires
        n <= m,
        number_prefix(digits, n) is Err,
    ensures
        number_prefix(digits, m) == number_prefix(digits, n),
    decreases m - n,
{
    if n < m {
        lemma_bad_digit_persists(digits, n, (m - 1) as nat);
    }
}

fn parse_digits(digits: &[char]) -> (value: Result<u32, String>)
    ensures
        match value {
            Ok(value) => number_prefix(digits@, digits@.len()) == Ok::<nat, Seq<char>>(
                value as nat,
            ),
            Err(error) => number_prefix(digits@, digits@.len()) == Err::<nat, Seq<char>>(error@),
        },
{
    let mut value: u32 = 0;
    let mut i: usize = 0;
    while i < digits.len()
        invariant
            i <= digits@.len(),
            number_prefix(digits@, i as nat) == Ok::<nat, Seq<char>>(value as nat),
        decreases digits@.len() - i,
    {
        let c: char = digits[i];
        if c < '0' || c > '9' {
            proof {
                lemma_bad_digit_persists(digits@, (i + 1) as nat, digits@.len());
            }
            return Err("invalid digit found in string".to_owned());
        }
        let more: u64 = value as u64 * 10 + (c as u64 - '0' as u64);
        if more > u32::MAX as u64 {
            proof {
                lemma_bad_digit_persists(digits@, (i + 1) as nat, digits@.len());
            }
            return Err("number too large to fit in target type".to_owned());
        }
        value = more as u32;
        i = i + 1;
    }
    Ok(value)
}

/// Reads a number as `u32` is written.
fn parse_number(word: &[char]) -> (value: Result<u32, String>)
    ensures
        match value {
            Ok(value) => number(word@) == Ok::<nat, Seq<char>>(value as nat),
            Err(error) => number(word@) == Err::<nat, Seq<char>>(error@),
        },
{
    if word.len() == 0 {
        return Err("cannot parse integer from empty string".to_owned());
    }
    if word[0] == '+' && word.len() > 1 {
        let mut digits: Vec<char> = Vec::new();
        let mut i: usize = 1;
        while i < word.len()
            invariant
                1 <= i <= word@.len(),
                digits@ == word@.subrange(1, i as int),
            decreases word@.len() - i,
        {
            digits.push(word[i]);
            assert(digits@ =~= word@.subrange(1, i + 1));
            i = i + 1;
        }
        assert(digits@ =~= word@.skip(1));
        parse_digits(&digits)
    } else {
        parse_digits(word)
    }
}

/// The last word of a text.
fn find_last_word(text: &[char]) -> (word: Option<Vec<char>>)
    ensures
        match word {
            Some(word) => last_word(text@) == Some(word@),
            None => last_word(text@) is None,
        },
{
    let mut end: usize = text.len();
    assert(text@.take(end as int) =~= text@);
    while end > 0 && is_white_space(text[end - 1])
        invariant
            end <= text@.len(),
            trim_end(text@.take(end as int)) == trim_end(text@),
        decreases end,
    {
        assert(text@.take(end as int).drop_last() =~= text@.take(end - 1));
        end = end - 1;
    }
    let ghost kept = text@.take(end as int);
    assert(trim_end(kept) == kept);
    if end == 0 {
        return None;
    }
    let mut start: usize = end;
    assert(kept.take(start as int) =~= kept);
    assert(tail_word(kept) =~= tail_word(kept.take(start as int)) + kept.skip(start as int));
    while start > 0 && !is_white_space(text[start - 1])
        invariant
            start <= end <= text@.len(),
            kept == text@.take(end as int),
            tail_word(kept) == tail_word(kept.take(start as int)) + kept.skip(start as int),
        decreases start,
    {
        assert(kept.take(start as int).drop_last() =~= kept.take(start - 1));
        assert(kept.take(start as int).last() == text@[start - 1]);
        assert(tail_word(kept.take(start as int)) + kept.skip(start as int) =~= tail_word(
            kept.take(start - 1),
        ) + kept.skip(start - 1));
        start = start - 1;
    }
    let mut word: Vec<char> = Vec::new();
    let mut i: usize = start;
    while i < end
        invariant
            start <= i <= end <= text@.len(),
            kept == text@.take(end as int),
            word@ == kept.subrange(start as int, i as int),
        decreases end - i,
    {
        word.push(text[i]);
        assert(word@ =~= kept.subrange(start as int, i + 1));
        i = i + 1;
    }
    proof {
        if start > 0 {
            assert(kept.take(start as int).last() == text@[start - 1]);
        }
        assert(tail_word(kept.take(start as int)) =~= Seq::<char>::empty());
        assert(word@ =~= kept.skip(start as int));
        assert(word@ =~= tail_word(kept));
    }
    Some(word)
}

/// The scale factor in what `gsettings` printed, such as `uint32 2`.
pub fn parse_scale_factor(stdout: &[u8]) -> (factor: Result<u32, String>)
    ensures
        match factor {
            Ok(factor) => scale_factor(stdout@) == Ok::<nat, Seq<char>>(factor as nat),
            Err(error) => scale_factor(stdout@) == Err::<nat, Seq<char>>(error@),
        },
{
    let text = match from_utf8(slice_to_vec(stdout)) {
        Ok(text) => text,
        Err(reason) => {
            let mut error = "gsettings returned non-UTF-8 scale factor: ".to_owned();
            error.append(reason.as_str());
            return Err(error);
        },
    };
    let chars: Vec<char> = chars_of(text.as_str());
    let word = match find_last_word(&chars) {
        Some(word) => word,
        None => {
            return Err("gsettings returned an empty scale factor".to_owned());
        },
    };
    match parse_number(&word) {
        Ok(factor) => Ok(factor),
        Err(reason) => {
            let mut error = "parse GNOME scale factor ".to_owned();
            let raw = text_of(&word);
            error.append(debug_of(raw.as_str()).as_str());
            error.append(": ");
            error.append(reason.as_str());
            Err(error)
        },
    }
}

pub open spec fn query_error(details: Seq<char>) -> Seq<char> {
    if details.len() == 0 {
        "gsettings could not read the desktop scale factor"@
    } else {
        "gsettings could not read the desktop scale factor"@ + ": "@ + details
    }
}

/// What a query that `gsettings` refused is reported as, with the trimmed text
/// that it printed.
pub fn query_failed(stderr: &str) -> (text: String)
    ensures
        text@ == query_error(trim(stderr@)),
{
    let chars: Vec<char> = chars_of(stderr);
    let details: Vec<char> = trimmed(&chars);
    let mut text = "gsettings could not read the desktop scale factor".to_owned();
    if details.len() > 0 {
        text.append(": ");
        text.append(text_of(&details).as_str());
    }
    text
}

proof fn lemma_same_start(a: Seq<char>, b: Seq<char>, n: nat)
    requires
        n <= a.len(),
        n <= b.len(),
        forall|i: int| 0 <= i < n ==> #[trigger] a[i] == b[i],
    ensures
        number_prefix(a, n) == number_prefix(b, n),
    decreases n,
{
    if n > 0 {
        lemma_same_start(a, b, (n - 1) as nat);
    }
}

proof fn lemma_digits_write_the_number(n: nat)
    requires
        n <= u32::MAX,
    ensures
        digits(n).len() > 0,
        is_digit(digits(n)[0]),
        number_prefix(digits(n), digits(n).len()) == Ok::<nat, Seq<char>>(n),
    decreases n,
{
    let all = digits(n);
    if n < 10 {
        reveal_with_fuel(number_prefix, 2);
        assert(all =~= seq![digit_char(n)]);
    } else {
        let rest = digits(n / 10);
        lemma_digits_write_the_number(n / 10);
        lemma_same_start(all, rest, rest.len());
        assert(all[rest.len() as int] == digit_char(n % 10));
        assert(all[0] == rest[0]);
    }
}

/// A number in decimal digits is read as itself.
pub proof fn lemma_printed_numbers_are_read_back(n: nat)
    requires
        n <= u32::MAX,
    ensures
        number(digits(n)) == Ok::<nat, Seq<char>>(n),
{
    lemma_digits_write_the_number(n);
}

/// An observation is of the target asked for, the sandbox where none is; the
/// scale factor is read for a report on the real desktop and for nothing else.
pub proof fn lemma_observations_are_of_what_is_asked(args: ObservationArgs, with_info: bool)
    ensures
        observation_plan(args, with_info) is Ok <==> settled(args.settle_ms) is Ok,
        observation_plan(args, with_info) matches Ok(plan) ==> {
            &&& args.target matches Some(target) ==> plan.target == target
            &&& args.target is None ==> plan.target == Target::Sandbox
            &&& settled(args.settle_ms) == Ok::<Duration, Seq<char>>(plan.settle)
            &&& plan.reads_scale_factor <==> with_info && args.target == Some(Target::Desktop)
        },
{
}

proof fn lemma_tail_word(text: Seq<char>, start: int)
    requires
        0 <= start <= text.len(),
        start == 0 || white_space(text[start - 1]),
        forall|i: int| start <= i < text.len() ==> !white_space(#[trigger] text[i]),
    ensures
        tail_word(text) == text.skip(start),
    decreases text.len(),
{
    if start < text.len() {
        let rest = text.drop_last();
        assert forall|i: int| start <= i < rest.len() implies !white_space(#[trigger] rest[i]) by {
            assert(rest[i] == text[i]);
        }
        assert(!white_space(text[text.len() - 1]));
        lemma_tail_word(rest, start);
        assert(rest.skip(start).push(text.last()) =~= text.skip(start));
    } else {
        assert(text.skip(start) =~= Seq::<char>::empty());
    }
}

/// The scale factor is the number that stands last in what was printed,
/// whatever stands before it and however much white space around it.
pub proof fn lemma_last_number_is_the_scale_factor(
    before: Seq<char>,
    factor: nat,
    after: Seq<char>,
)
    requires
        before.len() == 0 || white_space(before.last()),
        is_blank(after),
        factor <= u32::MAX,
    ensures
        scale_factor(encode_utf8(before + digits(factor) + after)) == Ok::<nat, Seq<char>>(factor),
{
    let word = digits(factor);
    let text = before + word + after;
    lemma_digits_spell_the_number(factor);
    lemma_printed_numbers_are_read_back(factor);
    let kept = before + word;
    assert forall|i: int| 0 <= i < word.len() implies !white_space(#[trigger] word[i]) by {}
    lemma_blank_end_is_trimmed(kept, after);
    assert(kept[kept.len() - 1] == word[word.len() - 1]);
    assert(trim_end(kept) == kept);
    assert forall|i: int| before.len() <= i < kept.len() implies !white_space(
        #[trigger] kept[i],
    ) by {
        assert(kept[i] == word[i - before.len()]);
    }
    if before.len() > 0 {
        assert(kept[before.len() - 1] == before.last());
    }
    lemma_tail_word(kept, before.len() as int);
    assert(kept.skip(before.len() as int) =~= word);
    encode_utf8_valid_utf8(text);
    encode_utf8_decode_utf8(text);
}

proof fn lemma_blank_end_is_trimmed(text: Seq<char>, end: Seq<char>)
    requires
        is_blank(end),
    ensures
        trim_end(text + end) == trim_end(text),
    decreases end.len(),
{
    if end.len() == 0 {
        assert(text + end =~= text);
    } else {
        let rest = end.drop_last();
        assert(is_blank(rest)) by {
            assert forall|i: int| 0 <= i < rest.len() implies white_space(#[trigger] rest[i]) by {
                assert(rest[i] == end[i]);
            }
        }
        assert(white_space(end[end.len() - 1]));
        assert((text + end).drop_last() =~= text + rest);
        lemma_blank_end_is_trimmed(text, rest);
    }
}

} // verus!
