//! Text as sequences of characters: decimal numbers, ASCII case, trimming and
//! splitting.

use vstd::prelude::*;
use vstd::string::*;
use vstd::utf8::{decode_utf8, valid_utf8};

verus! {

/// `String::push` appends one character.
pub assume_specification[ String::push ](text: &mut String, c: char)
    ensures
        final(text)@ == old(text)@.push(c),
;

/// The characters with the Unicode property White_Space.
pub open spec fn white_space(c: char) -> bool {
    ||| '\u{9}' <= c <= '\u{d}'
    ||| c == '\u{20}'
    ||| c == '\u{85}'
    ||| c == '\u{a0}'
    ||| c == '\u{1680}'
    ||| '\u{2000}' <= c <= '\u{200a}'
    ||| c == '\u{2028}'
    ||| c == '\u{2029}'
    ||| c == '\u{202f}'
    ||| c == '\u{205f}'
    ||| c == '\u{3000}'
}

pub fn is_white_space(c: char) -> (answer: bool)
    ensures
        answer == white_space(c),
{
    match c {
        '\u{9}'..='\u{d}' => true,
        '\u{20}' | '\u{85}' | '\u{a0}' | '\u{1680}' => true,
        '\u{2000}'..='\u{200a}' => true,
        '\u{2028}' | '\u{2029}' | '\u{202f}' | '\u{205f}' | '\u{3000}' => true,
        _ => false,
    }
}

pub open spec fn digit_char(d: nat) -> char {
    (48 + d) as char
}

/// How a decoder describes what is wrong with bytes that are not UTF-8.
pub uninterp spec fn utf8_error(bytes: Seq<u8>) -> Seq<char>;

/// `String::from_utf8` accepts exactly the bytes that are UTF-8, and gives
/// their characters. How its error reads is left to the name.
#[verifier::external_body]
pub(crate) fn from_utf8(bytes: Vec<u8>) -> (text: Result<String, String>)
    ensures
        match text {
            Ok(text) => valid_utf8(bytes@) && text@ == decode_utf8(bytes@),
            Err(error) => !valid_utf8(bytes@) && error@ == utf8_error(bytes@),
        },
{
    String::from_utf8(bytes).map_err(|error| error.to_string())
}

/// The decimal digits of a natural number, most significant first.
pub open spec fn digits(n: nat) -> Seq<char>
    decreases n,
{
    if n < 10 {
        seq![digit_char(n)]
    } else {
        digits(n / 10).push(digit_char(n % 10))
    }
}

/// A whole number as people write it, with a minus sign where it is negative.
pub open spec fn decimal(n: int) -> Seq<char> {
    if n < 0 {
        seq!['-'] + digits((-n) as nat)
    } else {
        digits(n as nat)
    }
}

pub fn push_digits(out: &mut String, n: u128)
    ensures
        final(out)@ == old(out)@ + digits(n as nat),
    decreases n,
{
    if n >= 10 {
        push_digits(out, n / 10);
    }
    let d: u8 = (n % 10) as u8;
    let c: char = (48 + d) as char;
    assert(c == digit_char((n % 10) as nat));
    out.push(c);
    assert(out@ =~= old(out)@ + digits(n as nat));
}

pub fn push_decimal(out: &mut String, n: i64)
    ensures
        final(out)@ == old(out)@ + decimal(n as int),
{
    if n < 0 {
        out.push('-');
        push_digits(out, (-(n as i128)) as u128);
        assert(out@ =~= old(out)@ + decimal(n as int));
    } else {
        push_digits(out, n as u128);
    }
}

/// The characters of a text, one by one.
pub fn chars_of(text: &str) -> (chars: Vec<char>)
    ensures
        chars@ == text@,
{
    let mut chars: Vec<char> = Vec::new();
    for c in it: text.chars()
        invariant
            it.seq() == text@,
            chars@ == text@.take(it.index()),
    {
        chars.push(c);
        assert(text@.take(it.index() + 1) =~= text@.take(it.index()).push(c));
    }
    assert(text@.take(text@.len() as int) =~= text@);
    chars
}

pub fn text_of(chars: &[char]) -> (text: String)
    ensures
        text@ == chars@,
{
    let mut text = String::new();
    let mut i: usize = 0;
    while i < chars.len()
        invariant
            i <= chars@.len(),
            text@ == chars@.take(i as int),
        decreases chars@.len() - i,
    {
        text.push(chars[i]);
        assert(chars@.take(i + 1) =~= chars@.take(i as int).push(chars@[i as int]));
        i += 1;
    }
    assert(chars@.take(chars@.len() as int) =~= chars@);
    text
}

/// How `Debug` shows a string: in double quotes, with escapes.
pub uninterp spec fn debug_text(text: Seq<char>) -> Seq<char>;

/// `format!` with `{:?}` on a string puts it in double quotes and escapes
/// what needs it. Which characters are escaped, and how, is left to the name.
#[verifier::external_body]
pub(crate) fn debug_of(text: &str) -> (shown: String)
    ensures
        shown@ == debug_text(text@),
{
    format!("{:?}", text)
}

pub open spec fn lower_char(c: char) -> char {
    if 'A' <= c <= 'Z' {
        (c as u32 + 32) as char
    } else {
        c
    }
}

/// ASCII letters in lower case, everything else as it is.
pub open spec fn lower(text: Seq<char>) -> Seq<char> {
    text.map_values(|c: char| lower_char(c))
}

pub fn to_lower(chars: &[char]) -> (lowered: Vec<char>)
    ensures
        lowered@ == lower(chars@),
{
    let mut lowered: Vec<char> = Vec::new();
    let mut i: usize = 0;
    while i < chars.len()
        invariant
            i <= chars@.len(),
            lowered@ == lower(chars@.take(i as int)),
        decreases chars@.len() - i,
    {
        let c: char = chars[i];
        let l: char = if 'A' <= c && c <= 'Z' {
            (c as u8 + 32) as char
        } else {
            c
        };
        lowered.push(l);
        assert(lower(chars@.take(i + 1)) =~= lower(chars@.take(i as int)).push(l));
        i += 1;
    }
    assert(chars@.take(i as int) =~= chars@);
    lowered
}

/// Whether the characters spell `word`.
pub fn spells(chars: &[char], word: &str) -> (same: bool)
    ensures
        same == (chars@ == word@),
{
    let letters: Vec<char> = chars_of(word);
    if chars.len() != letters.len() {
        return false;
    }
    let mut i: usize = 0;
    while i < chars.len()
        invariant
            i <= chars@.len(),
            letters@ == word@,
            chars@.len() == letters@.len(),
            chars@.take(i as int) == letters@.take(i as int),
        decreases chars@.len() - i,
    {
        if chars[i] != letters[i] {
            assert(chars@[i as int] != letters@[i as int]);
            return false;
        }
        assert(chars@.take(i + 1) =~= chars@.take(i as int).push(chars@[i as int]));
        assert(letters@.take(i + 1) =~= letters@.take(i as int).push(letters@[i as int]));
        i += 1;
    }
    assert(chars@.take(i as int) =~= chars@);
    assert(letters@.take(i as int) =~= letters@);
    true
}

/// Without the white space at the start.
pub open spec fn trim_start(text: Seq<char>) -> Seq<char>
    decreases text.len(),
{
    if text.len() > 0 && white_space(text.first()) {
        trim_start(text.drop_first())
    } else {
        text
    }
}

/// Without the white space at the end.
pub open spec fn trim_end(text: Seq<char>) -> Seq<char>
    decreases text.len(),
{
    if text.len() > 0 && white_space(text.last()) {
        trim_end(text.drop_last())
    } else {
        text
    }
}

/// Without the white space at either end.
pub open spec fn trim(text: Seq<char>) -> Seq<char> {
    trim_end(trim_start(text))
}

pub fn trimmed(chars: &[char]) -> (inner: Vec<char>)
    ensures
        inner@ == trim(chars@),
{
    let mut start: usize = 0;
    assert(chars@.skip(0) =~= chars@);
    while start < chars.len() && is_white_space(chars[start])
        invariant
            start <= chars@.len(),
            trim_start(chars@) == trim_start(chars@.skip(start as int)),
        ensures
            start <= chars@.len(),
            trim_start(chars@) == chars@.skip(start as int),
        decreases chars@.len() - start,
    {
        assert(chars@.skip(start as int).first() == chars@[start as int]);
        assert(chars@.skip(start as int).drop_first() =~= chars@.skip(start + 1));
        start += 1;
    }
    let mut end: usize = chars.len();
    let ghost tail = chars@.skip(start as int);
    assert(tail.take(end - start) =~= tail);
    while start < end && is_white_space(chars[end - 1])
        invariant
            start <= end <= chars@.len(),
            tail == chars@.skip(start as int),
            trim_end(tail) == trim_end(tail.take(end - start)),
        ensures
            start <= end <= chars@.len(),
            trim_end(tail) == tail.take(end - start),
        decreases end,
    {
        assert(tail.take(end - start).last() == chars@[end - 1]);
        assert(tail.take(end - start).drop_last() =~= tail.take(end - 1 - start));
        end -= 1;
    }
    let mut inner: Vec<char> = Vec::new();
    let mut i: usize = start;
    while i < end
        invariant
            start <= i <= end <= chars@.len(),
            tail == chars@.skip(start as int),
            inner@ == tail.take(i - start),
        decreases end - i,
    {
        inner.push(chars[i]);
        assert(tail.take(i + 1 - start) =~= tail.take(i - start).push(chars@[i as int]));
        i += 1;
    }
    inner
}

/// The pieces between separators; a text without one is a single piece.
pub open spec fn split_on(text: Seq<char>, separator: char) -> Seq<Seq<char>>
    decreases text.len(),
{
    if text.len() == 0 {
        seq![Seq::<char>::empty()]
    } else {
        let before = split_on(text.drop_last(), separator);
        if text.last() == separator {
            before.push(Seq::<char>::empty())
        } else {
            before.drop_last().push(before.last().push(text.last()))
        }
    }
}

/// The pieces, trimmed, without those that are blank.
pub open spec fn nonblank(pieces: Seq<Seq<char>>) -> Seq<Seq<char>>
    decreases pieces.len(),
{
    if pieces.len() == 0 {
        Seq::empty()
    } else {
        let before = nonblank(pieces.drop_last());
        let piece = trim(pieces.last());
        if piece.len() == 0 {
            before
        } else {
            before.push(piece)
        }
    }
}

pub open spec fn views(words: Seq<Vec<char>>) -> Seq<Seq<char>> {
    words.map_values(|word: Vec<char>| word@)
}

proof fn lemma_split_on_nonempty(text: Seq<char>, separator: char)
    ensures
        split_on(text, separator).len() > 0,
    decreases text.len(),
{
    if text.len() > 0 {
        lemma_split_on_nonempty(text.drop_last(), separator);
    }
}

/// The trimmed pieces between separators that are not blank.
pub fn words_between(chars: &[char], separator: char) -> (words: Vec<Vec<char>>)
    ensures
        views(words@) == nonblank(split_on(chars@, separator)),
{
    let mut words: Vec<Vec<char>> = Vec::new();
    let mut piece: Vec<char> = Vec::new();
    let mut i: usize = 0;
    assert(split_on(chars@.take(0), separator).drop_last() =~= Seq::<Seq<char>>::empty());
    assert(views(words@) =~= Seq::<Seq<char>>::empty());
    assert(piece@ =~= split_on(chars@.take(0), separator).last());
    while i < chars.len()
        invariant
            i <= chars@.len(),
            piece@ == split_on(chars@.take(i as int), separator).last(),
            views(words@) == nonblank(split_on(chars@.take(i as int), separator).drop_last()),
        decreases chars@.len() - i,
    {
        let ghost before = split_on(chars@.take(i as int), separator);
        let ghost after = split_on(chars@.take(i + 1), separator);
        proof {
            assert(chars@.take(i + 1).drop_last() =~= chars@.take(i as int));
            lemma_split_on_nonempty(chars@.take(i as int), separator);
        }
        if chars[i] == separator {
            proof {
                assert(after == before.push(Seq::<char>::empty()));
                assert(after.drop_last() =~= before);
            }
            let word: Vec<char> = trimmed(&piece);
            if word.len() > 0 {
                let ghost old_words = words@;
                words.push(word);
                assert(views(words@) =~= views(old_words).push(word@));
            }
            piece = Vec::new();
        } else {
            proof {
                assert(after.drop_last() =~= before.drop_last());
            }
            piece.push(chars[i]);
        }
        i += 1;
    }
    proof {
        assert(chars@.take(i as int) =~= chars@);
        lemma_split_on_nonempty(chars@, separator);
    }
    let word: Vec<char> = trimmed(&piece);
    if word.len() > 0 {
        let ghost old_words = words@;
        words.push(word);
        assert(views(words@) =~= views(old_words).push(word@));
    }
    words
}

/// Different numbers have different digits.
pub proof fn lemma_digits_are_injective(a: nat, b: nat)
    requires
        a != b,
    ensures
        digits(a) != digits(b),
    decreases a,
{
    if digits(a) == digits(b) {
        lemma_digits_nonempty(a / 10);
        lemma_digits_nonempty(b / 10);
        assert(digits(a).last() == digits(b).last());
        assert(digit_char(a % 10) == digits(a).last());
        assert(digit_char(b % 10) == digits(b).last());
        if a >= 10 && b >= 10 {
            assert(digits(a).drop_last() =~= digits(a / 10));
            assert(digits(b).drop_last() =~= digits(b / 10));
            if a / 10 != b / 10 {
                lemma_digits_are_injective(a / 10, b / 10);
            }
        } else if a >= 10 {
            assert(digits(a).len() > 1);
        } else if b >= 10 {
            assert(digits(b).len() > 1);
        }
    }
}

proof fn lemma_digits_nonempty(n: nat)
    ensures
        digits(n).len() > 0,
    decreases n,
{
    if n >= 10 {
        lemma_digits_nonempty(n / 10);
    }
}

/// The number that decimal digits write.
pub open spec fn number_written(digits: Seq<char>) -> int
    decreases digits.len(),
{
    if digits.len() == 0 {
        0
    } else {
        number_written(digits.drop_last()) * 10 + (digits.last() as int - '0' as int)
    }
}

/// The digits of a number write that number. There is at least one of them,
/// all are decimal digits, and the first is zero for zero alone.
pub proof fn lemma_digits_spell_the_number(n: nat)
    ensures
        number_written(digits(n)) == n,
        digits(n).len() > 0,
        forall|i: int| 0 <= i < digits(n).len() ==> '0' <= #[trigger] digits(n)[i] <= '9',
        digits(n)[0] == '0' <==> n == 0,
    decreases n,
{
    let all = digits(n);
    if n < 10 {
        reveal_with_fuel(number_written, 2);
        assert(all.drop_last() =~= Seq::<char>::empty());
    } else {
        let rest = digits(n / 10);
        lemma_digits_spell_the_number(n / 10);
        assert(all.drop_last() =~= rest);
        assert(all.last() == digit_char(n % 10));
        assert(all[0] == rest[0]);
        assert forall|i: int| 0 <= i < all.len() implies '0' <= #[trigger] all[i] <= '9' by {
            if i < rest.len() {
                assert(all[i] == rest[i]);
            }
        }
    }
}

/// A whole number is written by the digits of its size, after a minus sign
/// where it is negative and after nothing where it is not.
pub proof fn lemma_decimal_writes_the_number(n: int)
    ensures
        n >= 0 ==> number_written(decimal(n)) == n && decimal(n)[0] != '-',
        n < 0 ==> decimal(n)[0] == '-' && number_written(decimal(n).skip(1)) == -n,
{
    if n >= 0 {
        lemma_digits_spell_the_number(n as nat);
    } else {
        lemma_digits_spell_the_number((-n) as nat);
        assert(decimal(n).skip(1) =~= digits((-n) as nat));
    }
}

pub open spec fn is_blank(text: Seq<char>) -> bool {
    forall|i: int| 0 <= i < text.len() ==> white_space(#[trigger] text[i])
}

proof fn lemma_trim_start(text: Seq<char>) -> (cut: int)
    ensures
        0 <= cut <= text.len(),
        trim_start(text) == text.skip(cut),
        is_blank(text.take(cut)),
        cut < text.len() ==> !white_space(text[cut]),
    decreases text.len(),
{
    if text.len() > 0 && white_space(text.first()) {
        let rest = text.drop_first();
        let cut = lemma_trim_start(rest);
        assert(rest.skip(cut) =~= text.skip(cut + 1));
        assert forall|i: int| 0 <= i < cut + 1 implies white_space(
            #[trigger] text.take(cut + 1)[i],
        ) by {
            if i > 0 {
                assert(rest.take(cut)[i - 1] == text[i]);
            }
        }
        if cut < rest.len() {
            assert(rest[cut] == text[cut + 1]);
        }
        cut + 1
    } else {
        assert(text.skip(0) =~= text);
        0
    }
}

proof fn lemma_trim_end(text: Seq<char>) -> (kept: int)
    ensures
        0 <= kept <= text.len(),
        trim_end(text) == text.take(kept),
        is_blank(text.skip(kept)),
        kept > 0 ==> !white_space(text[kept - 1]),
    decreases text.len(),
{
    if text.len() > 0 && white_space(text.last()) {
        let rest = text.drop_last();
        let kept = lemma_trim_end(rest);
        assert(rest.take(kept) =~= text.take(kept));
        assert forall|i: int| 0 <= i < text.skip(kept).len() implies white_space(
            #[trigger] text.skip(kept)[i],
        ) by {
            if i < rest.skip(kept).len() {
                assert(rest.skip(kept)[i] == text.skip(kept)[i]);
            }
        }
        kept
    } else {
        assert(text.take(text.len() as int) =~= text);
        text.len() as int
    }
}

/// Trimming takes away white space from both ends, all of it, and nothing
/// else.
pub proof fn lemma_trim(text: Seq<char>)
    ensures
        exists|start: int, end: int|
            0 <= start <= end <= text.len() && trim(text) == #[trigger] text.subrange(start, end)
                && is_blank(text.take(start)) && is_blank(text.skip(end)),
        trim(text).len() > 0 ==> !white_space(trim(text).first()) && !white_space(
            trim(text).last(),
        ),
        trim(text).len() == 0 <==> is_blank(text),
{
    let start = lemma_trim_start(text);
    let rest = text.skip(start);
    let kept = lemma_trim_end(rest);
    let end = start + kept;
    assert(trim(text) =~= text.subrange(start, end));
    assert(rest.skip(kept) =~= text.skip(end));
    if trim(text).len() > 0 {
        assert(trim(text).first() == text[start]);
        assert(trim(text).last() == rest[kept - 1]);
        assert(!white_space(text[start]));
    }
    if trim(text).len() == 0 {
        assert forall|i: int| 0 <= i < text.len() implies white_space(#[trigger] text[i]) by {
            if i < start {
                assert(text.take(start)[i] == text[i]);
            } else {
                assert(text.skip(end)[i - end] == text[i]);
            }
        }
    }
}

/// Pieces, put together again with separators between them.
pub open spec fn spliced(pieces: Seq<Seq<char>>, separator: char) -> Seq<char>
    decreases pieces.len(),
{
    if pieces.len() == 0 {
        Seq::empty()
    } else if pieces.len() == 1 {
        pieces[0]
    } else {
        spliced(pieces.drop_last(), separator).push(separator) + pieces.last()
    }
}

/// The pieces of a text hold no separator, and with separators between them
/// they are the text.
pub proof fn lemma_split_pieces_make_the_text(text: Seq<char>, separator: char)
    ensures
        spliced(split_on(text, separator), separator) == text,
        forall|i: int|
            0 <= i < split_on(text, separator).len() ==> !(#[trigger] split_on(
                text,
                separator,
            )[i]).contains(separator),
        split_on(text, separator).len() > 0,
    decreases text.len(),
{
    let pieces = split_on(text, separator);
    if text.len() == 0 {
        assert(pieces[0] =~= text);
    } else {
        let rest = text.drop_last();
        let before = split_on(rest, separator);
        lemma_split_pieces_make_the_text(rest, separator);
        if text.last() == separator {
            assert(pieces.drop_last() =~= before);
            assert(spliced(pieces, separator) =~= text);
            assert forall|i: int| 0 <= i < pieces.len() implies !(#[trigger] pieces[i]).contains(
                separator,
            ) by {
                if i < before.len() {
                    assert(pieces[i] == before[i]);
                }
            }
        } else {
            assert(pieces.drop_last() =~= before.drop_last());
            assert(pieces.last() == before.last().push(text.last()));
            if before.len() == 1 {
                assert(before.last() == before[0]);
                assert(pieces[0] =~= text);
            } else {
                let start = spliced(before.drop_last(), separator).push(separator);
                assert(rest == start + before.last());
                assert(start + pieces.last() =~= rest.push(text.last()));
                assert(rest.push(text.last()) =~= text);
            }
            assert forall|i: int| 0 <= i < pieces.len() implies !(#[trigger] pieces[i]).contains(
                separator,
            ) by {
                if i < before.len() - 1 {
                    assert(pieces[i] == before[i]);
                } else {
                    let last = before[before.len() - 1];
                    assert(!last.contains(separator));
                    if pieces[i].contains(separator) {
                        let k = choose|k: int|
                            0 <= k < pieces[i].len() && pieces[i][k] == separator;
                        assert(last[k] == separator);
                    }
                }
            }
        }
    }
}

/// Blank pieces are left out and the others are trimmed, each in its place.
pub proof fn lemma_nonblank(first: Seq<Seq<char>>, second: Seq<Seq<char>>, piece: Seq<char>)
    ensures
        nonblank(first + second) == nonblank(first) + nonblank(second),
        is_blank(piece) ==> nonblank(seq![piece]) == Seq::<Seq<char>>::empty(),
        !is_blank(piece) ==> nonblank(seq![piece]) == seq![trim(piece)],
    decreases second.len(),
{
    reveal_with_fuel(nonblank, 2);
    lemma_trim(piece);
    assert(seq![piece].drop_last() =~= Seq::<Seq<char>>::empty());
    assert(nonblank(seq![piece]) =~= if is_blank(piece) {
        Seq::<Seq<char>>::empty()
    } else {
        seq![trim(piece)]
    });
    let both = first + second;
    if second.len() == 0 {
        assert(both =~= first);
        assert(nonblank(first) + nonblank(second) =~= nonblank(first));
    } else {
        let rest = second.drop_last();
        lemma_nonblank(first, rest, piece);
        assert(both.drop_last() =~= first + rest);
        assert(both.last() == second.last());
        assert(nonblank(both) =~= nonblank(first) + nonblank(second));
    }
}

/// Lower case changes the letters from A to Z alone, each to its own, and a
/// text in lower case not at all.
pub proof fn lemma_lower(text: Seq<char>)
    ensures
        lower(text).len() == text.len(),
        forall|i: int|
            0 <= i < text.len() ==> if 'A' <= text[i] <= 'Z' {
                #[trigger] lower(text)[i] as int - 'a' as int == text[i] as int - 'A' as int
            } else {
                lower(text)[i] == text[i]
            },
        lower(lower(text)) == lower(text),
{
    assert(lower(lower(text)) =~= lower(text));
}

} // verus!
