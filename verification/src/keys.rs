//! Keyboard mapping shared by both targets.
//!
//! Every key is expressed as a Linux evdev code. The XKB keycode used by the
//! virtual keyboard protocol is `evdev + 8`. The US layout is compiled once at
//! startup; what it holds comes in as a [`Layout`], and the keysyms of names
//! and characters come in as numbers.

use std::collections::HashMap;

use vstd::prelude::*;
use vstd::string::*;

use crate::text::{
    chars_of, debug_of, debug_text, lower, nonblank, spells, spliced, split_on, text_of, to_lower,
    trim, views, words_between,
};

verus! {

broadcast use vstd::std_specs::hash::group_hash_axioms;

pub const XKB_OFFSET: u32 = 8;

/// The index that stands for a modifier which the layout does not have.
pub const MOD_INVALID: u32 = 0xffff_ffff;

#[derive(Debug, Clone, Copy, PartialEq, Eq, Hash, Structural)]
pub enum Modifier {
    Ctrl,
    Shift,
    Alt,
    Super,
}

/// The modifier that a word names, in whatever case its letters are.
pub open spec fn modifier_named(word: Seq<char>) -> Option<Modifier> {
    let name = lower(word);
    if name == "ctrl"@ || name == "control"@ {
        Some(Modifier::Ctrl)
    } else if name == "shift"@ {
        Some(Modifier::Shift)
    } else if name == "alt"@ || name == "option"@ {
        Some(Modifier::Alt)
    } else if name == "super"@ || name == "meta"@ || name == "win"@ || name == "cmd"@ || name
        == "logo"@ {
        Some(Modifier::Super)
    } else {
        None
    }
}

impl Modifier {
    pub open spec fn keysym_text(self) -> Seq<char> {
        match self {
            Modifier::Ctrl => "Control_L"@,
            Modifier::Shift => "Shift_L"@,
            Modifier::Alt => "Alt_L"@,
            Modifier::Super => "Super_L"@,
        }
    }

    /// The name of the keysym of the left key of this modifier.
    pub fn keysym_name(self) -> (name: &'static str)
        ensures
            name@ == self.keysym_text(),
    {
        match self {
            Modifier::Ctrl => "Control_L",
            Modifier::Shift => "Shift_L",
            Modifier::Alt => "Alt_L",
            Modifier::Super => "Super_L",
        }
    }

    pub open spec fn xkb_text(self) -> Seq<char> {
        match self {
            Modifier::Ctrl => "Control"@,
            Modifier::Shift => "Shift"@,
            Modifier::Alt => "Mod1"@,
            Modifier::Super => "Mod4"@,
        }
    }

    /// The name by which a layout knows this modifier.
    pub fn xkb_name(self) -> (name: &'static str)
        ensures
            name@ == self.xkb_text(),
    {
        match self {
            Modifier::Ctrl => "Control",
            Modifier::Shift => "Shift",
            Modifier::Alt => "Mod1",
            Modifier::Super => "Mod4",
        }
    }

    pub fn parse(token: &[char]) -> (modifier: Option<Modifier>)
        ensures
            modifier == modifier_named(token@),
    {
        let name: Vec<char> = to_lower(token);
        if spells(&name, "ctrl") || spells(&name, "control") {
            Some(Modifier::Ctrl)
        } else if spells(&name, "shift") {
            Some(Modifier::Shift)
        } else if spells(&name, "alt") || spells(&name, "option") {
            Some(Modifier::Alt)
        } else if spells(&name, "super") || spells(&name, "meta") || spells(&name, "win")
            || spells(&name, "cmd") || spells(&name, "logo") {
            Some(Modifier::Super)
        } else {
            None
        }
    }
}

/// One key press: the evdev code and whether Shift must be held.
#[derive(Debug, Clone, Copy, PartialEq, Eq, Structural)]
pub struct KeyStroke {
    pub evdev: u16,
    pub shift: bool,
}

/// The modifiers to hold, in the order in which they are pressed, and the key
/// to press with them.
#[derive(Debug, Clone, PartialEq, Eq)]
pub struct Combo {
    pub modifiers: Vec<Modifier>,
    pub key: u16,
}

#[derive(Debug, Clone, PartialEq, Eq)]
pub enum TextRun {
    Typed(Vec<KeyStroke>),
    Pasted(String),
}

/// The keysyms that a key name stands for: as it is written, and in lower
/// case, both without regard to case. Zero stands for none.
#[derive(Debug, Clone, Copy, PartialEq, Eq, Structural)]
pub struct NameSyms {
    pub exact: u32,
    pub lower: u32,
}

/// A character and the keysym that stands for it, zero for none.
#[derive(Debug, Clone, Copy, PartialEq, Eq, Structural)]
pub struct CharSym {
    pub c: char,
    pub sym: u32,
}

/// The keysyms of the names that the mapping itself looks up.
#[derive(Debug, Clone, Copy, PartialEq, Eq, Structural)]
pub struct KnownNames {
    /// `Return`, spelled exactly so.
    pub enter: u32,
    /// `Tab`, spelled exactly so.
    pub tab: u32,
    /// `v`, the key of the paste combo.
    pub paste: NameSyms,
    pub control_l: NameSyms,
    pub shift_l: NameSyms,
    pub alt_l: NameSyms,
    pub super_l: NameSyms,
}

impl KnownNames {
    pub open spec fn of(self, modifier: Modifier) -> NameSyms {
        match modifier {
            Modifier::Ctrl => self.control_l,
            Modifier::Shift => self.shift_l,
            Modifier::Alt => self.alt_l,
            Modifier::Super => self.super_l,
        }
    }
}

/// One number for each modifier.
#[derive(Debug, Clone, Copy, PartialEq, Eq, Structural)]
pub struct PerModifier {
    pub ctrl: u32,
    pub shift: u32,
    pub alt: u32,
    pub logo: u32,
}

impl PerModifier {
    pub open spec fn of(self, modifier: Modifier) -> u32 {
        match modifier {
            Modifier::Ctrl => self.ctrl,
            Modifier::Shift => self.shift,
            Modifier::Alt => self.alt,
            Modifier::Super => self.logo,
        }
    }

    pub fn get(&self, modifier: Modifier) -> (value: u32)
        ensures
            value == self.of(modifier),
    {
        match modifier {
            Modifier::Ctrl => self.ctrl,
            Modifier::Shift => self.shift,
            Modifier::Alt => self.alt,
            Modifier::Super => self.logo,
        }
    }
}

/// What a compiled keyboard layout holds.
#[derive(Debug)]
pub struct Layout {
    /// The layout in XKB text form.
    pub text: String,
    pub min_keycode: u32,
    /// The keysyms of each keycode from the lowest on, without Shift.
    pub plain: Vec<Vec<u32>>,
    /// The keysyms of each keycode from the lowest on, with Shift.
    pub shifted: Vec<Vec<u32>>,
    /// The index of each modifier, or [`MOD_INVALID`].
    pub modifier_indices: PerModifier,
    pub names: KnownNames,
}

/// The evdev code of an XKB keycode, where it has one.
pub open spec fn evdev_of(keycode: int) -> Option<u16> {
    if XKB_OFFSET <= keycode <= u16::MAX + XKB_OFFSET {
        Some((keycode - XKB_OFFSET) as u16)
    } else {
        None
    }
}

/// The lowest of the first `n` keycodes with an evdev code whose key has
/// `sym` on this level.
pub open spec fn first_key(level: Seq<Vec<u32>>, min_keycode: u32, sym: u32, n: nat) -> Option<u16>
    decreases n,
{
    if n == 0 {
        None
    } else {
        match first_key(level, min_keycode, sym, (n - 1) as nat) {
            Some(code) => Some(code),
            None => if level[n - 1]@.contains(sym) {
                evdev_of(min_keycode + n - 1)
            } else {
                None
            },
        }
    }
}

impl Layout {
    /// The stroke that gives a keysym: without Shift where a key has it so,
    /// else with Shift, and of several keys the one of the lowest keycode.
    pub open spec fn stroke(self, sym: u32) -> Option<KeyStroke> {
        match first_key(self.plain@, self.min_keycode, sym, self.plain@.len()) {
            Some(evdev) => Some(KeyStroke { evdev, shift: false }),
            None => match first_key(self.shifted@, self.min_keycode, sym, self.shifted@.len()) {
                Some(evdev) => Some(KeyStroke { evdev, shift: true }),
                None => None,
            },
        }
    }

    /// Every modifier that the layout has fits in a mask.
    pub open spec fn modifiers_fit(self) -> bool {
        forall|modifier: Modifier| #[trigger]
            self.modifier_indices.of(modifier) < 32 || self.modifier_indices.of(modifier)
                == MOD_INVALID
    }

    /// The mask of a modifier: the bit of its index, or none.
    pub open spec fn mask(self, modifier: Modifier) -> u32 {
        index_mask(self.modifier_indices.of(modifier))
    }
}

pub open spec fn index_mask(index: u32) -> u32 {
    if index == MOD_INVALID {
        0
    } else {
        1u32 << index
    }
}

fn mask_of_index(index: u32) -> (mask: u32)
    requires
        index < 32 || index == MOD_INVALID,
    ensures
        mask == index_mask(index),
{
    if index == MOD_INVALID {
        0
    } else {
        1u32 << index
    }
}

/// A layout made ready for look-ups.
pub struct KeyMap {
    text: String,
    /// The stroke of each keysym; the lowest shift level wins.
    by_keysym: HashMap<u32, KeyStroke>,
    modifier_masks: PerModifier,
    names: KnownNames,
}

pub struct KeyMapModel {
    pub text: Seq<char>,
    pub strokes: Map<u32, KeyStroke>,
    pub masks: PerModifier,
    pub names: KnownNames,
}

impl View for KeyMap {
    type V = KeyMapModel;

    closed spec fn view(&self) -> KeyMapModel {
        KeyMapModel {
            text: self.text@,
            strokes: self.by_keysym@,
            masks: self.modifier_masks,
            names: self.names,
        }
    }
}

pub struct ComboModel {
    pub modifiers: Seq<Modifier>,
    pub key: u16,
}

impl View for Combo {
    type V = ComboModel;

    open spec fn view(&self) -> ComboModel {
        ComboModel { modifiers: self.modifiers@, key: self.key }
    }
}

pub enum RunModel {
    Typed(Seq<KeyStroke>),
    Pasted(Seq<char>),
}

impl View for TextRun {
    type V = RunModel;

    open spec fn view(&self) -> RunModel {
        match *self {
            TextRun::Typed(strokes) => RunModel::Typed(strokes@),
            TextRun::Pasted(text) => RunModel::Pasted(text@),
        }
    }
}

pub open spec fn run_views(runs: Seq<TextRun>) -> Seq<RunModel> {
    runs.map_values(|run: TextRun| run@)
}

/// The words of a combo: what stands between the plus signs, trimmed, without
/// what is blank.
pub open spec fn combo_words(combo: Seq<char>) -> Seq<Seq<char>> {
    nonblank(split_on(combo, '+'))
}

/// The word of a combo that is looked up as a key name: the last, where it is
/// no modifier and all before it are modifiers, each given once.
pub open spec fn key_word(combo: Seq<char>) -> Option<Seq<char>> {
    let words = combo_words(combo);
    if words.len() > 0 && modifier_named(words.last()) is None && are_distinct_modifiers(
        words.drop_last(),
    ) {
        Some(words.last())
    } else {
        None
    }
}

pub open spec fn are_distinct_modifiers(words: Seq<Seq<char>>) -> bool {
    &&& forall|i: int| 0 <= i < words.len() ==> (#[trigger] modifier_named(words[i])) is Some
    &&& forall|i: int, j: int|
        0 <= i < j < words.len() ==> #[trigger] modifier_named(words[i])
            != #[trigger] modifier_named(words[j])
}

/// The modifiers and the key found in the first words of a combo.
pub struct ComboState {
    pub modifiers: Seq<Modifier>,
    pub key: Option<u16>,
}

impl KeyMapModel {
    pub open spec fn key_of(self, syms: NameSyms) -> Option<u16> {
        if syms.exact != 0 && self.strokes.contains_key(syms.exact) {
            Some(self.strokes[syms.exact].evdev)
        } else if syms.lower != 0 && self.strokes.contains_key(syms.lower) {
            Some(self.strokes[syms.lower].evdev)
        } else {
            None
        }
    }

    /// The keysym that types a character: both line ends are Return.
    pub open spec fn sym_of(self, typed: CharSym) -> u32 {
        if typed.c == '\n' || typed.c == '\r' {
            self.names.enter
        } else if typed.c == '\t' {
            self.names.tab
        } else {
            typed.sym
        }
    }

    pub open spec fn stroke_of(self, typed: CharSym) -> Option<KeyStroke> {
        if self.strokes.contains_key(self.sym_of(typed)) {
            Some(self.strokes[self.sym_of(typed)])
        } else {
            None
        }
    }

    pub open spec fn modifier_key(self, modifier: Modifier) -> Result<u16, Seq<char>> {
        match self.key_of(self.names.of(modifier)) {
            Some(key) => Ok(key),
            None => Err("US keymap has no key for "@ + modifier.keysym_text()),
        }
    }

    pub open spec fn mask(self, modifiers: Seq<Modifier>) -> u32
        decreases modifiers.len(),
    {
        if modifiers.len() == 0 {
            0
        } else {
            self.mask(modifiers.drop_last()) | self.masks.of(modifiers.last())
        }
    }

    /// What the first `n` words of a combo come to, with the keysyms of its
    /// key name given.
    pub open spec fn combo_prefix(self, combo: Seq<char>, syms: NameSyms, n: nat) -> Result<
        ComboState,
        Seq<char>,
    >
        decreases n,
    {
        let words = combo_words(combo);
        if n == 0 {
            Ok(ComboState { modifiers: Seq::empty(), key: None })
        } else {
            match self.combo_prefix(combo, syms, (n - 1) as nat) {
                Err(error) => Err(error),
                Ok(state) => match modifier_named(words[n - 1]) {
                    Some(modifier) => if words.len() == 1 {
                        match self.modifier_key(modifier) {
                            Ok(key) => Ok(ComboState { key: Some(key), ..state }),
                            Err(error) => Err(error),
                        }
                    } else if state.modifiers.contains(modifier) {
                        Err("modifier "@ + words[n - 1] + " repeated in "@ + debug_text(combo))
                    } else {
                        Ok(ComboState { modifiers: state.modifiers.push(modifier), ..state })
                    },
                    None => if n != words.len() {
                        Err(
                            debug_text(words[n - 1]) + " in "@ + debug_text(combo)
                                + " is not a modifier; only the last token may be a key"@,
                        )
                    } else {
                        match self.key_of(syms) {
                            Some(key) => Ok(ComboState { key: Some(key), ..state }),
                            None => Err(
                                "unknown key name "@ + debug_text(words[n - 1]) + " in "@
                                    + debug_text(combo),
                            ),
                        }
                    },
                },
            }
        }
    }

    /// What a combo comes to.
    pub open spec fn combo(self, combo: Seq<char>, syms: NameSyms) -> Result<ComboModel, Seq<char>> {
        let words = combo_words(combo);
        if words.len() == 0 {
            Err("key combo is empty"@)
        } else {
            match self.combo_prefix(combo, syms, words.len()) {
                Err(error) => Err(error),
                Ok(state) => match state.key {
                    Some(key) => Ok(ComboModel { modifiers: state.modifiers, key }),
                    None => Err("key combo "@ + debug_text(combo) + " has no key"@),
                },
            }
        }
    }

    /// The runs of a text: a character joins the run before it where both are
    /// typed or both are pasted, and starts a new one otherwise.
    pub open spec fn runs(self, text: Seq<CharSym>) -> Seq<RunModel>
        decreases text.len(),
    {
        if text.len() == 0 {
            Seq::empty()
        } else {
            let before = self.runs(text.drop_last());
            match self.stroke_of(text.last()) {
                Some(stroke) => if before.len() > 0 && before.last() is Typed {
                    before.drop_last().push(
                        RunModel::Typed(before.last()->Typed_0.push(stroke)),
                    )
                } else {
                    before.push(RunModel::Typed(seq![stroke]))
                },
                None => if before.len() > 0 && before.last() is Pasted {
                    before.drop_last().push(
                        RunModel::Pasted(before.last()->Pasted_0.push(text.last().c)),
                    )
                } else {
                    before.push(RunModel::Pasted(seq![text.last().c]))
                },
            }
        }
    }
}

impl KeyMap {
    /// The mapping of a layout.
    pub fn from_layout(layout: Layout) -> (map: KeyMap)
        requires
            layout.modifiers_fit(),
        ensures
            map@.text == layout.text@,
            forall|sym: u32| #[trigger] map@.strokes.get(sym) == layout.stroke(sym),
            forall|modifier: Modifier| #[trigger] map@.masks.of(modifier) == layout.mask(modifier),
            map@.names == layout.names,
    {
        let mut by_keysym: HashMap<u32, KeyStroke> = HashMap::new();
        add_level(&mut by_keysym, &layout.plain, layout.min_keycode, false);
        let ghost plain = by_keysym@;
        add_level(&mut by_keysym, &layout.shifted, layout.min_keycode, true);
        let indices = layout.modifier_indices;
        proof {
            assert(indices.of(Modifier::Ctrl) == indices.ctrl);
            assert(indices.of(Modifier::Shift) == indices.shift);
            assert(indices.of(Modifier::Alt) == indices.alt);
            assert(indices.of(Modifier::Super) == indices.logo);
        }
        let modifier_masks = PerModifier {
            ctrl: mask_of_index(indices.ctrl),
            shift: mask_of_index(indices.shift),
            alt: mask_of_index(indices.alt),
            logo: mask_of_index(indices.logo),
        };
        let map = KeyMap { text: layout.text, by_keysym, modifier_masks, names: layout.names };
        proof {
            assert forall|sym: u32| #[trigger] map@.strokes.get(sym) == layout.stroke(sym) by {
                assert(plain.get(sym) == with_level(
                    Map::empty().get(sym),
                    layout.plain@,
                    layout.min_keycode,
                    sym,
                    false,
                    layout.plain@.len(),
                ));
            }
        }
        map
    }

    /// XKB keymap text, installed on the sandbox virtual keyboard.
    pub fn text(&self) -> (text: &str)
        ensures
            text@ == self@.text,
    {
        self.text.as_str()
    }

    /// Keystroke that produces a character on the layout, if any.
    pub fn char_stroke(&self, typed: CharSym) -> (stroke: Option<KeyStroke>)
        ensures
            stroke == self@.stroke_of(typed),
    {
        let sym: u32 = if typed.c == '\n' || typed.c == '\r' {
            self.names.enter
        } else if typed.c == '\t' {
            self.names.tab
        } else {
            typed.sym
        };
        match self.by_keysym.get(&sym) {
            Some(stroke) => Some(*stroke),
            None => None,
        }
    }

    /// Evdev code for the keysyms of a name such as `Return`, `F4`, `a`.
    pub fn named_key(&self, syms: NameSyms) -> (key: Option<u16>)
        ensures
            key == self@.key_of(syms),
    {
        if syms.exact != 0 {
            if let Some(stroke) = self.by_keysym.get(&syms.exact) {
                return Some(stroke.evdev);
            }
        }
        if syms.lower != 0 {
            if let Some(stroke) = self.by_keysym.get(&syms.lower) {
                return Some(stroke.evdev);
            }
        }
        None
    }

    pub fn modifier_evdev(&self, modifier: Modifier) -> (key: Result<u16, String>)
        ensures
            match key {
                Ok(key) => self@.modifier_key(modifier) == Ok::<u16, Seq<char>>(key),
                Err(error) => self@.modifier_key(modifier) == Err::<u16, Seq<char>>(error@),
            },
    {
        let syms = match modifier {
            Modifier::Ctrl => self.names.control_l,
            Modifier::Shift => self.names.shift_l,
            Modifier::Alt => self.names.alt_l,
            Modifier::Super => self.names.super_l,
        };
        match self.named_key(syms) {
            Some(key) => Ok(key),
            None => {
                let mut error = "US keymap has no key for ".to_owned();
                error.append(modifier.keysym_name());
                Err(error)
            },
        }
    }

    /// XKB modifier mask for the virtual keyboard `modifiers` request.
    pub fn modifier_mask(&self, modifiers: &[Modifier]) -> (mask: u32)
        ensures
            mask == self@.mask(modifiers@),
    {
        let mut mask: u32 = 0;
        let mut i: usize = 0;
        while i < modifiers.len()
            invariant
                i <= modifiers@.len(),
                mask == self@.mask(modifiers@.take(i as int)),
            decreases modifiers@.len() - i,
        {
            assert(modifiers@.take(i + 1).drop_last() =~= modifiers@.take(i as int));
            mask = mask | self.modifier_masks.get(modifiers[i]);
            i += 1;
        }
        assert(modifiers@.take(i as int) =~= modifiers@);
        mask
    }
}

/// The stroke of a keysym after the first `n` keys of a level were added:
/// what was there before stays.
pub open spec fn with_level(
    before: Option<KeyStroke>,
    level: Seq<Vec<u32>>,
    min_keycode: u32,
    sym: u32,
    shift: bool,
    n: nat,
) -> Option<KeyStroke> {
    match before {
        Some(stroke) => Some(stroke),
        None => match first_key(level, min_keycode, sym, n) {
            Some(evdev) => Some(KeyStroke { evdev, shift }),
            None => None,
        },
    }
}

fn add_level(
    by_keysym: &mut HashMap<u32, KeyStroke>,
    level: &Vec<Vec<u32>>,
    min_keycode: u32,
    shift: bool,
)
    ensures
        forall|sym: u32| #[trigger]
            final(by_keysym)@.get(sym) == with_level(
                old(by_keysym)@.get(sym),
                level@,
                min_keycode,
                sym,
                shift,
                level@.len(),
            ),
{
    let ghost start = by_keysym@;
    let mut i: usize = 0;
    while i < level.len()
        invariant
            i <= level@.len(),
            forall|sym: u32| #[trigger]
                by_keysym@.get(sym) == with_level(
                    start.get(sym),
                    level@,
                    min_keycode,
                    sym,
                    shift,
                    i as nat,
                ),
        decreases level@.len() - i,
    {
        let keycode: u128 = min_keycode as u128 + i as u128;
        if keycode >= XKB_OFFSET as u128 && keycode - XKB_OFFSET as u128 <= u16::MAX as u128 {
            let evdev: u16 = (keycode - XKB_OFFSET as u128) as u16;
            let syms: &Vec<u32> = &level[i];
            let ghost before = by_keysym@;
            let mut j: usize = 0;
            while j < syms.len()
                invariant
                    j <= syms@.len(),
                    forall|sym: u32| #[trigger]
                        by_keysym@.get(sym) == if before.get(sym) is None && syms@.take(
                            j as int,
                        ).contains(sym) {
                            Some(KeyStroke { evdev, shift })
                        } else {
                            before.get(sym)
                        },
                decreases syms@.len() - j,
            {
                let sym: u32 = syms[j];
                let ghost held = by_keysym@;
                if !by_keysym.contains_key(&sym) {
                    by_keysym.insert(sym, KeyStroke { evdev, shift });
                }
                proof {
                    let earlier = syms@.take(j as int);
                    let now = syms@.take(j + 1);
                    assert(now =~= earlier.push(sym));
                    assert forall|s: u32| #[trigger]
                        by_keysym@.get(s) == if before.get(s) is None && now.contains(s) {
                            Some(KeyStroke { evdev, shift })
                        } else {
                            before.get(s)
                        } by {
                        assert(held.get(s) == if before.get(s) is None && earlier.contains(s) {
                            Some(KeyStroke { evdev, shift })
                        } else {
                            before.get(s)
                        });
                        assert(now[j as int] == sym);
                        if earlier.contains(s) {
                            let k = choose|k: int| 0 <= k < earlier.len() && earlier[k] == s;
                            assert(now[k] == s);
                        }
                        if now.contains(s) && s != sym {
                            let k = choose|k: int| 0 <= k < now.len() && now[k] == s;
                            assert(earlier[k] == s);
                        }
                    }
                }
                j += 1;
            }
            assert(syms@.take(j as int) =~= syms@);
        }
        i += 1;
    }
}

/// Whether a modifier is among those given.
fn holds(modifiers: &Vec<Modifier>, modifier: Modifier) -> (answer: bool)
    ensures
        answer == modifiers@.contains(modifier),
{
    let mut i: usize = 0;
    while i < modifiers.len()
        invariant
            i <= modifiers@.len(),
            forall|k: int| 0 <= k < i ==> modifiers@[k] != modifier,
        decreases modifiers@.len() - i,
    {
        if modifiers[i] == modifier {
            assert(modifiers@[i as int] == modifier);
            return true;
        }
        i += 1;
    }
    false
}

fn append_debug(out: &mut String, text: &str)
    ensures
        final(out)@ == old(out)@ + debug_text(text@),
{
    let shown = debug_of(text);
    out.append(shown.as_str());
}

impl KeyMap {
    /// The name in a combo whose keysyms [`KeyMap::parse_combo`] needs, if it
    /// needs any.
    pub fn key_name(combo: &str) -> (name: Option<String>)
        ensures
            match name {
                Some(name) => key_word(combo@) == Some(name@),
                None => key_word(combo@) is None,
            },
    {
        let chars: Vec<char> = chars_of(combo);
        let words: Vec<Vec<char>> = words_between(&chars, '+');
        let ghost model = combo_words(combo@);
        if words.len() == 0 {
            return None;
        }
        let last: usize = words.len() - 1;
        assert(model[last as int] == words@[last as int]@);
        if Modifier::parse(&words[last]).is_some() {
            return None;
        }
        let mut found: Vec<Modifier> = Vec::new();
        let mut i: usize = 0;
        while i < last
            invariant
                i <= last,
                last == words@.len() - 1,
                model == combo_words(combo@),
                model == views(words@),
                found@.len() == i,
                forall|k: int|
                    0 <= k < i ==> #[trigger] modifier_named(model[k]) == Some(found@[k]),
                forall|k: int, l: int| 0 <= k < l < i ==> found@[k] != found@[l],
            decreases last - i,
        {
            assert(model[i as int] == words@[i as int]@);
            assert(model.drop_last()[i as int] == model[i as int]);
            match Modifier::parse(&words[i]) {
                Some(modifier) => {
                    if holds(&found, modifier) {
                        proof {
                            let k = choose|k: int| 0 <= k < found@.len() && found@[k] == modifier;
                            assert(model.drop_last()[k] == model[k]);
                            assert(modifier_named(model.drop_last()[k]) == modifier_named(
                                model.drop_last()[i as int],
                            ));
                        }
                        return None;
                    }
                    found.push(modifier);
                },
                None => {
                    return None;
                },
            }
            i += 1;
        }
        proof {
            let before = model.drop_last();
            assert forall|k: int| 0 <= k < before.len() implies (#[trigger] modifier_named(
                before[k],
            )) is Some by {
                assert(before[k] == model[k]);
            }
            assert forall|k: int, l: int| 0 <= k < l < before.len() implies #[trigger] modifier_named(
                before[k],
            ) != #[trigger] modifier_named(before[l]) by {
                assert(before[k] == model[k]);
                assert(before[l] == model[l]);
            }
        }
        Some(text_of(&words[last]))
    }

    /// The combo that pastes.
    pub fn paste_combo(&self) -> (parsed: Result<Combo, String>)
        ensures
            match parsed {
                Ok(parsed) => self@.combo("ctrl+v"@, self@.names.paste) == Ok::<
                    ComboModel,
                    Seq<char>,
                >(parsed@),
                Err(error) => self@.combo("ctrl+v"@, self@.names.paste) == Err::<
                    ComboModel,
                    Seq<char>,
                >(error@),
            },
    {
        self.parse_combo("ctrl+v", self.names.paste)
    }

    /// Parse `ctrl+shift+t`, `alt+F4`, `Return`, `super`, with the keysyms of
    /// the combo's key name.
    pub fn parse_combo(&self, combo: &str, syms: NameSyms) -> (parsed: Result<Combo, String>)
        ensures
            match parsed {
                Ok(parsed) => self@.combo(combo@, syms) == Ok::<ComboModel, Seq<char>>(parsed@),
                Err(error) => self@.combo(combo@, syms) == Err::<ComboModel, Seq<char>>(error@),
            },
    {
        let chars: Vec<char> = chars_of(combo);
        let words: Vec<Vec<char>> = words_between(&chars, '+');
        let ghost model = combo_words(combo@);
        if words.len() == 0 {
            assert(model.len() == 0);
            return Err("key combo is empty".to_owned());
        }
        let mut modifiers: Vec<Modifier> = Vec::new();
        let mut key: Option<u16> = None;
        let mut i: usize = 0;
        while i < words.len()
            invariant
                i <= words@.len(),
                words@.len() == model.len(),
                words@.len() > 0,
                model == combo_words(combo@),
                model == views(words@),
                self@.combo_prefix(combo@, syms, i as nat) == Ok::<ComboState, Seq<char>>(
                    ComboState { modifiers: modifiers@, key },
                ),
            decreases words@.len() - i,
        {
            let word: &Vec<char> = &words[i];
            let is_last: bool = i + 1 == words.len();
            proof {
                assert(model[i as int] == word@);
                lemma_combo_error_persists(
                    self@,
                    combo@,
                    syms,
                    (i + 1) as nat,
                    model.len(),
                );
            }
            match Modifier::parse(word) {
                Some(modifier) => {
                    if words.len() == 1 {
                        match self.modifier_evdev(modifier) {
                            Ok(code) => {
                                key = Some(code);
                            },
                            Err(error) => {
                                return Err(error);
                            },
                        }
                    } else if holds(&modifiers, modifier) {
                        let mut error = "modifier ".to_owned();
                        let shown = text_of(word);
                        error.append(shown.as_str());
                        error.append(" repeated in ");
                        append_debug(&mut error, combo);
                        return Err(error);
                    } else {
                        modifiers.push(modifier);
                    }
                },
                None => {
                    let shown = text_of(word);
                    if !is_last {
                        let mut error = debug_of(shown.as_str());
                        error.append(" in ");
                        append_debug(&mut error, combo);
                        error.append(" is not a modifier; only the last token may be a key");
                        return Err(error);
                    }
                    match self.named_key(syms) {
                        Some(code) => {
                            key = Some(code);
                        },
                        None => {
                            let mut error = "unknown key name ".to_owned();
                            append_debug(&mut error, shown.as_str());
                            error.append(" in ");
                            append_debug(&mut error, combo);
                            return Err(error);
                        },
                    }
                },
            }
            i += 1;
        }
        match key {
            Some(key) => Ok(Combo { modifiers, key }),
            None => {
                let mut error = "key combo ".to_owned();
                append_debug(&mut error, combo);
                error.append(" has no key");
                Err(error)
            },
        }
    }

    /// Split text into runs that can be typed on the layout and runs that must
    /// be pasted through the clipboard.
    pub fn split_text(&self, text: &[CharSym]) -> (runs: Vec<TextRun>)
        ensures
            run_views(runs@) == self@.runs(text@),
    {
        let mut runs: Vec<TextRun> = Vec::new();
        let mut i: usize = 0;
        assert(run_views(runs@) =~= self@.runs(text@.take(0)));
        while i < text.len()
            invariant
                i <= text@.len(),
                run_views(runs@) == self@.runs(text@.take(i as int)),
            decreases text@.len() - i,
        {
            let typed: CharSym = text[i];
            let ghost before = self@.runs(text@.take(i as int));
            proof {
                assert(text@.take(i + 1).drop_last() =~= text@.take(i as int));
                assert(text@.take(i + 1).last() == typed);
            }
            let ghost held = runs@;
            let last = runs.pop();
            proof {
                if held.len() > 0 {
                    assert(before.last() == held.last()@);
                    assert(run_views(held.drop_last()) =~= before.drop_last());
                }
            }
            let ghost rest = runs@;
            match self.char_stroke(typed) {
                Some(stroke) => match last {
                    Some(TextRun::Typed(mut strokes)) => {
                        strokes.push(stroke);
                        runs.push(TextRun::Typed(strokes));
                        assert(run_views(runs@) =~= run_views(rest).push(
                            RunModel::Typed(strokes@),
                        ));
                    },
                    Some(other) => {
                        runs.push(other);
                        let mut strokes: Vec<KeyStroke> = Vec::new();
                        strokes.push(stroke);
                        assert(strokes@ =~= seq![stroke]);
                        runs.push(TextRun::Typed(strokes));
                        assert(run_views(runs@) =~= before.push(RunModel::Typed(strokes@)));
                    },
                    None => {
                        let mut strokes: Vec<KeyStroke> = Vec::new();
                        strokes.push(stroke);
                        assert(strokes@ =~= seq![stroke]);
                        runs.push(TextRun::Typed(strokes));
                        assert(run_views(runs@) =~= before.push(RunModel::Typed(strokes@)));
                    },
                },
                None => match last {
                    Some(TextRun::Pasted(mut existing)) => {
                        existing.push(typed.c);
                        runs.push(TextRun::Pasted(existing));
                        assert(run_views(runs@) =~= run_views(rest).push(
                            RunModel::Pasted(existing@),
                        ));
                    },
                    Some(other) => {
                        runs.push(other);
                        let mut existing = String::new();
                        existing.push(typed.c);
                        assert(existing@ =~= seq![typed.c]);
                        runs.push(TextRun::Pasted(existing));
                        assert(run_views(runs@) =~= before.push(RunModel::Pasted(existing@)));
                    },
                    None => {
                        let mut existing = String::new();
                        existing.push(typed.c);
                        assert(existing@ =~= seq![typed.c]);
                        runs.push(TextRun::Pasted(existing));
                        assert(run_views(runs@) =~= before.push(RunModel::Pasted(existing@)));
                    },
                },
            }
            i += 1;
        }
        assert(text@.take(i as int) =~= text@);
        runs
    }
}

/// Once the first words of a combo are refused, so is the whole.
proof fn lemma_combo_error_persists(
    map: KeyMapModel,
    combo: Seq<char>,
    syms: NameSyms,
    n: nat,
    m: nat,
)
    requires
        n <= m,
    ensures
        map.combo_prefix(combo, syms, n) is Err ==> map.combo_prefix(combo, syms, m)
            == map.combo_prefix(combo, syms, n),
    decreases m,
{
    if n < m {
        lemma_combo_error_persists(map, combo, syms, n, (m - 1) as nat);
    }
}

/// The modifiers that words name.
pub open spec fn modifiers_named(words: Seq<Seq<char>>) -> Seq<Modifier> {
    words.map_values(|word: Seq<char>| modifier_named(word)->0)
}

proof fn lemma_distinct_modifiers_are_collected(
    map: KeyMapModel,
    combo: Seq<char>,
    syms: NameSyms,
    n: nat,
)
    requires
        n <= combo_words(combo).len(),
        combo_words(combo).len() > 1,
        n < combo_words(combo).len() || modifier_named(combo_words(combo).last()) is Some,
    ensures
        map.combo_prefix(combo, syms, n) is Ok <==> are_distinct_modifiers(
            combo_words(combo).take(n as int),
        ),
        map.combo_prefix(combo, syms, n) matches Ok(state) ==> state.key is None
            && state.modifiers == modifiers_named(combo_words(combo).take(n as int)),
    decreases n,
{
    let words = combo_words(combo);
    let now = words.take(n as int);
    if n == 0 {
        assert(modifiers_named(now) =~= Seq::<Modifier>::empty());
    } else {
        lemma_distinct_modifiers_are_collected(map, combo, syms, (n - 1) as nat);
        let before = words.take(n - 1);
        assert(now =~= before.push(words[n - 1]));
        assert forall|i: int| 0 <= i < n - 1 implies #[trigger] now[i] == before[i] by {}
        assert(now[n - 1] == words[n - 1]);
        match map.combo_prefix(combo, syms, (n - 1) as nat) {
            Err(_) => {
                if are_distinct_modifiers(now) {
                    assert forall|i: int| 0 <= i < before.len() implies (
                    #[trigger] modifier_named(before[i])) is Some by {
                        assert(modifier_named(now[i]) is Some);
                    }
                    assert forall|i: int, j: int| 0 <= i < j < before.len() implies
                        #[trigger] modifier_named(before[i]) != #[trigger] modifier_named(
                        before[j],
                    ) by {
                        assert(modifier_named(now[i]) != modifier_named(now[j]));
                    }
                }
            },
            Ok(state) => {
                match modifier_named(words[n - 1]) {
                    Some(modifier) => {
                        if state.modifiers.contains(modifier) {
                            let k = choose|k: int|
                                0 <= k < state.modifiers.len() && state.modifiers[k] == modifier;
                            assert(modifier_named(before[k]) is Some);
                            assert(modifier_named(now[k]) == modifier_named(now[n - 1]));
                        } else {
                            assert(modifiers_named(now) =~= state.modifiers.push(modifier));
                            assert forall|i: int| 0 <= i < now.len() implies (
                            #[trigger] modifier_named(now[i])) is Some by {
                                if i < n - 1 {
                                    assert(modifier_named(before[i]) is Some);
                                }
                            }
                            assert forall|i: int, j: int| 0 <= i < j < now.len() implies
                                #[trigger] modifier_named(now[i]) != #[trigger] modifier_named(
                                now[j],
                            ) by {
                                if j < n - 1 {
                                    assert(modifier_named(before[i]) != modifier_named(before[j]));
                                } else {
                                    assert(modifier_named(before[i]) is Some);
                                    assert(state.modifiers[i] == modifier_named(before[i])->0);
                                }
                            }
                        }
                    },
                    None => {
                        assert(modifier_named(now[n - 1]) is None);
                    },
                }
            },
        }
    }
}

/// A combo is accepted exactly in two forms: a single modifier whose key the
/// layout has, pressed on its own; or any number of different modifiers and
/// then a key name that the layout has. The modifiers come out in the order
/// in which they were written, none of them twice.
pub proof fn lemma_accepted_combos(map: KeyMapModel, combo: Seq<char>, syms: NameSyms)
    ensures
        ({
            let words = combo_words(combo);
            let alone = words.len() == 1 && modifier_named(words[0]) is Some;
            &&& alone ==> match map.modifier_key(modifier_named(words[0])->0) {
                Ok(key) => map.combo(combo, syms) == Ok::<ComboModel, Seq<char>>(
                    ComboModel { modifiers: Seq::empty(), key },
                ),
                Err(_) => map.combo(combo, syms) is Err,
            }
            &&& !alone ==> (map.combo(combo, syms) is Ok <==> key_word(combo) is Some
                && map.key_of(syms) is Some)
            &&& !alone && map.combo(combo, syms) is Ok ==> map.combo(combo, syms)->Ok_0 == (
            ComboModel {
                modifiers: modifiers_named(words.drop_last()),
                key: map.key_of(syms)->0,
            })
        }),
{
    let words = combo_words(combo);
    let n = words.len();
    reveal_with_fuel(KeyMapModel::combo_prefix, 2);
    if n == 1 {
        assert(words.drop_last() =~= Seq::<Seq<char>>::empty());
        assert(modifiers_named(words.drop_last()) =~= Seq::<Modifier>::empty());
    } else if n > 1 {
        assert(words.take(n - 1) =~= words.drop_last());
        lemma_distinct_modifiers_are_collected(map, combo, syms, (n - 1) as nat);
        if modifier_named(words.last()) is Some {
            lemma_distinct_modifiers_are_collected(map, combo, syms, n);
        }
    }
}

/// A character of a text as it reaches the window: as a stroke, or pasted by
/// its code point.
pub enum TextUnit {
    Stroke(KeyStroke),
    Char(int),
}

impl RunModel {
    pub open spec fn units(self) -> Seq<TextUnit> {
        match self {
            RunModel::Typed(strokes) => strokes.map_values(|s: KeyStroke| TextUnit::Stroke(s)),
            RunModel::Pasted(chars) => chars.map_values(|c: char| TextUnit::Char(c as int)),
        }
    }
}

pub open spec fn run_units(runs: Seq<RunModel>) -> Seq<TextUnit>
    decreases runs.len(),
{
    if runs.len() == 0 {
        Seq::empty()
    } else {
        run_units(runs.drop_last()) + runs.last().units()
    }
}

impl KeyMapModel {
    pub open spec fn unit(self, typed: CharSym) -> TextUnit {
        match self.stroke_of(typed) {
            Some(stroke) => TextUnit::Stroke(stroke),
            None => TextUnit::Char(typed.c as int),
        }
    }
}

/// The runs of a text are those of the text without its last character, with
/// that character added to the last run or in a run of its own.
proof fn lemma_last_run(map: KeyMapModel, text: Seq<CharSym>)
    requires
        text.len() > 0,
    ensures
        ({
            let before = map.runs(text.drop_last());
            let after = map.runs(text);
            let unit = map.unit(text.last());
            let joins = before.len() > 0 && (before.last() is Typed <==> unit is Stroke);
            &&& after.len() > 0
            &&& after.last() is Typed <==> unit is Stroke
            &&& joins ==> after.drop_last() == before.drop_last() && after.last().units()
                == before.last().units().push(unit)
            &&& !joins ==> after.drop_last() == before && after.last().units() == seq![unit]
        }),
{
    let before = map.runs(text.drop_last());
    let after = map.runs(text);
    let unit = map.unit(text.last());
    match map.stroke_of(text.last()) {
        Some(stroke) => {
            if before.len() > 0 && before.last() is Typed {
                assert(after.last() == RunModel::Typed(before.last()->Typed_0.push(stroke)));
                assert(after.last().units() =~= before.last().units().push(unit));
                assert(after.drop_last() =~= before.drop_last());
            } else {
                assert(after.last() == RunModel::Typed(seq![stroke]));
                assert(after.last().units() =~= seq![unit]);
                assert(after.drop_last() =~= before);
            }
        },
        None => {
            let c = text.last().c;
            if before.len() > 0 && before.last() is Pasted {
                assert(after.last() == RunModel::Pasted(before.last()->Pasted_0.push(c)));
                assert(after.last().units() =~= before.last().units().push(unit));
                assert(after.drop_last() =~= before.drop_last());
            } else {
                assert(after.last() == RunModel::Pasted(seq![c]));
                assert(after.last().units() =~= seq![unit]);
                assert(after.drop_last() =~= before);
            }
        },
    }
}

/// Splitting a text loses nothing, adds nothing and keeps the order: the runs
/// one after another are the characters one after another, each as its stroke
/// where the layout can type it and as itself where it cannot.
pub proof fn lemma_runs_keep_the_text(map: KeyMapModel, text: Seq<CharSym>)
    ensures
        run_units(map.runs(text)) == text.map_values(|typed: CharSym| map.unit(typed)),
    decreases text.len(),
{
    let units = text.map_values(|typed: CharSym| map.unit(typed));
    if text.len() == 0 {
        assert(units =~= Seq::<TextUnit>::empty());
    } else {
        let rest = text.drop_last();
        lemma_runs_keep_the_text(map, rest);
        lemma_last_run(map, text);
        let before = map.runs(rest);
        let after = map.runs(text);
        let earlier = rest.map_values(|typed: CharSym| map.unit(typed));
        assert(units =~= earlier.push(map.unit(text.last())));
        assert(run_units(after) == run_units(after.drop_last()) + after.last().units());
        assert(run_units(after) =~= run_units(before).push(map.unit(text.last())));
    }
}

/// Runs alternate between typed and pasted, and none is empty.
pub proof fn lemma_runs_alternate(map: KeyMapModel, text: Seq<CharSym>)
    ensures
        forall|i: int|
            0 <= i < map.runs(text).len() ==> (#[trigger] map.runs(text)[i]).units().len() > 0,
        forall|i: int, j: int|
            0 <= i && j == i + 1 && j < map.runs(text).len() ==> (#[trigger] map.runs(text)[i]
                is Typed <==> #[trigger] map.runs(text)[j] is Pasted),
    decreases text.len(),
{
    if text.len() > 0 {
        let rest = text.drop_last();
        lemma_runs_alternate(map, rest);
        lemma_last_run(map, text);
        let before = map.runs(rest);
        let after = map.runs(text);
        assert forall|i: int| 0 <= i < after.len() implies (#[trigger] after[i]).units().len()
            > 0 by {
            if i < after.len() - 1 {
                assert(after[i] == after.drop_last()[i]);
                assert(before[i].units().len() > 0);
            }
        }
        assert forall|i: int, j: int| 0 <= i && j == i + 1 && j < after.len() implies (
        #[trigger] after[i] is Typed <==> #[trigger] after[j] is Pasted) by {
            assert(after[i] == after.drop_last()[i]);
            if j < after.len() - 1 {
                assert(after[j] == after.drop_last()[j]);
                assert(before[i] is Typed <==> before[j] is Pasted);
            } else if i + 1 < before.len() {
                assert(before[i] is Typed <==> before[i + 1] is Pasted);
            }
        }
    }
}

proof fn lemma_first_key_has_sym(level: Seq<Vec<u32>>, min_keycode: u32, sym: u32, n: nat)
    requires
        n <= level.len(),
    ensures
        first_key(level, min_keycode, sym, n) matches Some(code) ==> exists|i: int|
            0 <= i < n && #[trigger] level[i]@.contains(sym) && evdev_of(min_keycode + i) == Some(
                code,
            ) && forall|j: int|
                0 <= j < i && #[trigger] level[j]@.contains(sym) ==> evdev_of(min_keycode + j)
                    is None,
        first_key(level, min_keycode, sym, n) is None ==> forall|i: int|
            0 <= i < n && #[trigger] level[i]@.contains(sym) ==> evdev_of(min_keycode + i) is None,
    decreases n,
{
    if n > 0 {
        lemma_first_key_has_sym(level, min_keycode, sym, (n - 1) as nat);
        match first_key(level, min_keycode, sym, (n - 1) as nat) {
            Some(code) => {},
            None => {
                if level[n - 1]@.contains(sym) && evdev_of(min_keycode + n - 1) is Some {
                    assert(level[n - 1]@.contains(sym));
                    assert(evdev_of(min_keycode + (n - 1)) is Some);
                }
            },
        }
    }
}

impl Layout {
    pub open spec fn level(self, shift: bool) -> Seq<Vec<u32>> {
        if shift {
            self.shifted@
        } else {
            self.plain@
        }
    }

    /// The key at place `i`, of this evdev code, has `sym` on this level.
    pub open spec fn has_key(self, shift: bool, sym: u32, i: int, code: u16) -> bool {
        0 <= i < self.level(shift).len() && self.level(shift)[i]@.contains(sym) && evdev_of(
            self.min_keycode + i,
        ) == Some(code)
    }
}

/// The stroke of a keysym presses a key that has that keysym on the level it
/// asks for, Shift is asked for only where no key has the keysym without it,
/// and of several keys the lowest is taken.
pub proof fn lemma_lowest_level_and_key_win(layout: Layout, sym: u32)
    ensures
        layout.stroke(sym) matches Some(stroke) ==> {
            &&& exists|i: int| #[trigger]
                layout.has_key(stroke.shift, sym, i, stroke.evdev) && forall|j: int, code: u16|
                    j < i ==> !#[trigger] layout.has_key(stroke.shift, sym, j, code)
            &&& stroke.shift ==> forall|j: int, code: u16|
                !#[trigger] layout.has_key(false, sym, j, code)
        },
        layout.stroke(sym) is None ==> forall|shift: bool, j: int, code: u16|
            !#[trigger] layout.has_key(shift, sym, j, code),
{
    let min = layout.min_keycode;
    lemma_first_key_has_sym(layout.plain@, min, sym, layout.plain@.len());
    lemma_first_key_has_sym(layout.shifted@, min, sym, layout.shifted@.len());
    match layout.stroke(sym) {
        Some(stroke) => {
            let level = layout.level(stroke.shift);
            assert(first_key(level, min, sym, level.len()) == Some(stroke.evdev));
            let i = choose|i: int|
                0 <= i < level.len() && #[trigger] level[i]@.contains(sym) && evdev_of(min + i)
                    == Some(stroke.evdev) && forall|j: int|
                    0 <= j < i && #[trigger] level[j]@.contains(sym) ==> evdev_of(min + j) is None;
            assert(layout.has_key(stroke.shift, sym, i, stroke.evdev));
        },
        None => {},
    }
}

/// The mask of two lists of modifiers together is the bitwise or of their
/// masks.
pub proof fn lemma_masks_join(map: KeyMapModel, first: Seq<Modifier>, second: Seq<Modifier>)
    ensures
        map.mask(first + second) == map.mask(first) | map.mask(second),
    decreases second.len(),
{
    if second.len() == 0 {
        assert(first + second =~= first);
        let mask = map.mask(first);
        assert(mask | 0 == mask) by (bit_vector);
    } else {
        let rest = second.drop_last();
        lemma_masks_join(map, first, rest);
        assert((first + second).drop_last() =~= first + rest);
        assert((first + second).last() == second.last());
        let (a, b, c) = (map.mask(first), map.mask(rest), map.masks.of(second.last()));
        assert((a | b) | c == a | (b | c)) by (bit_vector);
    }
}

/// No modifiers have no mask, and one has its own.
pub proof fn lemma_mask_of_one(map: KeyMapModel, modifier: Modifier)
    ensures
        map.mask(Seq::empty()) == 0,
        map.mask(seq![modifier]) == map.masks.of(modifier),
{
    assert(seq![modifier].drop_last() =~= Seq::<Modifier>::empty());
    reveal_with_fuel(KeyMapModel::mask, 2);
    let mask = map.masks.of(modifier);
    assert(0u32 | mask == mask) by (bit_vector);
}

proof fn lemma_words_of_paste()
    ensures
        combo_words("ctrl+v"@) == seq!["ctrl"@, "v"@],
{
    reveal_strlit("ctrl+v");
    reveal_strlit("ctrl");
    reveal_strlit("v");
    let all = "ctrl+v"@;
    let none = Seq::<char>::empty();
    let (a, b, c) = (seq!['c'], seq!['c', 't'], seq!['c', 't', 'r']);
    let word = seq!['c', 't', 'r', 'l'];
    let joined = seq!['c', 't', 'r', 'l', '+'];
    let key = seq!['v'];
    assert(all =~= seq!['c', 't', 'r', 'l', '+', 'v']);
    assert("ctrl"@ =~= word);
    assert("v"@ =~= key);
    assert(all.drop_last() =~= joined);
    assert(joined.drop_last() =~= word);
    assert(word.drop_last() =~= c);
    assert(c.drop_last() =~= b);
    assert(b.drop_last() =~= a);
    assert(a.drop_last() =~= none);
    assert(split_on(none, '+') =~= seq![none]);
    assert(none.push('c') =~= a);
    assert(split_on(a, '+') =~= seq![a]);
    assert(a.push('t') =~= b);
    assert(split_on(b, '+') =~= seq![b]);
    assert(b.push('r') =~= c);
    assert(split_on(c, '+') =~= seq![c]);
    assert(c.push('l') =~= word);
    assert(split_on(word, '+') =~= seq![word]);
    assert(split_on(joined, '+') =~= seq![word, none]);
    assert(none.push('v') =~= key);
    assert(split_on(all, '+') =~= seq![word, key]);
    let pieces = seq![word, key];
    assert(pieces.drop_last() =~= seq![word]);
    assert(seq![word].drop_last() =~= Seq::<Seq<char>>::empty());
    assert(trim(word) == word);
    assert(trim(key) == key);
    assert(nonblank(Seq::<Seq<char>>::empty()) =~= Seq::<Seq<char>>::empty());
    assert(nonblank(seq![word]) =~= seq![word]);
    assert(nonblank(pieces) =~= seq![word, key]);
}

proof fn lemma_names_of_paste()
    ensures
        modifier_named("ctrl"@) == Some(Modifier::Ctrl),
        modifier_named("v"@) is None,
{
    reveal_strlit("ctrl");
    reveal_strlit("v");
    reveal_strlit("control");
    reveal_strlit("shift");
    reveal_strlit("alt");
    reveal_strlit("option");
    reveal_strlit("super");
    reveal_strlit("meta");
    reveal_strlit("win");
    reveal_strlit("cmd");
    reveal_strlit("logo");
    assert(lower("ctrl"@) =~= "ctrl"@);
    assert(lower("v"@).len() == 1);
}

/// The combo that pastes is Ctrl and the key named `v`.
pub proof fn lemma_paste_is_ctrl_and_v(map: KeyMapModel, syms: NameSyms)
    ensures
        map.combo("ctrl+v"@, syms) matches Ok(combo) ==> combo.modifiers == seq![Modifier::Ctrl]
            && map.key_of(syms) == Some(combo.key),
        map.combo("ctrl+v"@, syms) is Ok <==> map.key_of(syms) is Some,
{
    lemma_words_of_paste();
    lemma_names_of_paste();
    lemma_accepted_combos(map, "ctrl+v"@, syms);
    let words = combo_words("ctrl+v"@);
    assert(words.drop_last() =~= seq!["ctrl"@]);
    assert(modifiers_named(words.drop_last()) =~= seq![Modifier::Ctrl]);
}

/// Both line ends are typed with the key of Return and a tab with that of Tab,
/// whatever keysyms come with them; every other character is typed by its own
/// keysym.
pub proof fn lemma_which_keysym_types(map: KeyMapModel, typed: CharSym)
    ensures
        typed.c == '\n' || typed.c == '\r' ==> map.stroke_of(typed) == map.strokes.get(
            map.names.enter,
        ),
        typed.c == '\t' ==> map.stroke_of(typed) == map.strokes.get(map.names.tab),
        typed.c != '\n' && typed.c != '\r' && typed.c != '\t' ==> map.stroke_of(typed)
            == map.strokes.get(typed.sym),
{
}

/// A name stands for the key of its keysym as it is written; the keysym of the
/// name in lower case counts only where the first has no key.
pub proof fn lemma_names_as_written_come_first(map: KeyMapModel, syms: NameSyms)
    ensures
        syms.exact != 0 && map.strokes.contains_key(syms.exact) ==> map.key_of(syms) == Some(
            map.strokes[syms.exact].evdev,
        ),
        (syms.exact == 0 || !map.strokes.contains_key(syms.exact)) && syms.lower != 0
            && map.strokes.contains_key(syms.lower) ==> map.key_of(syms) == Some(
            map.strokes[syms.lower].evdev,
        ),
        map.key_of(syms) is None <==> (syms.exact == 0 || !map.strokes.contains_key(syms.exact))
            && (syms.lower == 0 || !map.strokes.contains_key(syms.lower)),
{
}

/// Each modifier has the key of its left keysym, and no other.
pub proof fn lemma_modifier_keys(map: KeyMapModel, modifier: Modifier)
    ensures
        map.modifier_key(modifier) is Ok <==> map.key_of(
            match modifier {
                Modifier::Ctrl => map.names.control_l,
                Modifier::Shift => map.names.shift_l,
                Modifier::Alt => map.names.alt_l,
                Modifier::Super => map.names.super_l,
            },
        ) is Some,
        map.modifier_key(modifier) matches Ok(key) ==> map.key_of(
            match modifier {
                Modifier::Ctrl => map.names.control_l,
                Modifier::Shift => map.names.shift_l,
                Modifier::Alt => map.names.alt_l,
                Modifier::Super => map.names.super_l,
            },
        ) == Some(key),
{
}

/// A mask announces what its modifiers have and nothing else.
pub proof fn lemma_mask_is_that_of_its_modifiers(
    map: KeyMapModel,
    modifiers: Seq<Modifier>,
    bit: u32,
)
    ensures
        map.mask(modifiers) & bit != 0 <==> exists|i: int|
            0 <= i < modifiers.len() && map.masks.of(#[trigger] modifiers[i]) & bit != 0,
    decreases modifiers.len(),
{
    if modifiers.len() == 0 {
        assert(0u32 & bit == 0) by (bit_vector);
    } else {
        let rest = modifiers.drop_last();
        lemma_mask_is_that_of_its_modifiers(map, rest, bit);
        let (a, b) = (map.mask(rest), map.masks.of(modifiers.last()));
        assert((a | b) & bit != 0 <==> a & bit != 0 || b & bit != 0) by (bit_vector);
        if a & bit != 0 {
            let i = choose|i: int|
                0 <= i < rest.len() && map.masks.of(#[trigger] rest[i]) & bit != 0;
            assert(map.masks.of(modifiers[i]) & bit != 0);
        }
        if b & bit != 0 {
            assert(map.masks.of(modifiers[modifiers.len() - 1]) & bit != 0);
        }
        if exists|i: int|
            0 <= i < modifiers.len() && map.masks.of(#[trigger] modifiers[i]) & bit != 0 {
            let i = choose|i: int|
                0 <= i < modifiers.len() && map.masks.of(#[trigger] modifiers[i]) & bit != 0;
            if i < rest.len() {
                assert(map.masks.of(rest[i]) & bit != 0);
            }
        }
    }
}

/// The words that name modifiers, in any case of their letters; no other word
/// does.
pub proof fn lemma_modifier_names(word: Seq<char>)
    ensures
        lower(word) == "ctrl"@ || lower(word) == "control"@ <==> modifier_named(word) == Some(
            Modifier::Ctrl,
        ),
        lower(word) == "shift"@ <==> modifier_named(word) == Some(Modifier::Shift),
        lower(word) == "alt"@ || lower(word) == "option"@ <==> modifier_named(word) == Some(
            Modifier::Alt,
        ),
        lower(word) == "super"@ || lower(word) == "meta"@ || lower(word) == "win"@ || lower(word)
            == "cmd"@ || lower(word) == "logo"@ <==> modifier_named(word) == Some(Modifier::Super),
{
    reveal_strlit("ctrl");
    reveal_strlit("control");
    reveal_strlit("shift");
    reveal_strlit("alt");
    reveal_strlit("option");
    reveal_strlit("super");
    reveal_strlit("meta");
    reveal_strlit("win");
    reveal_strlit("cmd");
    reveal_strlit("logo");
    let name = lower(word);
    if name.len() > 0 {
        assert("ctrl"@[1] == 't' && "control"@[1] == 'o' && "cmd"@[1] == 'm');
        assert("shift"@[1] == 'h' && "super"@[1] == 'u');
        assert("alt"@[0] == 'a' && "option"@[0] == 'o' && "meta"@[0] == 'm' && "win"@[0] == 'w');
        assert("logo"@[0] == 'l');
    }
}

/// A modifier of a layout is announced by the bit of its index, and one that
/// the layout does not have by none.
pub proof fn lemma_masks_are_single_bits(layout: Layout, modifier: Modifier, bit: u32)
    requires
        layout.modifiers_fit(),
        bit < 32,
    ensures
        layout.mask(modifier) & (1u32 << bit) != 0 <==> layout.modifier_indices.of(modifier)
            == bit,
{
    let index = layout.modifier_indices.of(modifier);
    if index == MOD_INVALID {
        assert(0u32 & (1u32 << bit) == 0) by (bit_vector);
    } else {
        assert((1u32 << index) & (1u32 << bit) != 0 <==> index == bit) by (bit_vector)
            requires
                index < 32,
                bit < 32,
        ;
    }
}

proof fn lemma_words_are_split_again(words: Seq<Seq<char>>)
    requires
        words.len() > 0,
        forall|i: int| 0 <= i < words.len() ==> !(#[trigger] words[i]).contains('+'),
    ensures
        split_on(spliced(words, '+'), '+') == words,
    decreases words.len(),
{
    if words.len() == 1 {
        lemma_word_is_one_piece(Seq::empty(), seq![Seq::<char>::empty()], words[0]);
        assert(Seq::<char>::empty() + words[0] =~= words[0]);
        assert(split_on(Seq::empty(), '+') =~= seq![Seq::<char>::empty()]);
        assert(seq![Seq::<char>::empty()].drop_last().push(
            Seq::<char>::empty() + words[0],
        ) =~= words);
    } else {
        let rest = words.drop_last();
        assert forall|i: int| 0 <= i < rest.len() implies !(#[trigger] rest[i]).contains('+') by {
            assert(rest[i] == words[i]);
        }
        lemma_words_are_split_again(rest);
        let start = spliced(rest, '+').push('+');
        assert(start.drop_last() =~= spliced(rest, '+'));
        let pieces = rest.push(Seq::<char>::empty());
        assert(split_on(start, '+') == pieces);
        assert(words[words.len() - 1] == words.last());
        lemma_word_is_one_piece(start, pieces, words.last());
        assert(Seq::<char>::empty() + words.last() =~= words.last());
        assert(pieces.drop_last() =~= rest);
        assert(rest.push(words.last()) =~= words);
    }
}

/// A word without plus signs goes on the last piece.
proof fn lemma_word_is_one_piece(text: Seq<char>, pieces: Seq<Seq<char>>, word: Seq<char>)
    requires
        split_on(text, '+') == pieces,
        pieces.len() > 0,
        !word.contains('+'),
    ensures
        split_on(text + word, '+') == pieces.drop_last().push(pieces.last() + word),
    decreases word.len(),
{
    if word.len() == 0 {
        assert(text + word =~= text);
        assert(pieces.last() + word =~= pieces.last());
        assert(pieces.drop_last().push(pieces.last()) =~= pieces);
    } else {
        let rest = word.drop_last();
        assert(word[word.len() - 1] == word.last());
        assert(!rest.contains('+')) by {
            if rest.contains('+') {
                let k = choose|k: int| 0 <= k < rest.len() && rest[k] == '+';
                assert(word[k] == '+');
            }
        }
        lemma_word_is_one_piece(text, pieces, rest);
        let all = text + word;
        assert(all.drop_last() =~= text + rest);
        assert(all.last() == word.last());
        let before = pieces.drop_last().push(pieces.last() + rest);
        assert(split_on(all, '+') == before.drop_last().push(before.last().push(word.last())));
        assert(before.drop_last() =~= pieces.drop_last());
        assert((pieces.last() + rest).push(word.last()) =~= pieces.last() + word);
    }
}

/// The words of a combo are read back from the combo that they make with plus
/// signs between them, where none is blank, has white space at its ends or
/// holds a plus sign.
pub proof fn lemma_combo_words_are_read_back(words: Seq<Seq<char>>)
    requires
        words.len() > 0,
        forall|i: int|
            0 <= i < words.len() ==> (#[trigger] words[i]).len() > 0 && !words[i].contains('+')
                && trim(words[i]) == words[i],
    ensures
        combo_words(spliced(words, '+')) == words,
{
    lemma_words_are_split_again(words);
    lemma_words_stay(words);
}

proof fn lemma_words_stay(words: Seq<Seq<char>>)
    requires
        forall|i: int|
            0 <= i < words.len() ==> (#[trigger] words[i]).len() > 0 && trim(words[i]) == words[i],
    ensures
        nonblank(words) == words,
    decreases words.len(),
{
    if words.len() > 0 {
        let rest = words.drop_last();
        assert forall|i: int| 0 <= i < rest.len() implies (#[trigger] rest[i]).len() > 0 && trim(
            rest[i],
        ) == rest[i] by {
            assert(rest[i] == words[i]);
        }
        lemma_words_stay(rest);
        assert(words[words.len() - 1] == words.last());
        assert(rest.push(words.last()) =~= words);
    } else {
        assert(nonblank(words) =~= words);
    }
}

/// Each modifier has its own number, its own names and its own keysym.
pub proof fn lemma_each_modifier_has_its_own(values: PerModifier, names: KnownNames)
    ensures
        values.of(Modifier::Ctrl) == values.ctrl,
        values.of(Modifier::Shift) == values.shift,
        values.of(Modifier::Alt) == values.alt,
        values.of(Modifier::Super) == values.logo,
        names.of(Modifier::Ctrl) == names.control_l,
        names.of(Modifier::Shift) == names.shift_l,
        names.of(Modifier::Alt) == names.alt_l,
        names.of(Modifier::Super) == names.super_l,
        Modifier::Ctrl.keysym_text() == "Control_L"@ && Modifier::Ctrl.xkb_text() == "Control"@,
        Modifier::Shift.keysym_text() == "Shift_L"@ && Modifier::Shift.xkb_text() == "Shift"@,
        Modifier::Alt.keysym_text() == "Alt_L"@ && Modifier::Alt.xkb_text() == "Mod1"@,
        Modifier::Super.keysym_text() == "Super_L"@ && Modifier::Super.xkb_text() == "Mod4"@,
{
}

/// XKB counts keys from eight on, and evdev from zero.
pub proof fn lemma_keycodes_are_eight_more(keycode: int, code: u16)
    ensures
        evdev_of(keycode) == Some(code) <==> keycode == code + 8,
{
}

/// The key name of a combo that consists of different modifiers and a word that
/// names none is that word, with plus signs between them all.
pub proof fn lemma_key_name_is_the_last_word(modifiers: Seq<Seq<char>>, name: Seq<char>)
    requires
        are_distinct_modifiers(modifiers),
        modifier_named(name) is None,
        forall|i: int|
            0 <= i < modifiers.push(name).len() ==> (#[trigger] modifiers.push(name)[i]).len() > 0
                && !modifiers.push(name)[i].contains('+') && trim(modifiers.push(name)[i])
                == modifiers.push(name)[i],
    ensures
        key_word(spliced(modifiers.push(name), '+')) == Some(name),
{
    lemma_combo_words_are_read_back(modifiers.push(name));
    assert(modifiers.push(name).drop_last() =~= modifiers);
}

} // verus!
