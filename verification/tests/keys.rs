use wayhand_mcp::keys::{
    CharSym, KeyMap, KeyStroke, KnownNames, Layout, Modifier, NameSyms, PerModifier, TextRun,
    MOD_INVALID, XKB_OFFSET,
};
use wayhand_mcp::keysym::{KnownLookups, Lookup, NameLookups};
use wayhand_mcp::text::{is_white_space, trimmed};

const KEY_A: u16 = 30;
const KEY_LEFTSHIFT: u16 = 42;
const KEY_LEFTCTRL: u16 = 29;
const KEY_T: u16 = 20;
const KEY_ENTER: u16 = 28;
const KEY_TAB: u16 = 15;
const KEY_F4: u16 = 62;
const KEY_V: u16 = 47;

const RETURN: u32 = 0xff0d;
const TAB: u32 = 0xff09;
const SHIFT_L: u32 = 0xffe1;
const CONTROL_L: u32 = 0xffe3;
const ALT_L: u32 = 0xffe9;
const SUPER_L: u32 = 0xffeb;
const F4: u32 = 0xffc1;

fn both(sym: u32) -> NameSyms {
    NameSyms { exact: sym, lower: sym }
}

/// The keys of a US layout that carry characters, and a few named ones.
fn us_layout() -> Layout {
    let mut plain: Vec<Vec<u32>> = vec![Vec::new(); 256];
    let mut shifted: Vec<Vec<u32>> = vec![Vec::new(); 256];
    let rows = [
        (2, "1234567890-=", "!@#$%^&*()_+"),
        (16, "qwertyuiop[]", "QWERTYUIOP{}"),
        (30, "asdfghjkl;'`", "ASDFGHJKL:\"~"),
        (43, "\\zxcvbnm,./", "|ZXCVBNM<>?"),
        (57, " ", " "),
    ];
    for (code, low, high) in rows {
        for (i, (low, high)) in low.chars().zip(high.chars()).enumerate() {
            plain[code + i].push(low as u32);
            shifted[code + i].push(high as u32);
        }
    }
    let named = [
        (KEY_TAB, TAB),
        (KEY_ENTER, RETURN),
        (KEY_LEFTCTRL, CONTROL_L),
        (KEY_LEFTSHIFT, SHIFT_L),
        (56, ALT_L),
        (KEY_F4, F4),
        (125, SUPER_L),
    ];
    for (code, sym) in named {
        plain[code as usize].push(sym);
    }
    Layout {
        text: "xkb_keymap { };".to_owned(),
        min_keycode: XKB_OFFSET,
        plain,
        shifted,
        modifier_indices: PerModifier { shift: 0, ctrl: 2, alt: 3, logo: 6 },
        names: KnownNames {
            enter: RETURN,
            tab: TAB,
            paste: both('v' as u32),
            control_l: both(CONTROL_L),
            shift_l: both(SHIFT_L),
            alt_l: both(ALT_L),
            super_l: both(SUPER_L),
        },
    }
}

fn keymap() -> KeyMap {
    KeyMap::from_layout(us_layout())
}

/// The keysym of a character: its code point, marked above Latin-1.
fn char_sym(c: char) -> CharSym {
    let code = c as u32;
    CharSym { c, sym: if code < 0x100 { code } else { 0x0100_0000 + code } }
}

fn text_syms(text: &str) -> Vec<CharSym> {
    text.chars().map(char_sym).collect()
}

/// The keysyms of the key names that the tests use.
fn name_syms(combo: &str) -> NameSyms {
    match KeyMap::key_name(combo).as_deref() {
        Some("t") => both('t' as u32),
        Some("Return") => both(RETURN),
        Some("F4") => both(F4),
        _ => both(0),
    }
}

#[test]
fn maps_ascii_letters_with_shift_level() {
    let map = keymap();
    assert_eq!(
        map.char_stroke(char_sym('a')),
        Some(KeyStroke { evdev: KEY_A, shift: false })
    );
    assert_eq!(
        map.char_stroke(char_sym('A')),
        Some(KeyStroke { evdev: KEY_A, shift: true })
    );
    assert_eq!(
        map.char_stroke(char_sym('\n')),
        Some(KeyStroke { evdev: KEY_ENTER, shift: false })
    );
    assert_eq!(map.char_stroke(char_sym('!')).map(|s| s.shift), Some(true));
}

#[test]
fn line_ends_and_tabs_are_keys_whatever_their_keysym() {
    let map = keymap();
    assert_eq!(map.char_stroke(CharSym { c: '\r', sym: 0 }).unwrap().evdev, KEY_ENTER);
    assert_eq!(map.char_stroke(CharSym { c: '\t', sym: 0 }).unwrap().evdev, KEY_TAB);
}

#[test]
fn chinese_is_not_typeable_on_us_layout() {
    assert_eq!(keymap().char_stroke(char_sym('中')), None);
}

#[test]
fn parses_combos() {
    let map = keymap();
    let parse = |combo: &str| map.parse_combo(combo, name_syms(combo)).unwrap();
    let combo = parse("ctrl+shift+t");
    assert_eq!(combo.modifiers, vec![Modifier::Ctrl, Modifier::Shift]);
    assert_eq!(combo.key, KEY_T);
    assert_eq!(parse("Return").key, KEY_ENTER);
    assert_eq!(parse("alt+F4").key, KEY_F4);
    assert_eq!(parse("shift").key, KEY_LEFTSHIFT);
    assert_eq!(map.modifier_evdev(Modifier::Ctrl).unwrap(), KEY_LEFTCTRL);
}

#[test]
fn rejects_bad_combos() {
    let map = keymap();
    assert!(map.parse_combo("", name_syms("")).is_err());
    assert!(map.parse_combo("ctrl+nosuchkey", name_syms("ctrl+nosuchkey")).is_err());
    assert!(map.parse_combo("t+ctrl", name_syms("t+ctrl")).is_err());
    assert!(map.parse_combo("ctrl+ctrl+t", name_syms("ctrl+ctrl+t")).is_err());
}

#[test]
fn bad_combos_say_what_is_wrong() {
    let map = keymap();
    let error = |combo: &str| map.parse_combo(combo, name_syms(combo)).unwrap_err();
    assert_eq!(error(" + "), "key combo is empty");
    assert_eq!(error("ctrl+\"x"), "unknown key name \"\\\"x\" in \"ctrl+\\\"x\"");
    assert_eq!(
        error("t+ctrl"),
        "\"t\" in \"t+ctrl\" is not a modifier; only the last token may be a key"
    );
    assert_eq!(error("ctrl+Control+t"), "modifier Control repeated in \"ctrl+Control+t\"");
    assert_eq!(error("ctrl+alt"), "key combo \"ctrl+alt\" has no key");
}

#[test]
fn key_names_are_looked_up_as_written_and_in_lower_case() {
    let lookups = NameLookups::of("PageUp");
    assert_eq!(lookups.exact, Lookup { name: "PageUp".to_owned(), ignores_case: true });
    assert_eq!(lookups.lower, Lookup { name: "pageup".to_owned(), ignores_case: true });
    assert_eq!(NameLookups::of_combo(" CTRL + PageUp").unwrap(), lookups);
    assert_eq!(NameLookups::of_combo("ctrl+shift"), None);
    assert_eq!(NameLookups::of_combo("a+b"), None);
}

#[test]
fn line_ends_and_tab_are_looked_up_by_their_exact_names() {
    let known = KnownLookups::all();
    assert_eq!(known.enter, Lookup { name: "Return".to_owned(), ignores_case: false });
    assert_eq!(known.tab, Lookup { name: "Tab".to_owned(), ignores_case: false });
    assert_eq!(known.paste, NameLookups::of("v"));
    assert_eq!(known.control_l, NameLookups::of("Control_L"));
    assert_eq!(known.shift_l, NameLookups::of("Shift_L"));
    assert_eq!(known.alt_l, NameLookups::of("Alt_L"));
    assert_eq!(known.super_l, NameLookups::of("Super_L"));
    assert_eq!(known.super_l.lower.name, "super_l");
}

#[test]
fn white_space_is_what_unicode_calls_so() {
    for c in '\0'..=char::MAX {
        assert_eq!(is_white_space(c), c.is_whitespace(), "{:?}", c);
    }
    assert_eq!(trimmed(&['\u{2003}', 'a', ' ', 'b', '\n']), vec!['a', ' ', 'b']);
}

#[test]
fn combos_are_read_without_regard_to_case_and_space() {
    let map = keymap();
    let combo = map.parse_combo(" CTRL +\u{3000}Meta+ t ", both('t' as u32)).unwrap();
    assert_eq!(combo.modifiers, vec![Modifier::Ctrl, Modifier::Super]);
    assert_eq!(combo.key, KEY_T);
    assert_eq!(KeyMap::key_name(" CTRL +\u{3000}Meta+ t ").unwrap(), "t");
    assert_eq!(KeyMap::key_name("ctrl+shift"), None);
    assert_eq!(KeyMap::key_name(""), None);
}

#[test]
fn all_names_of_modifiers_are_known() {
    for (name, modifier) in [
        ("ctrl", Modifier::Ctrl),
        ("control", Modifier::Ctrl),
        ("SHIFT", Modifier::Shift),
        ("alt", Modifier::Alt),
        ("option", Modifier::Alt),
        ("super", Modifier::Super),
        ("meta", Modifier::Super),
        ("win", Modifier::Super),
        ("cmd", Modifier::Super),
        ("Logo", Modifier::Super),
    ] {
        let word: Vec<char> = name.chars().collect();
        assert_eq!(Modifier::parse(&word), Some(modifier));
    }
    assert_eq!(Modifier::parse(&['a']), None);
    assert_eq!(Modifier::Super.keysym_name(), "Super_L");
    assert_eq!(Modifier::Alt.xkb_name(), "Mod1");
}

#[test]
fn exact_spelling_of_a_name_wins() {
    let map = keymap();
    assert_eq!(map.named_key(NameSyms { exact: 'a' as u32, lower: 't' as u32 }), Some(KEY_A));
    assert_eq!(map.named_key(NameSyms { exact: 0, lower: 't' as u32 }), Some(KEY_T));
    assert_eq!(map.named_key(NameSyms { exact: 0x1234_5678, lower: 't' as u32 }), Some(KEY_T));
    assert_eq!(map.named_key(both(0)), None);
}

#[test]
fn splits_text_into_typed_and_pasted_runs() {
    let runs = keymap().split_text(&text_syms("ab中文c"));
    assert_eq!(runs.len(), 3);
    assert!(matches!(&runs[0], TextRun::Typed(strokes) if strokes.len() == 2));
    assert_eq!(runs[1], TextRun::Pasted("中文".to_owned()));
    assert!(matches!(&runs[2], TextRun::Typed(strokes) if strokes.len() == 1));
}

#[test]
fn modifier_mask_is_nonzero_for_known_modifiers() {
    let map = keymap();
    let mask = map.modifier_mask(&[Modifier::Ctrl, Modifier::Shift]);
    assert_eq!(mask.count_ones(), 2);
    assert_eq!(mask, 0b101);
    assert_eq!(map.modifier_mask(&[Modifier::Super, Modifier::Alt, Modifier::Alt]), 0b100_1000);
    assert_eq!(map.modifier_mask(&[]), 0);
    let (first, second) = ([Modifier::Ctrl, Modifier::Alt], [Modifier::Alt, Modifier::Super]);
    assert_eq!(
        map.modifier_mask(&[first, second].concat()),
        map.modifier_mask(&first) | map.modifier_mask(&second)
    );
}

#[test]
fn missing_modifiers_have_no_mask_and_no_key() {
    let mut layout = us_layout();
    layout.modifier_indices.alt = MOD_INVALID;
    layout.names.alt_l = both(0);
    let map = KeyMap::from_layout(layout);
    assert_eq!(map.modifier_mask(&[Modifier::Alt]), 0);
    assert_eq!(map.modifier_evdev(Modifier::Alt).unwrap_err(), "US keymap has no key for Alt_L");
    assert_eq!(map.parse_combo("alt", both(0)).unwrap_err(), "US keymap has no key for Alt_L");
}

#[test]
fn lowest_level_and_lowest_key_win() {
    let mut layout = us_layout();
    layout.plain[100].push('A' as u32);
    layout.plain[101].push('A' as u32);
    layout.plain[99].push('t' as u32);
    let map = KeyMap::from_layout(layout);
    assert_eq!(
        map.char_stroke(char_sym('A')),
        Some(KeyStroke { evdev: 100, shift: false })
    );
    assert_eq!(map.char_stroke(char_sym('t')).unwrap().evdev, KEY_T);
}

#[test]
fn keycodes_without_an_evdev_code_are_passed_over() {
    let mut layout = us_layout();
    layout.min_keycode = 0;
    let map = KeyMap::from_layout(layout);
    assert_eq!(map.char_stroke(char_sym('a')).unwrap().evdev, KEY_A - XKB_OFFSET as u16);
    assert_eq!(map.char_stroke(char_sym('1')), None);
}

#[test]
fn paste_is_control_and_v() {
    let map = keymap();
    let combo = map.paste_combo().unwrap();
    assert_eq!((combo.modifiers, combo.key), (vec![Modifier::Ctrl], KEY_V));
    assert_eq!(map.text(), "xkb_keymap { };");
}
