use wayhand_mcp::inject::Button;
use wayhand_mcp::keys::{
    CharSym, KeyMap, KnownNames, Layout, NameSyms, PerModifier, XKB_OFFSET,
};
use wayhand_mcp::server::path::interpolate_pixels;
use wayhand_mcp::server::steps::{
    click_steps, combo_steps, drag_steps, type_steps, Step, DOUBLE_CLICK_GAP_MS,
};
use wayhand_mcp::time::Duration;

fn both(sym: u32) -> NameSyms {
    NameSyms { exact: sym, lower: sym }
}

/// The keys of a US layout that the tests press.
fn keymap() -> KeyMap {
    let mut plain: Vec<Vec<u32>> = vec![Vec::new(); 256];
    let mut shifted: Vec<Vec<u32>> = vec![Vec::new(); 256];
    for (code, low, high) in
        [(2, '1', '!'), (20, 't', 'T'), (23, 'i', 'I'), (35, 'h', 'H'), (47, 'v', 'V')]
    {
        plain[code].push(low as u32);
        shifted[code].push(high as u32);
    }
    for (code, sym) in [(28, 0xff0d), (29, 0xffe3), (42, 0xffe1), (56, 0xffe9), (57, 0x20)] {
        plain[code].push(sym);
    }
    KeyMap::from_layout(Layout {
        text: String::new(),
        min_keycode: XKB_OFFSET,
        plain,
        shifted,
        modifier_indices: PerModifier { shift: 0, ctrl: 2, alt: 3, logo: 6 },
        names: KnownNames {
            enter: 0xff0d,
            tab: 0xff09,
            paste: both('v' as u32),
            control_l: both(0xffe3),
            shift_l: both(0xffe1),
            alt_l: both(0xffe9),
            super_l: both(0xffeb),
        },
    })
}

fn text_syms(text: &str) -> Vec<CharSym> {
    text.chars().map(|c| CharSym { c, sym: c as u32 }).collect()
}

fn none() -> Duration {
    Duration::from_millis(0)
}

fn keys(steps: &[Step]) -> Vec<(u16, bool)> {
    steps
        .iter()
        .filter_map(|s| match s {
            Step::Key(code, pressed) => Some((*code, *pressed)),
            _ => None,
        })
        .collect()
}

#[test]
fn click_sequence_is_move_press_release() {
    assert_eq!(
        click_steps(5, 6, Button::Left, 1),
        vec![
            Step::Move(5, 6),
            Step::Button(Button::Left, true),
            Step::Button(Button::Left, false)
        ]
    );
    let double = click_steps(1, 1, Button::Left, 2);
    assert_eq!(double.len(), 6);
    assert!(matches!(double[3], Step::Sleep(_)));
    assert_eq!(double[3], Step::Sleep(Duration::from_millis(DOUBLE_CLICK_GAP_MS)));
}

#[test]
fn interpolation_is_in_pixel_space() {
    assert_eq!(
        interpolate_pixels(&[(0, 0), (100, 0)], 25),
        vec![(0, 0), (25, 0), (50, 0), (75, 0), (100, 0)]
    );
    let with_waypoint = interpolate_pixels(&[(0, 0), (10, 0), (10, 10)], 10);
    assert_eq!(with_waypoint, vec![(0, 0), (10, 0), (10, 10)]);
    assert_eq!(
        interpolate_pixels(&[(5, 5), (5, 5)], 10),
        vec![(5, 5), (5, 5)]
    );
}

#[test]
fn interpolation_takes_as_many_steps_as_the_distance_needs() {
    // The distance is 5: two steps of 3 at most, the middle at (1.5, 2).
    assert_eq!(interpolate_pixels(&[(0, 0), (3, 4)], 3), vec![(0, 0), (2, 2), (3, 4)]);
    assert_eq!(interpolate_pixels(&[(0, 0), (3, 4)], 5), vec![(0, 0), (3, 4)]);
    // Halves are rounded away from zero.
    assert_eq!(interpolate_pixels(&[(-3, 0), (0, 0)], 2), vec![(-3, 0), (-2, 0), (0, 0)]);
    assert_eq!(interpolate_pixels(&[(7, 8)], 2), vec![(7, 8)]);
    assert!(interpolate_pixels(&[], 2).is_empty());
}

#[test]
fn pixels_further_apart_than_a_step_are_linked_by_a_corner() {
    assert_eq!(
        interpolate_pixels(&[(0, 0), (1, 1)], 1),
        vec![(0, 0), (1, 0), (1, 1), (1, 1)]
    );
    assert_eq!(
        interpolate_pixels(&[(-1, 0), (0, 0)], 0),
        vec![(-1, 0), (0, 0)]
    );
    // The pixels are (-1, -1), (-1, 0), (0, 1) and (1, 1); a corner joins the middle two.
    assert_eq!(
        interpolate_pixels(&[(-2, -1), (1, 1)], 1),
        vec![(-2, -1), (-1, -1), (-1, 0), (0, 0), (0, 1), (1, 1)]
    );
}

/// The ends of the pieces of a line, with doubles.
fn stops(from: (i64, i64), to: (i64, i64), step_px: u32) -> Vec<(i64, i64)> {
    let (dx, dy) = ((to.0 - from.0) as f64, (to.1 - from.1) as f64);
    let distance = (dx * dx + dy * dy).sqrt();
    let count = (distance / f64::from(step_px.max(1))).ceil().max(1.0) as u32;
    (1..=count)
        .map(|index| {
            let t = f64::from(index) / f64::from(count);
            ((from.0 as f64 + dx * t).round() as i64, (from.1 as f64 + dy * t).round() as i64)
        })
        .collect()
}

#[test]
fn pieces_end_where_doubles_put_them() {
    let lines = [
        ((0, 0), (141, 141)),
        ((3, 7), (1917, 1061)),
        ((-49, 12), (50, -37)),
        ((0, 0), (0, 0)),
        ((1, 1), ((1 << 53) + 1, 1)),
    ];
    for (from, to) in lines {
        for step_px in [3u32, 20, 98, u32::MAX] {
            if to.0 > 1_000_000 && step_px < u32::MAX {
                continue;
            }
            let path = interpolate_pixels(&[from, to], step_px);
            let mut rest = path.iter();
            assert_eq!(rest.next(), Some(&from));
            if to.0 > 1_000_000 {
                assert_eq!(path.last(), stops(from, to, step_px).last());
                continue;
            }
            for stop in stops(from, to, step_px) {
                assert!(rest.any(|point| *point == stop), "{:?} in steps of {}", stop, step_px);
            }
            assert_eq!(rest.next(), None);
        }
    }
}

#[test]
fn consecutive_points_are_at_most_a_step_apart() {
    let lines: [&[(i64, i64)]; 5] = [
        &[(0, 0), (1, 1)],
        &[(0, 0), (141, 141)],
        &[(-7, 3), (5, -4), (5, 9)],
        &[(1919, 1079), (0, 0), (0, 0), (640, 360)],
        &[(3, 3)],
    ];
    for line in lines {
        for step_px in [0u32, 1, 2, 7, 20, 500] {
            let path = interpolate_pixels(line, step_px);
            let step = i64::from(step_px.max(1));
            assert_eq!(path.first(), line.first());
            assert_eq!(path.last(), line.last());
            for pair in path.windows(2) {
                let (dx, dy) = (pair[1].0 - pair[0].0, pair[1].1 - pair[0].1);
                assert!(dx * dx + dy * dy <= step * step, "{:?} in steps of {}", pair, step);
            }
        }
    }
}

#[test]
fn a_path_stays_between_its_points() {
    for step_px in [1, 3, 20] {
        for (x, y) in interpolate_pixels(&[(2, 9), (40, 1), (11, 30)], step_px) {
            assert!((2..=40).contains(&x) && (1..=30).contains(&y));
        }
    }
}

#[test]
fn drag_interpolates_and_releases_last() {
    let path: Vec<(u32, u32)> = interpolate_pixels(&[(0, 0), (100, 0)], 25)
        .into_iter()
        .map(|(x, y)| (x as u32, y as u32))
        .collect();
    let steps = drag_steps(&path, none());
    assert_eq!(steps.first(), Some(&Step::Move(0, 0)));
    assert_eq!(steps.last(), Some(&Step::Button(Button::Left, false)));
    let moves: Vec<_> = steps
        .iter()
        .filter_map(|s| match s {
            Step::Move(x, _) => Some(*x),
            _ => None,
        })
        .collect();
    assert_eq!(moves, vec![0, 25, 50, 75, 100]);
    assert_eq!(
        steps
            .iter()
            .filter(|s| matches!(s, Step::Button(_, true)))
            .count(),
        1
    );
}

#[test]
fn drag_with_waypoint_visits_it() {
    let steps = drag_steps(&[(0, 0), (10, 0), (10, 10)], none());
    assert!(steps.contains(&Step::Move(10, 0)));
    assert_eq!(
        steps.iter().rev().find_map(|s| match s {
            Step::Move(x, y) => Some((*x, *y)),
            _ => None,
        }),
        Some((10, 10))
    );
}

#[test]
fn drag_holds_before_and_after_each_turn() {
    let hold = Duration::from_millis(70);
    let pause = Duration::from_millis(10);
    assert_eq!(
        drag_steps(&[(1, 2), (3, 4)], hold),
        vec![
            Step::Move(1, 2),
            Step::Sleep(hold),
            Step::Button(Button::Left, true),
            Step::Sleep(hold),
            Step::Move(3, 4),
            Step::Sleep(pause),
            Step::Sleep(hold),
            Step::Button(Button::Left, false),
        ]
    );
}

#[test]
fn combo_presses_modifiers_first_and_releases_in_reverse() {
    let keymap = keymap();
    let combo = keymap.parse_combo("ctrl+shift+t", both('t' as u32)).unwrap();
    let steps = combo_steps(&keymap, &combo).unwrap();
    let keys = keys(&steps);
    assert_eq!(keys.len(), 6);
    assert_eq!(keys[0], (29, true));
    assert_eq!(keys[1], (42, true));
    assert_eq!(keys[2], (20, true));
    assert_eq!(keys[3], (20, false));
    assert_eq!(keys[4], (42, false));
    assert_eq!(keys[5], (29, false));
    assert!(matches!(steps.first(), Some(Step::Modifiers(m)) if *m != 0));
    assert_eq!(steps.last(), Some(&Step::Modifiers(0)));
}

#[test]
fn combo_without_a_key_for_its_modifier_is_refused() {
    let keymap = keymap();
    let combo = keymap.parse_combo("super+t", both('t' as u32)).unwrap();
    assert_eq!(
        combo_steps(&keymap, &combo).unwrap_err(),
        "US keymap has no key for Super_L"
    );
}

#[test]
fn type_plan_types_ascii_and_pastes_the_rest() {
    let plan = type_steps(&keymap(), &text_syms("Hi 中文!"), none()).unwrap();
    assert_eq!(plan.typed_chars, 4);
    assert_eq!(plan.pasted_chars, 2);
    assert!(plan.steps.contains(&Step::Clipboard("中文".to_owned())));
    // 'H' needs shift: shift press precedes the key press
    let first_keys: Vec<_> = keys(&plan.steps).into_iter().take(2).collect();
    assert_eq!(first_keys[0], (42, true));
    assert_eq!(first_keys[1], (35, true));
}

#[test]
fn typing_leaves_nothing_down() {
    let plan = type_steps(&keymap(), &text_syms("Hi 中t!\n"), Duration::from_millis(3)).unwrap();
    let mut down: Vec<u16> = Vec::new();
    let mut mask = 0;
    for step in &plan.steps {
        match step {
            Step::Key(code, true) => down.push(*code),
            Step::Key(code, false) => down.retain(|held| held != code),
            Step::Modifiers(now) => mask = *now,
            _ => {}
        }
    }
    assert!(down.is_empty());
    assert_eq!(mask, 0);
    assert_eq!(plan.typed_chars + plan.pasted_chars, 7);
    let pasted: Vec<(u16, bool)> = keys(&plan.steps)
        .into_iter()
        .skip_while(|key| *key != (29, true))
        .take(4)
        .collect();
    assert_eq!(pasted, vec![(29, true), (47, true), (47, false), (29, false)]);
}
