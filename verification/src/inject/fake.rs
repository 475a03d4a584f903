//! A device that records its events in memory and fails on request.

use vstd::prelude::*;

use super::held::{
    held_buttons, key_releases, lemma_failed_releases_stay_held, HeldModel, Release,
};
use super::pressed::{
    ascending, lemma_without_code, with_code, without_code, PressedButtons, PressedKeys,
};
use super::{Button, InjectError, Injector};

verus! {

#[derive(Debug, Clone, Copy, PartialEq, Eq, Structural)]
pub enum FakeEvent {
    MoveAbs { x: u32, y: u32 },
    Button { button: Button, pressed: bool },
    Key { code: u16, pressed: bool },
    Scroll { horizontal: i32, vertical: i32 },
    Syn,
}

#[derive(Debug)]
pub struct FakeInjector {
    pub events: Vec<FakeEvent>,
    pub pressed_buttons: PressedButtons,
    pub pressed_keys: PressedKeys,
    /// The message of the next call that gets past `fail_after`.
    pub fail_next: Option<String>,
    /// How many more calls succeed before one fails.
    pub fail_after: Option<usize>,
}

/// What a recording device holds, and what its next calls do.
pub struct FakeModel {
    pub events: Seq<FakeEvent>,
    pub buttons: Set<Button>,
    pub keys: Seq<u16>,
    pub fail_next: Option<Seq<char>>,
    pub fail_after: Option<usize>,
}

/// The message of a failed call, or nothing where it succeeded.
pub open spec fn error_of(result: Result<(), InjectError>) -> Option<Seq<char>> {
    match result {
        Ok(_) => None,
        Err(error) => Some(error.message@),
    }
}

impl View for FakeInjector {
    type V = FakeModel;

    open spec fn view(&self) -> FakeModel {
        FakeModel {
            events: self.events@,
            buttons: self.pressed_buttons@,
            keys: self.pressed_keys@,
            fail_next: match self.fail_next {
                Some(reason) => Some(reason@),
                None => None,
            },
            fail_after: self.fail_after,
        }
    }
}

impl FakeModel {
    /// One event and its sync are recorded, and the call fails where a failure
    /// is due: the counted one first, else the one asked for by message.
    pub open spec fn recorded(self, event: FakeEvent) -> (FakeModel, Option<Seq<char>>) {
        let events = self.events.push(event).push(FakeEvent::Syn);
        match self.fail_after {
            Some(0) => (
                FakeModel { events, fail_after: None, ..self },
                Some("fake injector failure"@),
            ),
            Some(n) => (
                FakeModel {
                    events,
                    fail_after: Some((n - 1) as usize),
                    fail_next: None,
                    ..self
                },
                self.fail_next,
            ),
            None => (FakeModel { events, fail_next: None, ..self }, self.fail_next),
        }
    }

    /// A pressed button is held from the moment of the call; a released one
    /// until a call for it succeeds.
    pub open spec fn button_sent(self, button: Button, pressed: bool) -> (
        FakeModel,
        Option<Seq<char>>,
    ) {
        let before = if pressed {
            FakeModel { buttons: self.buttons.insert(button), ..self }
        } else {
            self
        };
        let (after, error) = before.recorded(FakeEvent::Button { button, pressed });
        if !pressed && error is None {
            (FakeModel { buttons: after.buttons.remove(button), ..after }, error)
        } else {
            (after, error)
        }
    }

    pub open spec fn key_sent(self, code: u16, pressed: bool) -> (FakeModel, Option<Seq<char>>) {
        let before = if pressed {
            FakeModel { keys: with_code(self.keys, code), ..self }
        } else {
            self
        };
        let (after, error) = before.recorded(FakeEvent::Key { code, pressed });
        if !pressed && error is None {
            (FakeModel { keys: without_code(after.keys, code), ..after }, error)
        } else {
            (after, error)
        }
    }

    /// Releases `button` where it is held, keeping the first error.
    pub open spec fn button_released(self, button: Button, first: Option<Seq<char>>) -> (
        FakeModel,
        Option<Seq<char>>,
    ) {
        if self.buttons.contains(button) {
            let (after, error) = self.button_sent(button, false);
            (after, if first is Some { first } else { error })
        } else {
            (self, first)
        }
    }

    /// Releases the keys of `codes` in order, keeping the first error.
    pub open spec fn keys_released(self, codes: Seq<u16>, first: Option<Seq<char>>) -> (
        FakeModel,
        Option<Seq<char>>,
    )
        decreases codes.len(),
    {
        if codes.len() == 0 {
            (self, first)
        } else {
            let (before, kept) = self.keys_released(codes.drop_last(), first);
            let (after, error) = before.key_sent(codes.last(), false);
            (after, if kept is Some { kept } else { error })
        }
    }

    /// The left, the right and the middle button, then the keys in ascending
    /// order of their codes.
    pub open spec fn all_released(self) -> (FakeModel, Option<Seq<char>>) {
        let (left, first) = self.button_released(Button::Left, None);
        let (right, second) = left.button_released(Button::Right, first);
        let (middle, third) = right.button_released(Button::Middle, second);
        middle.keys_released(middle.keys, third)
    }
}

impl FakeInjector {
    pub fn new() -> (fake: FakeInjector)
        ensures
            fake@ == (FakeModel {
                events: Seq::empty(),
                buttons: Set::empty(),
                keys: Seq::empty(),
                fail_next: None,
                fail_after: None,
            }),
    {
        FakeInjector {
            events: Vec::new(),
            pressed_buttons: PressedButtons::new(),
            pressed_keys: PressedKeys::new(),
            fail_next: None,
            fail_after: None,
        }
    }

    /// Let the next call that no counted failure takes fail with `reason`.
    pub fn fail_next(&mut self, reason: &str)
        ensures
            final(self)@ == (FakeModel { fail_next: Some(reason@), ..old(self)@ }),
    {
        self.fail_next = Some(reason.to_owned());
    }

    /// Let `successes` more calls succeed, then fail the one after them.
    pub fn fail_after(&mut self, successes: usize)
        ensures
            final(self)@ == (FakeModel { fail_after: Some(successes), ..old(self)@ }),
    {
        self.fail_after = Some(successes);
    }

    fn record(&mut self, event: FakeEvent) -> (result: Result<(), InjectError>)
        ensures
            (final(self)@, error_of(result)) == old(self)@.recorded(event),
    {
        self.events.push(event);
        self.events.push(FakeEvent::Syn);
        if let Some(remaining) = self.fail_after {
            if remaining == 0 {
                self.fail_after = None;
                return Err(InjectError { message: "fake injector failure".to_owned() });
            }
            self.fail_after = Some(remaining - 1);
        }
        match self.fail_next.take() {
            Some(reason) => Err(InjectError { message: reason }),
            None => Ok(()),
        }
    }
}

impl Injector for FakeInjector {
    fn move_abs(&mut self, x: u32, y: u32) -> (result: Result<(), InjectError>)
        ensures
            (final(self)@, error_of(result)) == old(self)@.recorded(FakeEvent::MoveAbs { x, y }),
    {
        self.record(FakeEvent::MoveAbs { x, y })
    }

    fn button(&mut self, button: Button, pressed: bool) -> (result: Result<(), InjectError>)
        ensures
            (final(self)@, error_of(result)) == old(self)@.button_sent(button, pressed),
    {
        if pressed {
            self.pressed_buttons.insert(button);
        }
        let result = self.record(FakeEvent::Button { button, pressed });
        if !pressed && result.is_ok() {
            self.pressed_buttons.remove(button);
        }
        result
    }

    fn key(&mut self, code: u16, pressed: bool) -> (result: Result<(), InjectError>)
        ensures
            (final(self)@, error_of(result)) == old(self)@.key_sent(code, pressed),
    {
        if pressed {
            self.pressed_keys.insert(code);
        }
        let result = self.record(FakeEvent::Key { code, pressed });
        if !pressed && result.is_ok() {
            self.pressed_keys.remove(code);
        }
        result
    }

    fn scroll(&mut self, horizontal: i32, vertical: i32) -> (result: Result<(), InjectError>)
        ensures
            (final(self)@, error_of(result)) == old(self)@.recorded(
                FakeEvent::Scroll { horizontal, vertical },
            ),
    {
        self.record(FakeEvent::Scroll { horizontal, vertical })
    }

    fn release_all(&mut self) -> (result: Result<(), InjectError>)
        ensures
            (final(self)@, error_of(result)) == old(self)@.all_released(),
    {
        let mut first_error: Option<InjectError> = None;
        release_button(self, Button::Left, &mut first_error);
        release_button(self, Button::Right, &mut first_error);
        release_button(self, Button::Middle, &mut first_error);
        let codes: Vec<u16> = self.pressed_keys.codes();
        let ghost start = self@;
        let ghost kept = message_of(first_error);
        let mut i: usize = 0;
        while i < codes.len()
            invariant
                i <= codes@.len(),
                (self@, message_of(first_error)) == start.keys_released(
                    codes@.take(i as int),
                    kept,
                ),
            decreases codes@.len() - i,
        {
            let result = self.key(codes[i], false);
            keep_first(&mut first_error, result);
            assert(codes@.take(i + 1).drop_last() =~= codes@.take(i as int));
            i += 1;
        }
        assert(codes@.take(i as int) =~= codes@);
        match first_error {
            Some(error) => Err(error),
            None => Ok(()),
        }
    }
}

pub open spec fn message_of(error: Option<InjectError>) -> Option<Seq<char>> {
    match error {
        Some(error) => Some(error.message@),
        None => None,
    }
}

/// Remembers the error of `result` unless one is remembered already.
pub fn keep_first(first: &mut Option<InjectError>, result: Result<(), InjectError>)
    ensures
        message_of(*final(first)) == if message_of(*old(first)) is Some {
            message_of(*old(first))
        } else {
            error_of(result)
        },
{
    if first.is_none() {
        if let Err(error) = result {
            *first = Some(error);
        }
    }
}

fn release_button(fake: &mut FakeInjector, button: Button, first: &mut Option<InjectError>)
    ensures
        (final(fake)@, message_of(*final(first))) == old(fake)@.button_released(
            button,
            message_of(*old(first)),
        ),
{
    if fake.pressed_buttons.contains(button) {
        let result = fake.button(button, false);
        keep_first(first, result);
    }
}

proof fn lemma_keys_released(model: FakeModel, codes: Seq<u16>, first: Option<Seq<char>>)
    requires
        ascending(model.keys),
        model.keys_released(codes, first).1 is None,
    ensures
        ascending(model.keys_released(codes, first).0.keys),
        model.keys_released(codes, first).0.buttons == model.buttons,
        forall|c: u16| #[trigger]
            model.keys_released(codes, first).0.keys.contains(c) <==> model.keys.contains(c)
                && !codes.contains(c),
        first is None,
    decreases codes.len(),
{
    if codes.len() > 0 {
        let rest = codes.drop_last();
        lemma_keys_released(model, rest, first);
        let before = model.keys_released(rest, first).0;
        lemma_without_code(before.keys, codes.last());
        assert forall|c: u16| codes.contains(c) <==> rest.contains(c) || c == codes.last() by {
            if codes.contains(c) {
                let i = choose|i: int| 0 <= i < codes.len() && codes[i] == c;
                if i < rest.len() {
                    assert(rest[i] == c);
                }
            }
            if rest.contains(c) {
                let i = choose|i: int| 0 <= i < rest.len() && rest[i] == c;
                assert(codes[i] == c);
            }
            assert(codes[codes.len() - 1] == codes.last());
        }
    }
}

/// A release of everything that reports success leaves nothing held.
pub proof fn lemma_release_all_leaves_nothing_held(model: FakeModel)
    requires
        ascending(model.keys),
        model.all_released().1 is None,
    ensures
        model.all_released().0.buttons == Set::<Button>::empty(),
        model.all_released().0.keys == Seq::<u16>::empty(),
{
    let (left, first) = model.button_released(Button::Left, None);
    let (right, second) = left.button_released(Button::Right, first);
    let (middle, third) = right.button_released(Button::Middle, second);
    lemma_keys_released(middle, middle.keys, third);
    let done = model.all_released().0;
    if done.keys.len() > 0 {
        assert(done.keys.contains(done.keys[0]));
    }
    assert(done.keys =~= Seq::<u16>::empty());
    assert forall|button: Button| !done.buttons.contains(button) by {
        match button {
            Button::Left => {},
            Button::Right => {},
            Button::Middle => {},
        }
    }
    assert(done.buttons =~= Set::<Button>::empty());
}

/// A release that fails leaves the button held, so that a later release of
/// everything tries it again.
pub proof fn lemma_failed_release_keeps_button(model: FakeModel, button: Button)
    requires
        model.buttons.contains(button),
        model.button_sent(button, false).1 is Some,
    ensures
        model.button_sent(button, false).0.buttons == model.buttons,
{
}

/// With no failure asked for, releasing everything succeeds.
pub proof fn lemma_release_all_succeeds_without_failures(model: FakeModel)
    requires
        model.fail_next is None,
        model.fail_after is None,
    ensures
        model.all_released().1 is None,
{
    let (left, first) = model.button_released(Button::Left, None);
    let (right, second) = left.button_released(Button::Right, first);
    let (middle, third) = right.button_released(Button::Middle, second);
    lemma_no_failure_releases_keys(middle, middle.keys);
}

proof fn lemma_no_failure_releases_keys(model: FakeModel, codes: Seq<u16>)
    requires
        model.fail_next is None,
        model.fail_after is None,
    ensures
        model.keys_released(codes, None).1 is None,
        model.keys_released(codes, None).0.fail_next is None,
        model.keys_released(codes, None).0.fail_after is None,
    decreases codes.len(),
{
    if codes.len() > 0 {
        lemma_no_failure_releases_keys(model, codes.drop_last());
    }
}

impl FakeModel {
    /// What the device holds down.
    pub open spec fn held(self) -> HeldModel {
        HeldModel { buttons: self.buttons, keys: self.keys }
    }

    /// One release.
    pub open spec fn attempt(self, release: Release) -> (FakeModel, Option<Seq<char>>) {
        match release {
            Release::Button(button) => self.button_sent(button, false),
            Release::Key(code) => self.key_sent(code, false),
        }
    }

    /// Releases, one after the other.
    pub open spec fn attempted(self, releases: Seq<Release>) -> FakeModel
        decreases releases.len(),
    {
        if releases.len() == 0 {
            self
        } else {
            self.attempted(releases.drop_last()).attempt(releases.last()).0
        }
    }

    /// Which of the releases succeed.
    pub open spec fn outcomes(self, releases: Seq<Release>) -> Seq<bool>
        decreases releases.len(),
    {
        if releases.len() == 0 {
            Seq::empty()
        } else {
            let rest = releases.drop_last();
            self.outcomes(rest).push(self.attempted(rest).attempt(releases.last()).1 is None)
        }
    }
}

proof fn lemma_attempted(model: FakeModel, releases: Seq<Release>, sent: Seq<bool>)
    requires
        model.outcomes(releases).is_prefix_of(sent),
    ensures
        model.outcomes(releases).len() == releases.len(),
        model.attempted(releases).held() == model.held().after(releases, sent),
    decreases releases.len(),
{
    if releases.len() > 0 {
        let rest = releases.drop_last();
        let outcomes = model.outcomes(releases);
        assert(outcomes.drop_last() =~= model.outcomes(rest));
        assert(model.outcomes(rest).is_prefix_of(sent)) by {
            assert forall|i: int| 0 <= i < model.outcomes(rest).len() implies #[trigger] sent[i]
                == model.outcomes(rest)[i] by {
                assert(outcomes[i] == sent[i]);
            }
            assert(model.outcomes(rest) =~= sent.take(model.outcomes(rest).len() as int));
        }
        lemma_attempted(model, rest, sent);
        assert(outcomes[outcomes.len() - 1] == sent[outcomes.len() - 1]);
    }
}

proof fn lemma_attempted_in_turn(model: FakeModel, first: Seq<Release>, second: Seq<Release>)
    ensures
        model.attempted(first + second) == model.attempted(first).attempted(second),
    decreases second.len(),
{
    if second.len() == 0 {
        assert(first + second =~= first);
    } else {
        let rest = second.drop_last();
        lemma_attempted_in_turn(model, first, rest);
        assert((first + second).drop_last() =~= first + rest);
        assert((first + second).last() == second.last());
    }
}

proof fn lemma_attempted_keys(model: FakeModel, codes: Seq<u16>, first: Option<Seq<char>>)
    ensures
        model.keys_released(codes, first).0 == model.attempted(key_releases(codes)),
    decreases codes.len(),
{
    if codes.len() > 0 {
        lemma_attempted_keys(model, codes.drop_last(), first);
        assert(key_releases(codes).drop_last() =~= key_releases(codes.drop_last()));
        assert(key_releases(codes).last() == Release::Key(codes.last()));
    }
}

proof fn lemma_attempted_button(
    model: FakeModel,
    button: Button,
    first: Option<Seq<char>>,
    buttons: Set<Button>,
)
    requires
        model.buttons.contains(button) == buttons.contains(button),
    ensures
        model.button_released(button, first).0 == model.attempted(held_buttons(buttons, button)),
        model.button_released(button, first).0.keys == model.keys,
        forall|other: Button|
            other != button ==> model.button_released(button, first).0.buttons.contains(other)
                == #[trigger] model.buttons.contains(other),
{
    if buttons.contains(button) {
        let list = held_buttons(buttons, button);
        assert(list.drop_last() =~= Seq::<Release>::empty());
        assert(model.attempted(list.drop_last()) == model);
        assert(list.last() == Release::Button(button));
    }
}

/// Releasing everything leaves exactly that held whose release failed, as with
/// any device.
pub proof fn lemma_release_all_keeps_what_failed(model: FakeModel, release: Release)
    requires
        ascending(model.keys),
    ensures
        ({
            let releases = model.held().releases();
            let sent = model.outcomes(releases);
            &&& sent.len() == releases.len()
            &&& model.all_released().0.held() == model.held().after(releases, sent)
            &&& model.all_released().0.held().holds(release) <==> exists|i: int|
                0 <= i < sent.len() && #[trigger] releases[i] == release && !sent[i]
        }),
{
    let releases = model.held().releases();
    let sent = model.outcomes(releases);
    let (a, b, c, d) = (
        held_buttons(model.buttons, Button::Left),
        held_buttons(model.buttons, Button::Right),
        held_buttons(model.buttons, Button::Middle),
        key_releases(model.keys),
    );
    let (left, first) = model.button_released(Button::Left, None);
    lemma_attempted_button(model, Button::Left, None, model.buttons);
    let (right, second) = left.button_released(Button::Right, first);
    assert(left.buttons.contains(Button::Right) == model.buttons.contains(Button::Right));
    lemma_attempted_button(left, Button::Right, first, model.buttons);
    assert(left.buttons.contains(Button::Middle) == model.buttons.contains(Button::Middle));
    let (middle, third) = right.button_released(Button::Middle, second);
    assert(right.buttons.contains(Button::Middle) == left.buttons.contains(Button::Middle));
    lemma_attempted_button(right, Button::Middle, second, model.buttons);
    lemma_attempted_keys(middle, middle.keys, third);
    lemma_attempted_in_turn(model, a, b);
    lemma_attempted_in_turn(model, a + b, c);
    lemma_attempted_in_turn(model, a + b + c, d);
    assert(model.all_released().0 == model.attempted(releases));
    assert(sent.is_prefix_of(sent)) by {
        assert(sent =~= sent.take(sent.len() as int));
    }
    lemma_attempted(model, releases, sent);
    lemma_failed_releases_stay_held(model.held(), sent, release);
}

impl FakeModel {
    /// The device after several events, and what came of each.
    pub open spec fn after(self, events: Seq<FakeEvent>) -> FakeModel
        decreases events.len(),
    {
        if events.len() == 0 {
            self
        } else {
            self.after(events.drop_last()).recorded(events.last()).0
        }
    }

    /// What came of the event at place `i`.
    pub open spec fn outcome(self, events: Seq<FakeEvent>, i: int) -> Option<Seq<char>> {
        self.after(events.take(i)).recorded(events[i]).1
    }
}

proof fn lemma_counts_down(model: FakeModel, events: Seq<FakeEvent>, n: int)
    requires
        model.fail_next is None,
        model.fail_after matches Some(left) && left == n,
        events.len() <= n,
    ensures
        model.after(events).fail_next is None,
        model.after(events).fail_after matches Some(left) && left == n - events.len(),
    decreases events.len(),
{
    if events.len() > 0 {
        lemma_counts_down(model, events.drop_last(), n);
    }
}

/// A device that is to fail after so many calls performs that many, fails the
/// next one, and performs the one after that.
pub proof fn lemma_fails_after_so_many(model: FakeModel, events: Seq<FakeEvent>, n: int)
    requires
        model.fail_next is None,
        model.fail_after matches Some(left) && left == n,
        events.len() == n + 2,
    ensures
        forall|i: int| 0 <= i < n ==> #[trigger] model.outcome(events, i) is None,
        model.outcome(events, n) == Some("fake injector failure"@),
        model.outcome(events, n + 1) is None,
{
    assert forall|i: int| 0 <= i < n implies #[trigger] model.outcome(events, i) is None by {
        lemma_counts_down(model, events.take(i), n);
    }
    lemma_counts_down(model, events.take(n), n);
    assert(events.take(n + 1).drop_last() =~= events.take(n));
    assert(events.take(n + 1).last() == events[n]);
}

/// Every event is recorded with the sync that follows it, whatever comes of
/// it, and nothing that was recorded changes; a message asked for is given
/// once.
pub proof fn lemma_events_are_recorded(model: FakeModel, event: FakeEvent)
    ensures
        ({
            let (after, error) = model.recorded(event);
            &&& after.events == model.events + seq![event, FakeEvent::Syn]
            &&& after.buttons == model.buttons && after.keys == model.keys
            &&& model.fail_after is None ==> error == model.fail_next && after.fail_next is None
        }),
{
    assert(model.events.push(event).push(FakeEvent::Syn) =~= model.events + seq![
        event,
        FakeEvent::Syn,
    ]);
}

} // verus!
