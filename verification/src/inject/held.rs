//! What a real device holds down, as far as its calls tell, and how to let go
//! of it.

use vstd::prelude::*;

use super::pressed::{
    ascending, lemma_with_code, lemma_without_code, with_code, without_code, PressedButtons,
    PressedKeys,
};
use super::Button;

verus! {

#[derive(Debug)]
pub struct Held {
    pub buttons: PressedButtons,
    pub keys: PressedKeys,
}

#[verifier::ext_equal]
pub struct HeldModel {
    pub buttons: Set<Button>,
    pub keys: Seq<u16>,
}

impl View for Held {
    type V = HeldModel;

    open spec fn view(&self) -> HeldModel {
        HeldModel { buttons: self.buttons@, keys: self.keys@ }
    }
}

/// One release.
#[derive(Debug, Clone, Copy, PartialEq, Eq, Structural)]
pub enum Release {
    Button(Button),
    Key(u16),
}

pub open spec fn held_buttons(buttons: Set<Button>, button: Button) -> Seq<Release> {
    if buttons.contains(button) {
        seq![Release::Button(button)]
    } else {
        Seq::empty()
    }
}

pub open spec fn key_releases(keys: Seq<u16>) -> Seq<Release> {
    keys.map_values(|key: u16| Release::Key(key))
}

impl HeldModel {
    /// A press holds the button from the moment it is sent, whatever comes of
    /// it; a release lets go of it only where it succeeded.
    pub open spec fn button_sent(self, button: Button, pressed: bool, sent: bool) -> HeldModel {
        if pressed {
            HeldModel { buttons: self.buttons.insert(button), ..self }
        } else if sent {
            HeldModel { buttons: self.buttons.remove(button), ..self }
        } else {
            self
        }
    }

    pub open spec fn key_sent(self, code: u16, pressed: bool, sent: bool) -> HeldModel {
        if pressed {
            HeldModel { keys: with_code(self.keys, code), ..self }
        } else if sent {
            HeldModel { keys: without_code(self.keys, code), ..self }
        } else {
            self
        }
    }

    /// Everything that is held: the left, the right and the middle button, then
    /// the keys in ascending order of their codes.
    pub open spec fn releases(self) -> Seq<Release> {
        held_buttons(self.buttons, Button::Left) + held_buttons(self.buttons, Button::Right)
            + held_buttons(self.buttons, Button::Middle) + key_releases(self.keys)
    }

    pub open spec fn released(self, release: Release, sent: bool) -> HeldModel {
        match release {
            Release::Button(button) => self.button_sent(button, false, sent),
            Release::Key(code) => self.key_sent(code, false, sent),
        }
    }

    /// What is still held after releases of which these were sent.
    pub open spec fn after(self, releases: Seq<Release>, sent: Seq<bool>) -> HeldModel
        decreases releases.len(),
    {
        if releases.len() == 0 {
            self
        } else {
            self.after(releases.drop_last(), sent).released(
                releases.last(),
                sent[releases.len() - 1],
            )
        }
    }

    pub open spec fn holds(self, release: Release) -> bool {
        match release {
            Release::Button(button) => self.buttons.contains(button),
            Release::Key(code) => self.keys.contains(code),
        }
    }
}

impl Held {
    pub fn new() -> (held: Held)
        ensures
            held@ == (HeldModel { buttons: Set::empty(), keys: Seq::empty() }),
    {
        Held { buttons: PressedButtons::new(), keys: PressedKeys::new() }
    }

    /// Takes note of a button event that was sent to the device.
    pub fn button_sent(&mut self, button: Button, pressed: bool, sent: bool)
        ensures
            final(self)@ == old(self)@.button_sent(button, pressed, sent),
    {
        if pressed {
            self.buttons.insert(button);
        } else if sent {
            self.buttons.remove(button);
        }
    }

    /// Takes note of a key event that was sent to the device.
    pub fn key_sent(&mut self, code: u16, pressed: bool, sent: bool)
        ensures
            final(self)@ == old(self)@.key_sent(code, pressed, sent),
    {
        if pressed {
            self.keys.insert(code);
        } else if sent {
            self.keys.remove(code);
        }
    }

    /// The releases that let go of everything, in order.
    pub fn releases(&self) -> (releases: Vec<Release>)
        ensures
            releases@ == self@.releases(),
    {
        let mut releases: Vec<Release> = Vec::new();
        if self.buttons.contains(Button::Left) {
            releases.push(Release::Button(Button::Left));
        }
        if self.buttons.contains(Button::Right) {
            releases.push(Release::Button(Button::Right));
        }
        if self.buttons.contains(Button::Middle) {
            releases.push(Release::Button(Button::Middle));
        }
        let codes: Vec<u16> = self.keys.codes();
        let ghost buttons = releases@;
        let mut i: usize = 0;
        assert(buttons + key_releases(codes@.take(0)) =~= buttons);
        while i < codes.len()
            invariant
                i <= codes@.len(),
                releases@ == buttons + key_releases(codes@.take(i as int)),
            decreases codes@.len() - i,
        {
            releases.push(Release::Key(codes[i]));
            assert(releases@ =~= buttons + key_releases(codes@.take(i + 1)));
            i = i + 1;
        }
        assert(codes@.take(i as int) =~= codes@);
        assert(releases@ =~= self@.releases());
        releases
    }
}

proof fn lemma_after(held: HeldModel, releases: Seq<Release>, sent: Seq<bool>)
    requires
        ascending(held.keys),
        sent.len() >= releases.len(),
    ensures
        ascending(held.after(releases, sent).keys),
        forall|release: Release| #[trigger]
            held.after(releases, sent).holds(release) <==> held.holds(release) && forall|i: int|
                0 <= i < releases.len() && #[trigger] releases[i] == release ==> !sent[i],
    decreases releases.len(),
{
    if releases.len() > 0 {
        let rest = releases.drop_last();
        let last = releases.last();
        let n = releases.len() - 1;
        lemma_after(held, rest, sent);
        let before = held.after(rest, sent);
        if let Release::Key(code) = last {
            lemma_without_code(before.keys, code);
        }
        let after = held.after(releases, sent);
        assert forall|release: Release| #[trigger] after.holds(release) <==> held.holds(release)
            && forall|i: int|
            0 <= i < releases.len() && #[trigger] releases[i] == release ==> !sent[i] by {
            assert(after.holds(release) <==> before.holds(release) && !(release == last && sent[n]));
            if before.holds(release) {
                assert forall|i: int| 0 <= i < n && #[trigger] releases[i] == release implies !sent[i] by {
                    assert(rest[i] == release);
                }
            }
            if held.holds(release) && forall|i: int|
                0 <= i < releases.len() && #[trigger] releases[i] == release ==> !sent[i] {
                assert forall|i: int| 0 <= i < rest.len() && #[trigger] rest[i] == release implies !sent[i] by {
                    assert(releases[i] == release);
                }
                assert(releases[n as int] == last);
            }
        }
    }
}

/// Releasing everything leaves exactly that held whose release failed, so that
/// the next attempt takes it up again; where every release was sent, nothing
/// stays held.
pub proof fn lemma_failed_releases_stay_held(held: HeldModel, sent: Seq<bool>, release: Release)
    requires
        ascending(held.keys),
        sent.len() == held.releases().len(),
    ensures
        held.after(held.releases(), sent).holds(release) <==> exists|i: int|
            0 <= i < sent.len() && #[trigger] held.releases()[i] == release && !sent[i],
{
    let releases = held.releases();
    lemma_after(held, releases, sent);
    lemma_releases_are_what_is_held(held);
    if held.holds(release) {
        assert(releases.contains(release));
        let k = choose|k: int| 0 <= k < releases.len() && releases[k] == release;
        if held.after(releases, sent).holds(release) {
            assert(!sent[k]);
        }
    }
    assert forall|i: int| 0 <= i < sent.len() && #[trigger] releases[i] == release && !sent[i] implies held.after(
        releases,
        sent,
    ).holds(release) by {
        assert(releases.contains(release));
        assert forall|j: int| 0 <= j < releases.len() && #[trigger] releases[j] == release implies !sent[j] by {
            assert(i == j);
        }
    }
}

/// The releases name what is held, each once.
proof fn lemma_releases_are_what_is_held(held: HeldModel)
    requires
        ascending(held.keys),
    ensures
        forall|release: Release| #[trigger]
            held.releases().contains(release) <==> held.holds(release),
        forall|i: int, j: int|
            0 <= i < held.releases().len() && 0 <= j < held.releases().len()
                && #[trigger] held.releases()[i] == #[trigger] held.releases()[j] ==> i == j,
{
    let left = held_buttons(held.buttons, Button::Left);
    let right = held_buttons(held.buttons, Button::Right);
    let middle = held_buttons(held.buttons, Button::Middle);
    let keys = key_releases(held.keys);
    let all = held.releases();
    let buttons = left + right + middle;
    assert forall|release: Release| #[trigger] all.contains(release) <==> held.holds(release) by {
        match release {
            Release::Button(button) => {
                if held.holds(release) {
                    let k: int = match button {
                        Button::Left => 0,
                        Button::Right => left.len() as int,
                        Button::Middle => (left.len() + right.len()) as int,
                    };
                    assert(all[k] == release);
                }
                if all.contains(release) {
                    let k = choose|k: int| 0 <= k < all.len() && all[k] == release;
                    if k >= buttons.len() {
                        assert(all[k] == keys[k - buttons.len()]);
                    }
                }
            },
            Release::Key(code) => {
                if held.holds(release) {
                    let k = choose|k: int| 0 <= k < held.keys.len() && held.keys[k] == code;
                    assert(all[buttons.len() + k] == keys[k]);
                }
                if all.contains(release) {
                    let k = choose|k: int| 0 <= k < all.len() && all[k] == release;
                    if k >= buttons.len() {
                        assert(all[k] == keys[k - buttons.len()]);
                        assert(held.keys[k - buttons.len()] == code);
                    }
                }
            },
        }
    }
    assert forall|i: int, j: int|
        0 <= i < all.len() && 0 <= j < all.len() && #[trigger] all[i] == #[trigger] all[j] implies i
        == j by {
        if i >= buttons.len() {
            assert(all[i] == keys[i - buttons.len()]);
        }
        if j >= buttons.len() {
            assert(all[j] == keys[j - buttons.len()]);
        }
        if i >= buttons.len() && j >= buttons.len() {
            let a = i - buttons.len();
            let b = j - buttons.len();
            assert(held.keys[a] == held.keys[b]);
            if a < b {
                assert(held.keys[a] < held.keys[b]);
            }
            if b < a {
                assert(held.keys[b] < held.keys[a]);
            }
        }
    }
}

/// What is held keeps its order, whatever is sent.
pub proof fn lemma_held_keys_stay_in_order(held: HeldModel, code: u16, pressed: bool, sent: bool)
    requires
        ascending(held.keys),
    ensures
        ascending(held.key_sent(code, pressed, sent).keys),
{
    lemma_with_code(held.keys, code);
    lemma_without_code(held.keys, code);
}

/// A press is remembered whatever comes of it, a release only where it was
/// sent, and what is done with one button or key changes no other.
pub proof fn lemma_what_is_held(
    held: HeldModel,
    release: Release,
    pressed: bool,
    sent: bool,
    other: Release,
)
    requires
        ascending(held.keys),
    ensures
        ({
            let after = match release {
                Release::Button(button) => held.button_sent(button, pressed, sent),
                Release::Key(code) => held.key_sent(code, pressed, sent),
            };
            &&& after.holds(release) <==> pressed || (!sent && held.holds(release))
            &&& other != release ==> (after.holds(other) <==> held.holds(other))
        }),
{
    if let Release::Key(code) = release {
        lemma_with_code(held.keys, code);
        lemma_without_code(held.keys, code);
    }
}

/// The releases of what is held name each of it once, the buttons before the
/// keys, and nothing that is not held.
pub proof fn lemma_releases_name_what_is_held(held: HeldModel, release: Release)
    requires
        ascending(held.keys),
    ensures
        held.releases().contains(release) <==> held.holds(release),
        held.releases().no_duplicates(),
        forall|i: int, j: int|
            0 <= i < j < held.releases().len() ==> !(#[trigger] held.releases()[i] is Key
                && #[trigger] held.releases()[j] is Button),
{
    lemma_releases_are_what_is_held(held);
    let keys = key_releases(held.keys);
    let all = held.releases();
    let buttons = all.len() - keys.len();
    assert forall|i: int, j: int| 0 <= i < j < all.len() implies !(#[trigger] all[i] is Key
        && #[trigger] all[j] is Button) by {
        if j >= buttons {
            assert(all[j] == keys[j - buttons]);
        }
    }
}

} // verus!
