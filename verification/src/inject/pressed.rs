//! What an input device holds down.

use vstd::prelude::*;

use super::Button;

verus! {

/// The mouse buttons that are down.
#[derive(Debug, Clone, Copy, PartialEq, Eq, Structural)]
pub struct PressedButtons {
    pub left: bool,
    pub right: bool,
    pub middle: bool,
}

impl View for PressedButtons {
    type V = Set<Button>;

    open spec fn view(&self) -> Set<Button> {
        Set::new(|button: Button| self.holds(button))
    }
}

impl PressedButtons {
    pub open spec fn holds(self, button: Button) -> bool {
        match button {
            Button::Left => self.left,
            Button::Right => self.right,
            Button::Middle => self.middle,
        }
    }

    pub fn new() -> (buttons: PressedButtons)
        ensures
            buttons@ == Set::<Button>::empty(),
    {
        let buttons = PressedButtons { left: false, right: false, middle: false };
        assert(buttons@ =~= Set::<Button>::empty());
        buttons
    }

    pub fn contains(&self, button: Button) -> (answer: bool)
        ensures
            answer == self@.contains(button),
    {
        match button {
            Button::Left => self.left,
            Button::Right => self.right,
            Button::Middle => self.middle,
        }
    }

    pub fn insert(&mut self, button: Button)
        ensures
            final(self)@ == old(self)@.insert(button),
    {
        match button {
            Button::Left => { self.left = true; },
            Button::Right => { self.right = true; },
            Button::Middle => { self.middle = true; },
        }
        assert(self@ =~= old(self)@.insert(button));
    }

    pub fn remove(&mut self, button: Button)
        ensures
            final(self)@ == old(self)@.remove(button),
    {
        match button {
            Button::Left => { self.left = false; },
            Button::Right => { self.right = false; },
            Button::Middle => { self.middle = false; },
        }
        assert(self@ =~= old(self)@.remove(button));
    }

    pub fn is_empty(&self) -> (empty: bool)
        ensures
            empty == (self@ == Set::<Button>::empty()),
    {
        let empty = !self.left && !self.right && !self.middle;
        if empty {
            assert(self@ =~= Set::<Button>::empty());
        } else {
            assert(self@.contains(Button::Left) || self@.contains(Button::Right) || self@.contains(
                Button::Middle,
            ));
        }
        empty
    }
}

/// Strictly ascending, so that nothing occurs twice.
pub open spec fn ascending(codes: Seq<u16>) -> bool {
    forall|i: int, j: int| 0 <= i < j < codes.len() ==> codes[i] < codes[j]
}

/// An ascending sequence with `code` put in its place, or unchanged where it
/// holds `code` already.
pub open spec fn with_code(codes: Seq<u16>, code: u16) -> Seq<u16>
    decreases codes.len(),
{
    if codes.len() == 0 || codes.last() < code {
        codes.push(code)
    } else if codes.last() == code {
        codes
    } else {
        with_code(codes.drop_last(), code).push(codes.last())
    }
}

/// An ascending sequence without `code`.
pub open spec fn without_code(codes: Seq<u16>, code: u16) -> Seq<u16>
    decreases codes.len(),
{
    if codes.len() == 0 || codes.last() < code {
        codes
    } else if codes.last() == code {
        codes.drop_last()
    } else {
        without_code(codes.drop_last(), code).push(codes.last())
    }
}

/// Putting a code into an ascending sequence keeps it ascending and adds that
/// code and nothing else.
pub proof fn lemma_with_code(codes: Seq<u16>, code: u16)
    requires
        ascending(codes),
    ensures
        ascending(with_code(codes, code)),
        forall|c: u16| #[trigger]
            with_code(codes, code).contains(c) <==> codes.contains(c) || c == code,
    decreases codes.len(),
{
    let out = with_code(codes, code);
    if codes.len() == 0 || codes.last() < code {
        assert(out[codes.len() as int] == code);
        assert forall|c: u16| #[trigger] out.contains(c) <==> codes.contains(c) || c == code by {
            if codes.contains(c) {
                let i = choose|i: int| 0 <= i < codes.len() && codes[i] == c;
                assert(out[i] == c);
            }
        }
    } else if codes.last() == code {
        assert(codes[codes.len() - 1] == code);
    } else {
        let rest = codes.drop_last();
        lemma_with_code(rest, code);
        let inner = with_code(rest, code);
        assert forall|i: int| 0 <= i < inner.len() implies #[trigger] inner[i] < codes.last() by {
            assert(inner.contains(inner[i]));
            if inner[i] != code {
                let k = choose|k: int| 0 <= k < rest.len() && rest[k] == inner[i];
                assert(codes[k] == rest[k]);
            }
        }
        assert forall|c: u16| #[trigger] out.contains(c) <==> codes.contains(c) || c == code by {
            if out.contains(c) {
                let i = choose|i: int| 0 <= i < out.len() && out[i] == c;
                if i < inner.len() {
                    assert(inner[i] == c);
                    assert(inner.contains(c));
                    if c != code {
                        let k = choose|k: int| 0 <= k < rest.len() && rest[k] == c;
                        assert(codes[k] == c);
                    }
                } else {
                    assert(codes[codes.len() - 1] == c);
                }
            }
            if codes.contains(c) || c == code {
                if c == code {
                    assert(inner.contains(c));
                } else {
                    let k = choose|k: int| 0 <= k < codes.len() && codes[k] == c;
                    if k < rest.len() {
                        assert(rest[k] == c);
                        assert(inner.contains(c));
                    }
                }
                if inner.contains(c) {
                    let i = choose|i: int| 0 <= i < inner.len() && inner[i] == c;
                    assert(out[i] == c);
                } else {
                    assert(out[inner.len() as int] == c);
                }
            }
        }
    }
}

/// Taking a code out of an ascending sequence keeps it ascending and removes
/// that code and nothing else.
pub proof fn lemma_without_code(codes: Seq<u16>, code: u16)
    requires
        ascending(codes),
    ensures
        ascending(without_code(codes, code)),
        forall|c: u16| #[trigger]
            without_code(codes, code).contains(c) <==> codes.contains(c) && c != code,
        without_code(codes, code).len() <= codes.len(),
    decreases codes.len(),
{
    let out = without_code(codes, code);
    if codes.len() == 0 || codes.last() < code {
        if codes.contains(code) {
            let i = choose|i: int| 0 <= i < codes.len() && codes[i] == code;
            assert(codes[i] <= codes.last());
        }
    } else if codes.last() == code {
        assert forall|c: u16| #[trigger] out.contains(c) <==> codes.contains(c) && c != code by {
            if out.contains(c) {
                let i = choose|i: int| 0 <= i < out.len() && out[i] == c;
                assert(codes[i] == c);
            }
            if codes.contains(c) && c != code {
                let i = choose|i: int| 0 <= i < codes.len() && codes[i] == c;
                assert(out[i] == c);
            }
        }
    } else {
        let rest = codes.drop_last();
        lemma_without_code(rest, code);
        let inner = without_code(rest, code);
        assert forall|i: int| 0 <= i < inner.len() implies #[trigger] inner[i] < codes.last() by {
            assert(inner.contains(inner[i]));
            let k = choose|k: int| 0 <= k < rest.len() && rest[k] == inner[i];
            assert(codes[k] == rest[k]);
        }
        assert forall|c: u16| #[trigger] out.contains(c) <==> codes.contains(c) && c != code by {
            if out.contains(c) {
                let i = choose|i: int| 0 <= i < out.len() && out[i] == c;
                if i < inner.len() {
                    assert(inner[i] == c);
                    assert(inner.contains(c));
                    let k = choose|k: int| 0 <= k < rest.len() && rest[k] == c;
                    assert(codes[k] == c);
                } else {
                    assert(codes[codes.len() - 1] == c);
                }
            }
            if codes.contains(c) && c != code {
                let k = choose|k: int| 0 <= k < codes.len() && codes[k] == c;
                if k < rest.len() {
                    assert(rest[k] == c);
                    assert(inner.contains(c));
                    let i = choose|i: int| 0 <= i < inner.len() && inner[i] == c;
                    assert(out[i] == c);
                } else {
                    assert(out[inner.len() as int] == c);
                }
            }
        }
    }
}

proof fn lemma_with_code_at(codes: Seq<u16>, code: u16, at: int)
    requires
        ascending(codes),
        0 <= at <= codes.len(),
        forall|i: int| 0 <= i < at ==> codes[i] < code,
        forall|i: int| at <= i < codes.len() ==> codes[i] >= code,
    ensures
        with_code(codes, code) == if at < codes.len() && codes[at] == code {
            codes
        } else {
            codes.insert(at, code)
        },
    decreases codes.len(),
{
    if codes.len() == 0 || codes.last() < code {
        assert(codes.insert(at, code) =~= codes.push(code));
    } else if codes.last() > code {
        let rest = codes.drop_last();
        lemma_with_code_at(rest, code, at);
        if at < rest.len() && rest[at] == code {
            assert(rest.push(codes.last()) =~= codes);
        } else {
            assert(rest.insert(at, code).push(codes.last()) =~= codes.insert(at, code));
        }
    }
}

proof fn lemma_without_code_at(codes: Seq<u16>, code: u16, at: int)
    requires
        ascending(codes),
        0 <= at <= codes.len(),
        forall|i: int| 0 <= i < at ==> codes[i] < code,
        forall|i: int| at <= i < codes.len() ==> codes[i] >= code,
    ensures
        without_code(codes, code) == if at < codes.len() && codes[at] == code {
            codes.remove(at)
        } else {
            codes
        },
    decreases codes.len(),
{
    if codes.len() == 0 || codes.last() < code {
    } else if codes.last() == code {
        assert(codes.remove(at) =~= codes.drop_last());
    } else {
        let rest = codes.drop_last();
        lemma_without_code_at(rest, code, at);
        if at < rest.len() && rest[at] == code {
            assert(rest.remove(at).push(codes.last()) =~= codes.remove(at));
        } else {
            assert(rest.push(codes.last()) =~= codes);
        }
    }
}

/// The keys that are down, in ascending order of their codes.
#[derive(Debug)]
pub struct PressedKeys {
    codes: Vec<u16>,
}

impl View for PressedKeys {
    type V = Seq<u16>;

    closed spec fn view(&self) -> Seq<u16> {
        self.codes@
    }
}

impl PressedKeys {
    #[verifier::type_invariant]
    spec fn in_order(self) -> bool {
        ascending(self.codes@)
    }

    pub fn new() -> (keys: PressedKeys)
        ensures
            keys@ == Seq::<u16>::empty(),
    {
        PressedKeys { codes: Vec::new() }
    }

    pub fn is_empty(&self) -> (empty: bool)
        ensures
            empty == (self@.len() == 0),
    {
        self.codes.len() == 0
    }

    pub fn contains(&self, code: u16) -> (answer: bool)
        ensures
            answer == self@.contains(code),
    {
        proof {
            use_type_invariant(self);
        }
        let at: usize = self.position(code);
        at < self.codes.len() && self.codes[at] == code
    }

    /// The first place whose code is not below `code`.
    fn position(&self, code: u16) -> (at: usize)
        ensures
            at <= self@.len(),
            forall|i: int| 0 <= i < at ==> self@[i] < code,
            forall|i: int| at <= i < self@.len() ==> self@[i] >= code,
    {
        proof {
            use_type_invariant(self);
        }
        let mut at: usize = 0;
        while at < self.codes.len() && self.codes[at] < code
            invariant
                at <= self.codes@.len(),
                forall|i: int| 0 <= i < at ==> self.codes@[i] < code,
            decreases self.codes@.len() - at,
        {
            at += 1;
        }
        at
    }

    pub fn insert(&mut self, code: u16)
        ensures
            final(self)@ == with_code(old(self)@, code),
    {
        let at: usize = self.position(code);
        proof {
            use_type_invariant(&*self);
            lemma_with_code(self@, code);
            lemma_with_code_at(self@, code, at as int);
        }
        if at == self.codes.len() || self.codes[at] != code {
            let mut codes: Vec<u16> = self.codes();
            codes.insert(at, code);
            self.codes = codes;
        }
    }

    pub fn remove(&mut self, code: u16)
        ensures
            final(self)@ == without_code(old(self)@, code),
    {
        let at: usize = self.position(code);
        proof {
            use_type_invariant(&*self);
            lemma_without_code(self@, code);
            lemma_without_code_at(self@, code, at as int);
        }
        if at < self.codes.len() && self.codes[at] == code {
            let mut codes: Vec<u16> = self.codes();
            codes.remove(at);
            self.codes = codes;
        }
    }

    /// The codes in ascending order.
    pub fn codes(&self) -> (codes: Vec<u16>)
        ensures
            codes@ == self@,
            ascending(self@),
    {
        proof {
            use_type_invariant(self);
        }
        let mut codes: Vec<u16> = Vec::new();
        let mut i: usize = 0;
        while i < self.codes.len()
            invariant
                i <= self.codes@.len(),
                codes@ == self.codes@.take(i as int),
            decreases self.codes@.len() - i,
        {
            codes.push(self.codes[i]);
            assert(self.codes@.take(i + 1) =~= self.codes@.take(i as int).push(
                self.codes@[i as int],
            ));
            i += 1;
        }
        assert(self.codes@.take(i as int) =~= self.codes@);
        codes
    }
}

} // verus!
