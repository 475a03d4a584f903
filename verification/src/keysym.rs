//! Which keysym names are looked up, and how.
//!
//! The look-ups themselves are made outside; here stands what they ask for.

use vstd::prelude::*;
use vstd::string::*;

use crate::keys::{key_word, KeyMap, Modifier};
use crate::text::{chars_of, lower, text_of, to_lower};

verus! {

/// One look-up of a keysym by its name.
#[derive(Debug, Clone, PartialEq, Eq)]
pub struct Lookup {
    pub name: String,
    pub ignores_case: bool,
}

pub struct LookupModel {
    pub name: Seq<char>,
    pub ignores_case: bool,
}

impl View for Lookup {
    type V = LookupModel;

    open spec fn view(&self) -> LookupModel {
        LookupModel { name: self.name@, ignores_case: self.ignores_case }
    }
}

impl Lookup {
    /// A name that counts only as it is spelled.
    pub fn spelled(name: &str) -> (lookup: Lookup)
        ensures
            lookup@ == (LookupModel { name: name@, ignores_case: false }),
    {
        Lookup { name: name.to_owned(), ignores_case: false }
    }

    /// A name in whatever case its letters are.
    pub fn in_any_case(name: &str) -> (lookup: Lookup)
        ensures
            lookup@ == (LookupModel { name: name@, ignores_case: true }),
    {
        Lookup { name: name.to_owned(), ignores_case: true }
    }
}

/// The look-ups of a key name: as it is written, and in lower case.
#[derive(Debug, Clone, PartialEq, Eq)]
pub struct NameLookups {
    pub exact: Lookup,
    pub lower: Lookup,
}

pub struct NameLookupsModel {
    pub exact: LookupModel,
    pub lower: LookupModel,
}

impl View for NameLookups {
    type V = NameLookupsModel;

    open spec fn view(&self) -> NameLookupsModel {
        NameLookupsModel { exact: self.exact@, lower: self.lower@ }
    }
}

/// Neither look-up of a key name regards case.
pub open spec fn lookups_of(name: Seq<char>) -> NameLookupsModel {
    NameLookupsModel {
        exact: LookupModel { name, ignores_case: true },
        lower: LookupModel { name: lower(name), ignores_case: true },
    }
}

impl NameLookups {
    pub fn of(name: &str) -> (lookups: NameLookups)
        ensures
            lookups@ == lookups_of(name@),
    {
        let chars: Vec<char> = chars_of(name);
        let lowered: Vec<char> = to_lower(&chars);
        let small = text_of(&lowered);
        NameLookups {
            exact: Lookup::in_any_case(name),
            lower: Lookup::in_any_case(small.as_str()),
        }
    }

    /// The look-ups of the key name in a combo, none where the combo has no
    /// key name.
    pub fn of_combo(combo: &str) -> (lookups: Option<NameLookups>)
        ensures
            match lookups {
                Some(lookups) => key_word(combo@) matches Some(name) && lookups@
                    == lookups_of(name),
                None => key_word(combo@) is None,
            },
    {
        match KeyMap::key_name(combo) {
            Some(name) => Some(NameLookups::of(name.as_str())),
            None => None,
        }
    }
}

/// The look-ups of the names that the mapping itself uses.
#[derive(Debug, Clone, PartialEq, Eq)]
pub struct KnownLookups {
    pub enter: Lookup,
    pub tab: Lookup,
    pub paste: NameLookups,
    pub control_l: NameLookups,
    pub shift_l: NameLookups,
    pub alt_l: NameLookups,
    pub super_l: NameLookups,
}

impl KnownLookups {
    /// The line ends and the tab go by the exact names of their keys, the
    /// key of the paste combo and the left keys of the modifiers by names in
    /// any case.
    pub fn all() -> (known: KnownLookups)
        ensures
            known.enter@ == (LookupModel { name: "Return"@, ignores_case: false }),
            known.tab@ == (LookupModel { name: "Tab"@, ignores_case: false }),
            known.paste@ == lookups_of("v"@),
            known.control_l@ == lookups_of(Modifier::Ctrl.keysym_text()),
            known.shift_l@ == lookups_of(Modifier::Shift.keysym_text()),
            known.alt_l@ == lookups_of(Modifier::Alt.keysym_text()),
            known.super_l@ == lookups_of(Modifier::Super.keysym_text()),
    {
        KnownLookups {
            enter: Lookup::spelled("Return"),
            tab: Lookup::spelled("Tab"),
            paste: NameLookups::of("v"),
            control_l: NameLookups::of(Modifier::Ctrl.keysym_name()),
            shift_l: NameLookups::of(Modifier::Shift.keysym_name()),
            alt_l: NameLookups::of(Modifier::Alt.keysym_name()),
            super_l: NameLookups::of(Modifier::Super.keysym_name()),
        }
    }
}

/// A key name is looked up as it is written and in lower case, neither time
/// with regard to case.
pub proof fn lemma_names_are_looked_up_twice(name: Seq<char>)
    ensures
        lookups_of(name).exact.name == name,
        lookups_of(name).lower.name == lower(name),
        lookups_of(name).exact.ignores_case,
        lookups_of(name).lower.ignores_case,
{
}

} // verus!
