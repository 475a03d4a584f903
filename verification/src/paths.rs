//! Paths as text. A name that is not UTF-8 stands here byte by byte, one
//! character for each.

use vstd::prelude::*;
use vstd::string::*;

use crate::text::chars_of;

verus! {

/// A path below another: a separator is put between them where there is none.
pub open spec fn joined(base: Seq<char>, name: Seq<char>) -> Seq<char> {
    if base.len() == 0 || base.last() == '/' {
        base + name
    } else {
        base.push('/') + name
    }
}

/// Joins a relative name to a path.
pub fn join(base: &str, name: &str) -> (path: String)
    ensures
        path@ == joined(base@, name@),
{
    let chars: Vec<char> = chars_of(base);
    let mut path = base.to_owned();
    if chars.len() > 0 && chars[chars.len() - 1] != '/' {
        path.push('/');
    }
    path.append(name);
    path
}

/// A canonical path is a canonical directory or lies below it.
pub open spec fn is_within(path: Seq<char>, directory: Seq<char>) -> bool {
    path == directory || joined(directory, Seq::empty()).is_prefix_of(path)
}

/// Whether a canonical path is a canonical directory or lies below it.
pub fn within(path: &str, directory: &str) -> (answer: bool)
    ensures
        answer == is_within(path@, directory@),
{
    let long: Vec<char> = chars_of(path);
    let short: Vec<char> = chars_of(directory);
    let ghost below = joined(directory@, Seq::empty());
    if long.len() < short.len() {
        return false;
    }
    let mut i: usize = 0;
    while i < short.len()
        invariant
            i <= short@.len() <= long@.len(),
            long@ == path@,
            short@ == directory@,
            below == joined(directory@, Seq::empty()),
            forall|k: int| 0 <= k < i ==> #[trigger] long@[k] == short@[k],
        decreases short@.len() - i,
    {
        if long[i] != short[i] {
            assert(below[i as int] == short@[i as int]);
            return false;
        }
        i = i + 1;
    }
    if long.len() == short.len() {
        assert(path@ =~= directory@);
        return true;
    }
    let parted = short.len() == 0 || short[short.len() - 1] == '/' || long[short.len()] == '/';
    proof {
        if parted {
            assert(below.is_prefix_of(path@)) by {
                assert(path@.subrange(0, below.len() as int) =~= below);
            }
        } else {
            assert(below[short@.len() as int] == '/');
        }
    }
    parted
}

/// What lies beside a directory is not within it, even where its name starts
/// alike.
pub proof fn lemma_siblings_are_not_within(directory: Seq<char>, c: char, rest: Seq<char>)
    requires
        directory.len() > 0,
        directory.last() != '/',
        c != '/',
    ensures
        !is_within(directory.push(c) + rest, directory),
{
    let path = directory.push(c) + rest;
    assert(path[directory.len() as int] == c);
    assert(joined(directory, Seq::empty())[directory.len() as int] == '/');
}

/// What is joined to a directory lies within it.
pub proof fn lemma_joined_names_are_within(directory: Seq<char>, name: Seq<char>)
    ensures
        is_within(joined(directory, name), directory),
{
    let below = joined(directory, Seq::empty());
    assert(joined(directory, name) =~= below + name);
    assert(below.is_prefix_of(below + name)) by {
        assert((below + name).subrange(0, below.len() as int) =~= below);
    }
}

/// What lies within a directory is the directory or what is joined to it, and
/// nothing else.
pub proof fn lemma_what_lies_within(path: Seq<char>, directory: Seq<char>)
    ensures
        is_within(path, directory) <==> path == directory || exists|name: Seq<char>| path
            == #[trigger] joined(directory, name),
{
    let below = joined(directory, Seq::empty());
    if below.is_prefix_of(path) {
        let name = path.skip(below.len() as int);
        assert(path =~= joined(directory, name)) by {
            assert(path.subrange(0, below.len() as int) == below);
            assert(path =~= below + name);
            assert(joined(directory, name) =~= below + name);
        }
    }
    if exists|name: Seq<char>| path == #[trigger] joined(directory, name) {
        let name = choose|name: Seq<char>| path == #[trigger] joined(directory, name);
        lemma_joined_names_are_within(directory, name);
    }
}

/// A name that is joined to a path comes after it, with exactly one separator
/// between them where the path does not end in one.
pub proof fn lemma_joined_names_come_last(base: Seq<char>, name: Seq<char>)
    ensures
        base.len() > 0 && base.last() != '/' ==> joined(base, name) == base + seq!['/'] + name,
        base.len() > 0 && base.last() == '/' ==> joined(base, name) == base + name,
        base.len() == 0 ==> joined(base, name) == name,
{
    assert(base.push('/') + name =~= base + seq!['/'] + name);
    if base.len() == 0 {
        assert(base + name =~= name);
    }
}

} // verus!
