//! The lock that lets one server drive the real desktop at a time.

use vstd::prelude::*;
use vstd::string::*;

use crate::paths::{join, joined};
use crate::text::{decimal, lemma_digits_are_injective, push_decimal};

verus! {

/// The lock file: in the runtime directory, or named after the user where
/// there is none.
pub open spec fn lock_file(runtime_dir: Option<&str>, uid: u32) -> Seq<char> {
    match runtime_dir {
        Some(dir) => joined(dir@, "wayhand-mcp.lock"@),
        None => "/tmp/wayhand-mcp-"@ + decimal(uid as int) + ".lock"@,
    }
}

pub fn lock_path(runtime_dir: Option<&str>, uid: u32) -> (path: String)
    ensures
        path@ == lock_file(runtime_dir, uid),
{
    match runtime_dir {
        Some(dir) => join(dir, "wayhand-mcp.lock"),
        None => {
            let mut path = "/tmp/wayhand-mcp-".to_owned();
            push_decimal(&mut path, uid as i64);
            path.append(".lock");
            path
        },
    }
}

/// Different users without a runtime directory have different locks.
pub proof fn lemma_users_have_their_own_locks(a: u32, b: u32)
    requires
        a != b,
    ensures
        lock_file(None, a) != lock_file(None, b),
{
    let start = "/tmp/wayhand-mcp-"@;
    let end = ".lock"@;
    let first = decimal(a as int);
    let second = decimal(b as int);
    if lock_file(None, a) == lock_file(None, b) {
        let whole = lock_file(None, a);
        let other = lock_file(None, b);
        assert(whole == start + first + end);
        assert(other == start + second + end);
        assert(whole.len() == start.len() + first.len() + end.len());
        assert(other.len() == start.len() + second.len() + end.len());
        assert(whole.subrange(start.len() as int, (start.len() + first.len()) as int) =~= first);
        assert(other.subrange(start.len() as int, (start.len() + second.len()) as int) =~= second);
        lemma_digits_are_injective(a as nat, b as nat);
    }
}

} // verus!
