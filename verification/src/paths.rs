//! Paths as text, joined the way `Path::join` joins them on Unix.

use vstd::prelude::*;
use crate::text::{chars_of, owned, push_char, push_str};

verus! {

/// `a` joined with `b`: an absolute `b` replaces `a`; otherwise `b` follows
/// `a`, with one separator between them unless `a` is empty or already ends
/// with one.
pub open spec fn path_join(a: Seq<char>, b: Seq<char>) -> Seq<char> {
    if b.len() > 0 && b[0] == '/' {
        b
    } else if a.len() == 0 {
        b
    } else if a.last() == '/' {
        a + b
    } else {
        a + seq!['/'] + b
    }
}

/// Joins two paths, as `Path::join` does.
pub fn join(a: &str, b: &str) -> (r: String)
    ensures
        r@ == path_join(a@, b@),
{
    let ac = chars_of(a);
    let bc = chars_of(b);
    if bc.len() > 0 && bc[0] == '/' {
        return owned(b);
    }
    if ac.len() == 0 {
        return owned(b);
    }
    let mut r = owned(a);
    if ac[ac.len() - 1] != '/' {
        push_char(&mut r, '/');
    }
    push_str(&mut r, b);
    r
}

} // verus!
