//! Where fetched dependencies are kept.
//!
//! A git dependency is pinned to a full commit sha, so the content of a
//! revision never changes: its checkout is made once, under
//! `.dowel/deps/<name>-<first 12 digits of the rev>/`, and the network is
//! not touched again. An archive is kept the same way, under the first
//! digits of its content's sha256. Twelve digits is the short length git
//! itself uses by default; the name alone would let two revisions of one
//! dependency collide, and the whole rev makes paths long.

use vstd::prelude::*;
use vstd::utf8::{decode_utf8, encode_utf8_decode_utf8, is_char_boundary};
use vstd::string::StringSliceAdditionalSpecFns;
use crate::paths::{join, path_join};
use crate::text::{owned, push_str};

verus! {

/// The directory of a fetched dependency under the root package `root`,
/// named after the dependency and the first 12 bytes of `stamp`, the text
/// that pins its content.
pub open spec fn dep_dir(root: Seq<char>, name: Seq<char>, stamp: Seq<u8>) -> Seq<char> {
    path_join(
        path_join(path_join(root, ".dowel"@), "deps"@),
        name + "-"@ + decode_utf8(stamp.subrange(0, 12)),
    )
}

fn dep_dir_of(root: &str, name: &str, stamp: &str) -> (r: String)
    requires
        is_char_boundary(stamp.spec_bytes(), 12),
    ensures
        r@ == dep_dir(root@, name@, stamp.spec_bytes()),
{
    let (head, _) = stamp.split_at(12);
    proof {
        encode_utf8_decode_utf8(head@);
        assert(head.spec_bytes() == stamp.spec_bytes().subrange(0, 12));
    }
    let mut leaf = owned(name);
    push_str(&mut leaf, "-");
    push_str(&mut leaf, head);
    let a = join(root, ".dowel");
    let b = join(a.as_str(), "deps");
    join(b.as_str(), leaf.as_str())
}

/// The checkout of a git dependency pinned at `rev`. The rev is a full
/// commit sha, checked when the manifest is read; its first 12 bytes must
/// end on a character boundary.
pub fn checkout_dir(root: &str, name: &str, rev: &str) -> (r: String)
    requires
        is_char_boundary(rev.spec_bytes(), 12),
    ensures
        r@ == dep_dir(root@, name@, rev.spec_bytes()),
{
    dep_dir_of(root, name, rev)
}

/// The unpacked archive of a dependency pinned by the sha256 of its
/// content. It is laid out as a git checkout is: what is pinned differs,
/// the reasoning does not.
pub fn archive_dir(root: &str, name: &str, sha256: &str) -> (r: String)
    requires
        is_char_boundary(sha256.spec_bytes(), 12),
    ensures
        r@ == dep_dir(root@, name@, sha256.spec_bytes()),
{
    dep_dir_of(root, name, sha256)
}

} // verus!
