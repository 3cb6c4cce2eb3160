//! The framing of the language server protocol: each message is a header
//! that gives the body's length in bytes, a blank line, and the body.

use vstd::prelude::*;
use vstd::string::StringSliceAdditionalSpecFns;
use crate::text::{decimal, decimal_string, owned, push_str};

verus! {

/// The header line that announces a body of `n` bytes.
pub open spec fn header_text(n: nat) -> Seq<char> {
    "Content-Length: "@ + decimal(n)
}

/// The bytes of `body` as one framed message.
pub open spec fn frame_text(body: &str) -> Seq<char> {
    header_text(body.spec_bytes().len()) + "\r\n\r\n"@ + body@
}

/// Frames one message for writing.
pub fn frame(body: &str) -> (r: String)
    requires
        body.spec_bytes().len() <= usize::MAX,
    ensures
        r@ == frame_text(body),
{
    let n = body.len();
    let mut out = owned("Content-Length: ");
    push_str(&mut out, decimal_string(n as u128).as_str());
    push_str(&mut out, "\r\n\r\n");
    push_str(&mut out, body);
    out
}

} // verus!
