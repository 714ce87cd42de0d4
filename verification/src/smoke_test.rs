use vstd::prelude::*;

use crate::bytes::copy_bytes;

verus! {

/// The reply to everything a client sent before closing its side: the same bytes.
pub fn echo_reply(received: &[u8]) -> (reply: Vec<u8>)
    ensures
        reply@ == received@,
{
    copy_bytes(received)
}

} // verus!
