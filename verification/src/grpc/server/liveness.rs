//! Telling a plain HTTP/1 request from the start of a connection.

use crate::bytes;
use crate::bytes::{equal, text_bytes};
use crate::h2::ingress;
use crate::h2::ingress::client_preface;
use vstd::prelude::*;

verus! {

/// The answer to a plain request.
pub open spec fn response() -> Seq<u8> {
    bytes::text("HTTP/1.1 200 OK\r\ncontent-length: 0\r\nconnection: close\r\n\r\n")
}

/// Whether bytes can be the start of a connection, as far as they go.
pub open spec fn may_be_preface(first: Seq<u8>) -> bool {
    let preface = ingress::preface();
    let n = if first.len() < preface.len() {
        first.len()
    } else {
        preface.len()
    };
    first.take(n as int) == preface.take(n as int)
}

/// Answers plain requests.
pub struct Liveness;

impl Liveness {
    /// The answer to a plain request.
    pub fn response() -> (r: &'static [u8])
        ensures
            r@ == response(),
    {
        text_bytes("HTTP/1.1 200 OK\r\ncontent-length: 0\r\nconnection: close\r\n\r\n")
    }

    /// Whether the first bytes are those of a plain request.
    pub fn is_plain_request(first: &[u8]) -> (r: bool)
        ensures
            r == !may_be_preface(first@),
    {
        !is_h2_preface_prefix(first)
    }
}

/// Whether bytes can be the start of a connection, as far as they go.
pub fn is_h2_preface_prefix(buf: &[u8]) -> (r: bool)
    ensures
        r == may_be_preface(buf@),
{
    let preface: &[u8] = client_preface();
    let n: usize = if buf.len() < preface.len() {
        buf.len()
    } else {
        preface.len()
    };
    let a: &[u8] = vstd::slice::slice_subrange(buf, 0, n);
    let b: &[u8] = vstd::slice::slice_subrange(preface, 0, n);
    assert(a@ =~= buf@.take(n as int));
    assert(b@ =~= preface@.take(n as int));
    equal(a, b)
}

/// The start of a connection is not taken for a plain request, wherever it is cut.
pub proof fn law_prefaces_are_not_plain(n: int, more: Seq<u8>)
    requires
        0 <= n <= ingress::preface().len(),
    ensures
        may_be_preface(ingress::preface().take(n)),
        may_be_preface(ingress::preface() + more),
{
    let preface = ingress::preface();
    assert(preface.take(n).take(n) =~= preface.take(n));
    assert((preface + more).take(preface.len() as int) =~= preface.take(preface.len() as int));
}

} // verus!
