//! Messages as bytes.

use crate::grpc::status::{Status, StatusView};
use vstd::prelude::*;

verus! {

/// Turns messages into bytes and back. What comes of a message or of bytes is for the codec to
/// say: it is free to choose what `encoded` and `decoded` state.
pub trait Codec: Sized {
    type Encode;

    type Decode;

    /// What the codec says of a message that it has appended to `out`.
    open spec fn encoded(
        before: Self,
        item: Self::Encode,
        out: Seq<u8>,
        after: Self,
        written: Seq<u8>,
        r: Result<(), Status>,
    ) -> bool {
        true
    }

    /// What the codec says of bytes that it has read.
    open spec fn decoded(
        before: Self,
        bytes: Seq<u8>,
        after: Self,
        r: Result<Self::Decode, Status>,
    ) -> bool {
        true
    }

    fn encode(&mut self, item: &Self::Encode, out: &mut Vec<u8>) -> (r: Result<(), Status>)
        ensures
            Self::encoded(*old(self), *item, old(out)@, *final(self), final(out)@, r),
    ;

    fn decode(&mut self, bytes: &[u8]) -> (r: Result<Self::Decode, Status>)
        ensures
            Self::decoded(*old(self), bytes@, *final(self), r),
    ;
}

/// What a codec gave for messages, one after the other: `codecs` holds the codec before the
/// first and after each.
pub open spec fn encodes<C: Codec>(
    codecs: Seq<C>,
    messages: Seq<C::Encode>,
    given: Seq<Result<Seq<u8>, StatusView>>,
) -> bool {
    &&& codecs.len() == given.len() + 1
    &&& given.len() <= messages.len()
    &&& forall|i: int|
        0 <= i < given.len() ==> #[trigger] encodes_one::<C>(
            codecs[i],
            messages[i],
            codecs[i + 1],
            given[i],
        )
}

/// What a codec gave for a message.
pub open spec fn encodes_one<C: Codec>(
    before: C,
    message: C::Encode,
    after: C,
    given: Result<Seq<u8>, StatusView>,
) -> bool {
    exists|written: Seq<u8>, r: Result<(), Status>| #[trigger]
        C::encoded(before, message, Seq::empty(), after, written, r) && given == (match r {
            Ok(_) => Ok::<Seq<u8>, StatusView>(written),
            Err(status) => Err(status@),
        })
}

/// What came of a message.
pub open spec fn given_view(r: Result<Vec<u8>, Status>) -> Result<Seq<u8>, StatusView> {
    match r {
        Ok(payload) => Ok(payload@),
        Err(status) => Err(status@),
    }
}

} // verus!
