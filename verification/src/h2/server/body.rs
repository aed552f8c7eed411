//! The body of a message.

use crate::bytes;
use vstd::prelude::*;

verus! {

/// More bytes than a body can hold.
#[derive(Copy, Clone, Debug, PartialEq, Eq, Structural)]
pub struct CapacityError {
    pub required: usize,
    pub capacity: usize,
}

/// The longest body that `Body::repeat` makes.
pub const MAX_REPEAT: usize = 0xffff_ffff;

/// The bytes of a body.
pub struct Body {
    bytes: Vec<u8>,
}

impl Body {
    pub closed spec fn view(&self) -> Seq<u8> {
        self.bytes@
    }

    pub fn empty() -> (r: Self)
        ensures
            r@ == Seq::<u8>::empty(),
    {
        Body { bytes: Vec::new() }
    }

    pub fn from_static(bytes: &'static [u8]) -> (r: Self)
        ensures
            r@ == bytes@,
    {
        Body { bytes: bytes::to_vec(bytes) }
    }

    pub fn from_shared(bytes: Vec<u8>) -> (r: Self)
        ensures
            r@ == bytes@,
    {
        Body { bytes }
    }

    /// `len` times the same byte.
    pub fn repeat(byte: u8, len: usize) -> (r: Result<Self, CapacityError>)
        ensures
            match r {
                Ok(body) => len <= MAX_REPEAT && body@ == Seq::new(len as nat, |i: int| byte),
                Err(error) => len > MAX_REPEAT && error == (CapacityError {
                    required: len,
                    capacity: MAX_REPEAT,
                }),
            },
    {
        if len > MAX_REPEAT {
            return Err(CapacityError { required: len, capacity: MAX_REPEAT });
        }
        let mut bytes: Vec<u8> = Vec::new();
        let mut i: usize = 0;
        while i < len
            invariant
                i <= len,
                bytes@ =~= Seq::new(i as nat, |k: int| byte),
            decreases len - i,
        {
            bytes.push(byte);
            i = i + 1;
        }
        Ok(Body { bytes })
    }

    pub fn len(&self) -> (r: usize)
        ensures
            r == self@.len(),
    {
        self.bytes.len()
    }

    pub fn is_empty(&self) -> (r: bool)
        ensures
            r == (self@.len() == 0),
    {
        self.bytes.len() == 0
    }

    pub fn as_slice(&self) -> (r: &[u8])
        ensures
            r@ == self@,
    {
        self.bytes.as_slice()
    }

    pub fn into_shared(self) -> (r: Vec<u8>)
        ensures
            r@ == self@,
    {
        self.bytes
    }
}

} // verus!
