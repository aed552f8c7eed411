//! Header compression.

pub mod coding;
pub mod decoder;
pub mod dynamic_table;
pub mod encoder;
pub mod format;
pub mod history;
pub mod huffman;
pub mod integer;
pub mod literal;
pub mod machine;
pub mod static_table;
pub mod words;

pub use decoder::{Decoder, DecoderBlock};
pub use encoder::Encoder;

use crate::bytes::to_vec;
use vstd::prelude::*;

verus! {

#[derive(Copy, Clone, Debug, PartialEq, Eq, Structural)]
pub enum DecoderError {
    NeedMore,
    BadIndex,
    BadInteger,
    BadString,
    BadDynSizeUpdate,
}

/// A header field as byte strings.
#[verifier::ext_equal]
pub struct FieldView {
    pub name: Seq<u8>,
    pub value: Seq<u8>,
}

/// A borrowed header field.
#[derive(Copy, Clone, Debug, PartialEq, Eq)]
pub struct Header<'a> {
    pub name: &'a [u8],
    pub value: &'a [u8],
}

impl<'a> Header<'a> {
    pub open spec fn view(&self) -> FieldView {
        FieldView { name: self.name@, value: self.value@ }
    }

    pub fn new(name: &'a [u8], value: &'a [u8]) -> (r: Self)
        ensures
            r@ == (FieldView { name: name@, value: value@ }),
    {
        Header { name, value }
    }
}

/// An owned header field.
#[derive(Clone, Debug, PartialEq, Eq)]
pub struct OwnedHeader {
    pub name: Vec<u8>,
    pub value: Vec<u8>,
}

impl OwnedHeader {
    pub open spec fn view(&self) -> FieldView {
        FieldView { name: self.name@, value: self.value@ }
    }

    pub fn new(name: &[u8], value: &[u8]) -> (r: Self)
        ensures
            r@ == (FieldView { name: name@, value: value@ }),
    {
        OwnedHeader { name: to_vec(name), value: to_vec(value) }
    }
}

/// Header fields as byte strings.
pub open spec fn fields(list: Seq<OwnedHeader>) -> Seq<FieldView> {
    list.map_values(|field: OwnedHeader| field@)
}

/// A list of fields, borrowed.
pub fn borrowed<'a>(list: &'a [OwnedHeader]) -> (r: Vec<Header<'a>>)
    ensures
        encoder::header_views(r@) == fields(list@),
{
    let mut r: Vec<Header<'a>> = Vec::new();
    let mut i: usize = 0;
    while i < list.len()
        invariant
            i <= list@.len(),
            r@.len() == i,
            forall|k: int| 0 <= k < i ==> (#[trigger] r@[k])@ == list@[k]@,
        decreases list@.len() - i,
    {
        let field: &'a OwnedHeader = &list[i];
        r.push(Header::new(field.name.as_slice(), field.value.as_slice()));
        i = i + 1;
    }
    assert(encoder::header_views(r@) =~= fields(list@));
    r
}

} // verus!
