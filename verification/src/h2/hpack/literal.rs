//! String literals: a length, and the bytes as they are or Huffman-coded.

use crate::bytes::push_bytes;
use crate::h2::hpack::huffman;
use crate::h2::hpack::huffman::{HuffmanDecoder, Kept};
use crate::h2::hpack::integer;
use crate::h2::hpack::DecoderError;
use vstd::prelude::*;

verus! {

/// The longest literal that is read.
pub const MAX_LITERAL_LEN: usize = 16_777_216;

/// The bytes of a literal.
pub open spec fn literal_wire(s: Seq<u8>, coded: bool) -> Seq<u8> {
    let body = literal_body(s, coded);
    integer::integer_wire(
        body.len() as u64,
        0x7f,
        if coded {
            0x80
        } else {
            0
        },
    ) + body
}

/// The bytes of a literal after its length.
pub open spec fn literal_body(s: Seq<u8>, coded: bool) -> Seq<u8> {
    if coded {
        huffman::encoded(s)
    } else {
        s
    }
}

/// The text of a literal's body.
pub open spec fn body_text(body: Seq<u8>, coded: bool) -> Option<Seq<u8>> {
    if coded {
        huffman::decoded(body)
    } else {
        Some(body)
    }
}

/// The literal at the start of `s`, and its length.
pub open spec fn literal_at(s: Seq<u8>) -> Result<(Seq<u8>, int), DecoderError> {
    match integer::integer_at(s, 0x7f) {
        Err(error) => Err(error),
        Ok((len, n)) => if len > MAX_LITERAL_LEN {
            Err(DecoderError::BadString)
        } else if len > s.len() - n {
            Err(DecoderError::NeedMore)
        } else {
            match body_text(s.subrange(n, n + len), s[0] >= 0x80) {
                None => Err(DecoderError::BadString),
                Some(text) => Ok((text, n + len)),
            }
        },
    }
}

pub fn encode(s: &[u8], coded: bool, out: &mut Vec<u8>)
    ensures
        final(out)@ == old(out)@ + literal_wire(s@, coded),
{
    let ghost before = out@;
    if coded {
        let body = huffman::encode(s);
        integer::encode(body.len() as u64, 0x7f, 0x80, out);
        push_bytes(out, body.as_slice());
    } else {
        integer::encode(s.len() as u64, 0x7f, 0, out);
        push_bytes(out, s);
    }
    assert(out@ =~= before + literal_wire(s@, coded));
}

/// What was read of a literal: the bytes it took, the length of its text, and whether the
/// text was kept.
pub struct DecodedLiteral {
    pub consumed: usize,
    pub len: usize,
    pub retained: bool,
}

pub proof fn lemma_text_len(body: Seq<u8>, coded: bool)
    ensures
        body_text(body, coded) matches Some(text) ==> text.len() <= 8 * body.len(),
{
    if coded {
        huffman::lemma_byte_bits_len(body);
        huffman::lemma_walk_growth(huffman::walk_start(), huffman::byte_bits(body));
    }
}

/// Reads a literal into `scratch`. A text of more than `limit` bytes is read over and not
/// kept. While bytes are missing nothing changes.
pub fn decode_into(buf: &[u8], scratch: &mut Vec<u8>, limit: usize) -> (r: Result<
    DecodedLiteral,
    DecoderError,
>)
    ensures
        match r {
            Ok(literal) => literal_at(buf@) matches Ok((text, used)) && used == literal.consumed
                && 1 <= used <= buf@.len() && text.len() <= 8 * MAX_LITERAL_LEN && huffman::keeps(
                final(scratch)@,
                (Kept { len: literal.len, retained: literal.retained }),
                text,
                limit,
            ),
            Err(error) => literal_at(buf@) == Err::<(Seq<u8>, int), DecoderError>(error) && (
            error is NeedMore ==> final(scratch)@ == old(scratch)@),
        },
{
    if buf.len() == 0 {
        return Err(DecoderError::NeedMore);
    }
    let coded = buf[0] >= 0x80;
    let (len, n): (u64, usize) = match integer::decode(buf, 0x7f) {
        Ok(pair) => pair,
        Err(error) => return Err(error),
    };
    if len > MAX_LITERAL_LEN as u64 {
        return Err(DecoderError::BadString);
    }
    let len: usize = len as usize;
    if len > buf.len() - n {
        return Err(DecoderError::NeedMore);
    }
    let end: usize = n + len;
    let payload = &buf[n..end];
    scratch.clear();
    proof {
        lemma_text_len(payload@, coded);
    }
    if coded {
        let mut decoder = HuffmanDecoder::new();
        assert(decoder.at(Seq::empty()) =~= huffman::walk_start());
        let start = Kept { len: 0, retained: true };
        match huffman::feed_text(
            &mut decoder,
            payload,
            scratch,
            start,
            limit,
            Ghost(Seq::empty()),
        ) {
            Err(_) => Err(DecoderError::BadString),
            Ok(kept) => {
                let ghost end_walk = huffman::walk(
                    huffman::walk_start(),
                    huffman::byte_bits(payload@),
                )->Some_0;
                assert(end_walk == decoder.at(end_walk.symbols));
                if decoder.finish() {
                    Ok(DecodedLiteral { consumed: end, len: kept.len, retained: kept.retained })
                } else {
                    Err(DecoderError::BadString)
                }
            },
        }
    } else {
        let retained = len <= limit;
        if retained {
            push_bytes(scratch, payload);
            assert(scratch@ =~= payload@);
        }
        Ok(DecodedLiteral { consumed: end, len, retained })
    }
}

/// A literal is read back as it was written, unless its body is longer than what is read.
pub proof fn law_literals_round_trip(s: Seq<u8>, coded: bool, rest: Seq<u8>)
    requires
        literal_body(s, coded).len() <= MAX_LITERAL_LEN,
    ensures
        literal_at(literal_wire(s, coded) + rest) == Ok::<(Seq<u8>, int), DecoderError>(
            (s, literal_wire(s, coded).len() as int),
        ),
{
    let body = literal_body(s, coded);
    let high: u8 = if coded {
        0x80
    } else {
        0
    };
    let head = integer::integer_wire(body.len() as u64, 0x7f, high);
    let all = literal_wire(s, coded) + rest;
    integer::law_integers_round_trip(body.len() as u64, 0x7f, high, body + rest);
    assert(all =~= head + (body + rest));
    assert(all[0] == head[0]);
    assert(all.subrange(head.len() as int, (head.len() + body.len()) as int) =~= body);
    huffman::law_strings_round_trip(s);
}

} // verus!
