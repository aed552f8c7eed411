//! Integers with a prefix: a value that fits the low bits of the first byte stands there,
//! a larger one continues in groups of seven bits, least significant group first.

use crate::h2::hpack::DecoderError;
use vstd::prelude::*;

verus! {

/// The weight of a seven-bit group: a power of 128 below 2^64.
pub open spec fn is_scale(scale: u64) -> bool {
    ||| scale == 1
    ||| scale == 0x80
    ||| scale == 0x4000
    ||| scale == 0x20_0000
    ||| scale == 0x1000_0000
    ||| scale == 0x8_0000_0000
    ||| scale == 0x400_0000_0000
    ||| scale == 0x2_0000_0000_0000
    ||| scale == 0x100_0000_0000_0000
    ||| scale == 0x8000_0000_0000_0000
}

/// The weight of the last group.
pub const LAST_SCALE: u64 = 0x8000_0000_0000_0000;

/// What a continuation byte adds at a weight. Of the last group only the lowest bit counts.
pub open spec fn group(byte: u8, scale: u64) -> int {
    if scale == LAST_SCALE {
        ((byte % 128) % 2) * scale
    } else {
        (byte % 128) * scale
    }
}

/// What a number amounts to once a continuation byte has been added.
pub enum Continued {
    /// The number is complete.
    Done(u64),
    /// More bytes follow, the next one at this weight.
    More(u64, u64),
    /// The number does not fit.
    Overflow,
}

/// One continuation byte of a number that has come to `value` so far.
pub open spec fn continued(value: u64, scale: u64, byte: u8) -> Continued {
    let next = value + group(byte, scale);
    if next > u64::MAX {
        Continued::Overflow
    } else if byte < 128 {
        Continued::Done(next as u64)
    } else if scale == LAST_SCALE {
        Continued::Overflow
    } else {
        Continued::More(next as u64, (scale * 128) as u64)
    }
}

/// The number that continues at `pos`, and where it ends.
pub open spec fn tail_at(s: Seq<u8>, pos: int, value: u64, scale: u64) -> Result<
    (u64, int),
    DecoderError,
>
    decreases s.len() - pos,
{
    if pos < 0 || pos >= s.len() {
        Err(DecoderError::NeedMore)
    } else {
        match continued(value, scale, s[pos]) {
            Continued::Overflow => Err(DecoderError::BadInteger),
            Continued::Done(v) => Ok((v, pos + 1)),
            Continued::More(v, next) => tail_at(s, pos + 1, v, next),
        }
    }
}

/// The number at the start of `s` whose prefix holds values up to `mask`, and its length.
pub open spec fn integer_at(s: Seq<u8>, mask: u8) -> Result<(u64, int), DecoderError> {
    if s.len() == 0 {
        Err(DecoderError::NeedMore)
    } else if s[0] % ((mask + 1) as u8) < mask {
        Ok(((s[0] % ((mask + 1) as u8)) as u64, 1))
    } else {
        tail_at(s, 1, mask as u64, 1)
    }
}

/// The groups of seven bits of `rest`.
pub open spec fn tail_wire(rest: nat) -> Seq<u8>
    decreases rest,
{
    if rest < 128 {
        seq![rest as u8]
    } else {
        seq![(128 + rest % 128) as u8] + tail_wire(rest / 128)
    }
}

/// `value` behind the flags `high`, whose bits are those above the prefix.
pub open spec fn integer_wire(value: u64, mask: u8, high: u8) -> Seq<u8> {
    if value < mask {
        seq![(high + value) as u8]
    } else {
        seq![(high + mask) as u8] + tail_wire((value - mask) as nat)
    }
}

/// Whether `mask` is the largest value of a prefix of four to seven bits and `high` leaves
/// these bits free.
pub open spec fn is_prefix(mask: u8, high: u8) -> bool {
    ||| mask == 0x7f && high % 0x80 == 0
    ||| mask == 0x3f && high % 0x40 == 0
    ||| mask == 0x1f && high % 0x20 == 0
    ||| mask == 0x0f && high % 0x10 == 0
}

pub fn continue_integer(value: u64, scale: u64, byte: u8) -> (r: Continued)
    requires
        is_scale(scale),
    ensures
        r == continued(value, scale, byte),
        r matches Continued::More(v, next) ==> is_scale(next),
{
    let chunk: u64 = (byte % 128) as u64;
    let shifted: u64 = if scale == LAST_SCALE {
        (chunk % 2) * scale
    } else {
        assert(chunk * scale <= 127 * 0x100_0000_0000_0000) by (nonlinear_arith)
            requires
                chunk <= 127,
                scale <= 0x100_0000_0000_0000,
        ;
        chunk * scale
    };
    match value.checked_add(shifted) {
        None => Continued::Overflow,
        Some(next) => {
            if byte < 128 {
                Continued::Done(next)
            } else if scale == LAST_SCALE {
                Continued::Overflow
            } else {
                Continued::More(next, scale * 128)
            }
        },
    }
}

pub fn decode(buf: &[u8], mask: u8) -> (r: Result<(u64, usize), DecoderError>)
    requires
        mask == 0x7f || mask == 0x3f || mask == 0x1f || mask == 0x0f,
    ensures
        match r {
            Ok((value, used)) => integer_at(buf@, mask) == Ok::<(u64, int), DecoderError>(
                (value, used as int),
            ) && 1 <= used <= buf@.len(),
            Err(error) => integer_at(buf@, mask) == Err::<(u64, int), DecoderError>(error),
        },
{
    if buf.len() == 0 {
        return Err(DecoderError::NeedMore);
    }
    let first: u8 = buf[0] % (mask + 1);
    if first < mask {
        return Ok((first as u64, 1));
    }
    let mut value: u64 = mask as u64;
    let mut scale: u64 = 1;
    let mut pos: usize = 1;
    while pos < buf.len()
        invariant
            1 <= pos <= buf@.len(),
            is_scale(scale),
            integer_at(buf@, mask) == tail_at(buf@, pos as int, value, scale),
        decreases buf@.len() - pos,
    {
        match continue_integer(value, scale, buf[pos]) {
            Continued::Overflow => return Err(DecoderError::BadInteger),
            Continued::Done(total) => return Ok((total, pos + 1)),
            Continued::More(total, next) => {
                value = total;
                scale = next;
                pos = pos + 1;
            },
        }
    }
    Err(DecoderError::NeedMore)
}

pub fn encode(value: u64, mask: u8, high: u8, out: &mut Vec<u8>)
    requires
        is_prefix(mask, high),
    ensures
        final(out)@ == old(out)@ + integer_wire(value, mask, high),
{
    if value < mask as u64 {
        out.push(high + value as u8);
        return;
    }
    out.push(high + mask);
    let mut rest: u64 = value - mask as u64;
    let ghost start = out@;
    while rest >= 128
        invariant
            out@ + tail_wire(rest as nat) == start + tail_wire((value - mask) as nat),
        decreases rest,
    {
        let ghost before = out@;
        out.push((128 + rest % 128) as u8);
        assert(out@ + tail_wire((rest / 128) as nat) =~= before + tail_wire(rest as nat));
        rest = rest / 128;
    }
    let ghost before = out@;
    out.push(rest as u8);
    assert(out@ =~= before + tail_wire(rest as nat));
    assert(start + tail_wire((value - mask) as nat) =~= old(out)@ + integer_wire(
        value,
        mask,
        high,
    ));
}

proof fn lemma_tail_round_trip(s: Seq<u8>, pos: int, value: u64, scale: u64, rest: nat)
    requires
        0 <= pos <= s.len(),
        is_scale(scale),
        value + rest * scale <= u64::MAX,
        pos + tail_wire(rest).len() <= s.len(),
        s.subrange(pos, pos + tail_wire(rest).len()) == tail_wire(rest),
    ensures
        tail_wire(rest).len() >= 1,
        tail_at(s, pos, value, scale) == Ok::<(u64, int), DecoderError>(
            ((value + rest * scale) as u64, pos + tail_wire(rest).len()),
        ),
    decreases rest,
{
    let wire = tail_wire(rest);
    assert(s[pos] == s.subrange(pos, pos + wire.len())[0]);
    if rest < 128 {
        if scale == LAST_SCALE {
            assert(rest < 2) by (nonlinear_arith)
                requires
                    rest * scale <= u64::MAX,
                    scale == 0x8000_0000_0000_0000u64,
            ;
        }
        assert(group(s[pos], scale) == rest * scale);
    } else {
        let low = rest % 128;
        let high = rest / 128;
        assert(scale <= 0x100_0000_0000_0000) by {
            if scale == LAST_SCALE {
                assert(rest * scale >= 128 * scale) by (nonlinear_arith)
                    requires
                        rest >= 128,
                        scale >= 0,
                ;
            }
        }
        assert(rest * scale == low * scale + high * (scale * 128)) by (nonlinear_arith)
            requires
                rest == low + 128 * high,
        ;
        assert(s[pos] == 128 + low);
        assert(0 <= high * (scale * 128)) by (nonlinear_arith)
            requires
                high >= 0,
                scale >= 0,
        ;
        assert(is_scale((scale * 128) as u64)) by {
            assert(scale * 128 <= u64::MAX) by {
                assert(high * (scale * 128) >= scale * 128) by (nonlinear_arith)
                    requires
                        high >= 1,
                        scale >= 0,
                ;
            }
        }
        assert(group(s[pos], scale) == low * scale);
        let rest_wire = tail_wire(high);
        assert(s.subrange(pos, pos + wire.len()).subrange(1, wire.len() as int) =~= s.subrange(
            pos + 1,
            pos + 1 + rest_wire.len(),
        ));
        assert(wire.subrange(1, wire.len() as int) =~= rest_wire);
        lemma_tail_round_trip(
            s,
            pos + 1,
            (value + low * scale) as u64,
            (scale * 128) as u64,
            high,
        );
    }
}

proof fn lemma_low_bits(high: u8, low: int, mask: u8)
    requires
        is_prefix(mask, high),
        0 <= low <= mask,
    ensures
        high + low <= 0xff,
        ((high + low) as u8) % ((mask + 1) as u8) == low,
{
    if mask == 0x7f {
        assert((high + low) % 0x80 == low);
    } else if mask == 0x3f {
        assert((high + low) % 0x40 == low);
    } else if mask == 0x1f {
        assert((high + low) % 0x20 == low);
    } else {
        assert((high + low) % 0x10 == low);
    }
}

/// Every number is read back, with the length it was written in.
pub proof fn law_integers_round_trip(value: u64, mask: u8, high: u8, rest: Seq<u8>)
    requires
        is_prefix(mask, high),
    ensures
        integer_at(integer_wire(value, mask, high) + rest, mask) == Ok::<(u64, int), DecoderError>(
            (value, integer_wire(value, mask, high).len() as int),
        ),
        integer_wire(value, mask, high).len() >= 1,
        integer_wire(value, mask, high)[0] >= high,
        integer_wire(value, mask, high)[0] <= high + mask,
{
    let wire = integer_wire(value, mask, high);
    let s = wire + rest;
    if value < mask {
        lemma_low_bits(high, value as int, mask);
        assert(s[0] == high + value);
    } else {
        lemma_low_bits(high, mask as int, mask);
        assert(s[0] == high + mask);
        let tail = tail_wire((value - mask) as nat);
        assert(s.subrange(1, 1int + tail.len()) =~= tail);
        assert(mask + (value - mask) * 1 <= u64::MAX);
        lemma_tail_round_trip(s, 1, mask as u64, 1, (value - mask) as nat);
        assert(integer_at(s, mask) == tail_at(s, 1, mask as u64, 1));
    }
}

} // verus!
