//! Big-endian integers and byte strings.

use vstd::prelude::*;

verus! {

/// The two-byte big-endian number at `i`.
pub open spec fn be16(s: Seq<u8>, i: int) -> u16 {
    (s[i] * 0x100 + s[i + 1]) as u16
}

/// The three-byte big-endian number at `i`.
pub open spec fn be24(s: Seq<u8>, i: int) -> u32 {
    (s[i] * 0x1_0000 + s[i + 1] * 0x100 + s[i + 2]) as u32
}

/// The four-byte big-endian number at `i`.
pub open spec fn be32(s: Seq<u8>, i: int) -> u32 {
    (s[i] * 0x100_0000 + s[i + 1] * 0x1_0000 + s[i + 2] * 0x100 + s[i + 3]) as u32
}

/// `v` in two bytes, most significant first.
pub open spec fn wire16(v: u16) -> Seq<u8> {
    seq![(v / 0x100) as u8, (v % 0x100) as u8]
}

/// `v` in three bytes, most significant first.
pub open spec fn wire24(v: u32) -> Seq<u8> {
    seq![(v / 0x1_0000) as u8, (v / 0x100 % 0x100) as u8, (v % 0x100) as u8]
}

/// `v` in four bytes, most significant first.
pub open spec fn wire32(v: u32) -> Seq<u8> {
    seq![
        (v / 0x100_0000) as u8,
        (v / 0x1_0000 % 0x100) as u8,
        (v / 0x100 % 0x100) as u8,
        (v % 0x100) as u8,
    ]
}

/// Reading a number back gives the number that was written.
pub proof fn lemma_wire16(v: u16, s: Seq<u8>, i: int)
    requires
        0 <= i,
        i + 2 <= s.len(),
        s.subrange(i, i + 2) == wire16(v),
    ensures
        be16(s, i) == v,
{
    assert(s[i] == s.subrange(i, i + 2)[0]);
    assert(s[i + 1] == s.subrange(i, i + 2)[1]);
}

pub proof fn lemma_wire24(v: u32, s: Seq<u8>, i: int)
    requires
        0 <= i,
        i + 3 <= s.len(),
        v <= 0xff_ffff,
        s.subrange(i, i + 3) == wire24(v),
    ensures
        be24(s, i) == v,
{
    assert(s[i] == s.subrange(i, i + 3)[0]);
    assert(s[i + 1] == s.subrange(i, i + 3)[1]);
    assert(s[i + 2] == s.subrange(i, i + 3)[2]);
}

pub proof fn lemma_wire32(v: u32, s: Seq<u8>, i: int)
    requires
        0 <= i,
        i + 4 <= s.len(),
        s.subrange(i, i + 4) == wire32(v),
    ensures
        be32(s, i) == v,
{
    assert(s[i] == s.subrange(i, i + 4)[0]);
    assert(s[i + 1] == s.subrange(i, i + 4)[1]);
    assert(s[i + 2] == s.subrange(i, i + 4)[2]);
    assert(s[i + 3] == s.subrange(i, i + 4)[3]);
    let q = v / 0x100;
    let t = q / 0x100;
    assert(v == q * 0x100 + v % 0x100);
    assert(q == t * 0x100 + q % 0x100);
    assert(t == (t / 0x100) * 0x100 + t % 0x100);
    assert(v / 0x1_0000 == t);
    assert(v / 0x100_0000 == t / 0x100);
}

pub fn read_u16(buf: &[u8], i: usize) -> (r: u16)
    requires
        i + 2 <= buf@.len(),
    ensures
        r == be16(buf@, i as int),
{
    buf[i] as u16 * 0x100 + buf[i + 1] as u16
}

pub fn read_u24(buf: &[u8], i: usize) -> (r: u32)
    requires
        i + 3 <= buf@.len(),
    ensures
        r == be24(buf@, i as int),
        r <= 0xff_ffff,
{
    buf[i] as u32 * 0x1_0000 + buf[i + 1] as u32 * 0x100 + buf[i + 2] as u32
}

pub fn read_u32(buf: &[u8], i: usize) -> (r: u32)
    requires
        i + 4 <= buf@.len(),
    ensures
        r == be32(buf@, i as int),
{
    buf[i] as u32 * 0x100_0000 + buf[i + 1] as u32 * 0x1_0000 + buf[i + 2] as u32 * 0x100 + buf[i
        + 3] as u32
}

pub fn push_u16(out: &mut Vec<u8>, v: u16)
    ensures
        final(out)@ == old(out)@ + wire16(v),
{
    out.push((v / 0x100) as u8);
    out.push((v % 0x100) as u8);
}

pub fn push_u24(out: &mut Vec<u8>, v: u32)
    requires
        v <= 0xff_ffff,
    ensures
        final(out)@ == old(out)@ + wire24(v),
{
    out.push((v / 0x1_0000) as u8);
    out.push((v / 0x100 % 0x100) as u8);
    out.push((v % 0x100) as u8);
}

pub fn push_u32(out: &mut Vec<u8>, v: u32)
    ensures
        final(out)@ == old(out)@ + wire32(v),
{
    out.push((v / 0x100_0000) as u8);
    out.push((v / 0x1_0000 % 0x100) as u8);
    out.push((v / 0x100 % 0x100) as u8);
    out.push((v % 0x100) as u8);
}

/// Appends `bytes` to `out`.
pub fn push_bytes(out: &mut Vec<u8>, bytes: &[u8])
    ensures
        final(out)@ == old(out)@ + bytes@,
{
    let ghost before = out@;
    out.extend_from_slice(bytes);
    assert(out@ =~= before + bytes@);
}

/// An owned copy of `bytes`.
pub fn to_vec(bytes: &[u8]) -> (r: Vec<u8>)
    ensures
        r@ == bytes@,
{
    let mut out: Vec<u8> = Vec::new();
    push_bytes(&mut out, bytes);
    assert(out@ =~= bytes@);
    out
}

/// The bytes of a text.
pub open spec fn text(s: &str) -> Seq<u8> {
    vstd::utf8::encode_utf8(s@)
}

/// The bytes of an ASCII text are its characters.
pub proof fn lemma_text(s: &str)
    requires
        vstd::utf8::is_ascii_chars(s@),
    ensures
        text(s).len() == s@.len(),
        forall|i: int| 0 <= i < s@.len() ==> #[trigger] text(s)[i] == s@[i] as u8,
{
    vstd::utf8::is_ascii_chars_encode_utf8(s@);
}

/// The bytes of a text.
pub fn text_bytes(s: &'static str) -> (r: &'static [u8])
    ensures
        r@ == text(s),
{
    s.as_bytes()
}

/// Whether two byte strings are equal.
pub fn equal(a: &[u8], b: &[u8]) -> (r: bool)
    ensures
        r == (a@ == b@),
{
    if a.len() != b.len() {
        return false;
    }
    let mut i: usize = 0;
    while i < a.len()
        invariant
            i <= a@.len(),
            a@.len() == b@.len(),
            forall|k: int| 0 <= k < i ==> a@[k] == b@[k],
        decreases a@.len() - i,
    {
        if a[i] != b[i] {
            assert(a@[i as int] != b@[i as int]);
            return false;
        }
        i = i + 1;
    }
    assert(a@ =~= b@);
    true
}

/// Whether `s` begins with `prefix`.
pub open spec fn starts_with(s: Seq<u8>, prefix: Seq<u8>) -> bool {
    prefix.len() <= s.len() && s.subrange(0, prefix.len() as int) == prefix
}

/// Whether `s` ends with `suffix`.
pub open spec fn ends_with(s: Seq<u8>, suffix: Seq<u8>) -> bool {
    suffix.len() <= s.len() && s.subrange(s.len() - suffix.len(), s.len() as int) == suffix
}

/// Whether `s` begins with `prefix`.
pub fn has_prefix(s: &[u8], prefix: &[u8]) -> (r: bool)
    ensures
        r == starts_with(s@, prefix@),
{
    prefix.len() <= s.len() && equal(&s[0..prefix.len()], prefix)
}

/// Whether `s` ends with `suffix`.
pub fn has_suffix(s: &[u8], suffix: &[u8]) -> (r: bool)
    ensures
        r == ends_with(s@, suffix@),
{
    suffix.len() <= s.len() && equal(&s[s.len() - suffix.len()..s.len()], suffix)
}

/// Removes and returns the first `n` bytes.
pub fn take_front(buf: &mut Vec<u8>, n: usize) -> (r: Vec<u8>)
    requires
        n <= old(buf)@.len(),
    ensures
        r@ == old(buf)@.subrange(0, n as int),
        final(buf)@ == old(buf)@.subrange(n as int, old(buf)@.len() as int),
{
    let mut rest: Vec<u8> = buf.split_off(n);
    std::mem::swap(buf, &mut rest);
    rest
}

} // verus!
