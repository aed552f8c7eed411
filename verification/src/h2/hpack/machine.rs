//! What a block of header fields means, byte by byte and field by field.

use crate::h2::hpack::dynamic_table;
use crate::h2::hpack::dynamic_table::TableView;
use crate::h2::hpack::huffman;
use crate::h2::hpack::huffman::Walk;
use crate::h2::hpack::integer;
use crate::h2::hpack::integer::Continued;
use crate::h2::hpack::literal;
use crate::h2::hpack::literal::MAX_LITERAL_LEN;
use crate::h2::hpack::static_table;
use crate::h2::hpack::static_table::StaticTable;
use crate::h2::hpack::{DecoderError, FieldView};
use vstd::prelude::*;

verus! {

/// Which string of a literal field is being read, and what is known of the field.
pub enum TargetView {
    Name { index: bool },
    Value { index: bool, name: Seq<u8> },
}

/// What a number is for.
pub enum NumberView {
    Indexed,
    LiteralName { index: bool },
    DynamicSize,
    StringLength { coded: bool, target: TargetView },
}

/// Where in a block the reader stands.
pub enum PhaseView {
    Representation,
    Number { value: u64, scale: u64, purpose: NumberView },
    Prefix { target: TargetView },
    Plain { left: nat, text: Seq<u8>, target: TargetView },
    Coded { left: nat, walk: Walk, target: TargetView },
}

/// A reader of header fields: the table, the limit that was set for the table, the limit for
/// the size of the list, where the reader stands, the size of the list so far, and the
/// fields that were read.
pub struct Machine {
    pub table: TableView,
    pub setting: nat,
    pub cap: nat,
    pub phase: PhaseView,
    pub used: nat,
    pub exceeded: bool,
    pub allow_update: bool,
    pub out: Seq<FieldView>,
}

/// The field with an index: first the predefined ones, then those of the table.
pub open spec fn field_with(t: TableView, index: u64) -> Option<FieldView> {
    if index == 0 {
        None
    } else if index <= StaticTable::LEN {
        Some(static_table::static_field(index as int))
    } else if index - StaticTable::LEN - 1 < t.fields.len() {
        Some(t.fields[index - StaticTable::LEN - 1])
    } else {
        None
    }
}

/// The size of the list once a field has been added.
pub open spec fn used_after(m: Machine, f: FieldView) -> nat {
    let total = m.used + dynamic_table::field_size(f);
    if total > usize::MAX {
        usize::MAX as nat
    } else {
        total
    }
}

/// A field is complete. It is handed out unless the list has become too large.
pub open spec fn emitted(m: Machine, f: FieldView) -> Machine {
    let used = used_after(m, f);
    Machine {
        phase: PhaseView::Representation,
        used,
        exceeded: m.exceeded || used > m.cap,
        out: if used <= m.cap {
            m.out.push(f)
        } else {
            m.out
        },
        ..m
    }
}

/// A literal field is complete.
pub open spec fn literal_done(m: Machine, index: bool, f: FieldView) -> Machine {
    emitted(
        Machine {
            table: if index {
                dynamic_table::inserted(m.table, f)
            } else {
                m.table
            },
            ..m
        },
        f,
    )
}

/// A string of a literal field is complete.
pub open spec fn text_done(m: Machine, target: TargetView, text: Seq<u8>) -> Machine {
    match target {
        TargetView::Name { index } => Machine {
            phase: PhaseView::Prefix { target: TargetView::Value { index, name: text } },
            ..m
        },
        TargetView::Value { index, name } => literal_done(
            m,
            index,
            FieldView { name, value: text },
        ),
    }
}

/// A number is complete.
pub open spec fn number_done(m: Machine, value: u64, target: NumberView) -> Result<
    Machine,
    DecoderError,
> {
    match target {
        NumberView::Indexed => match field_with(m.table, value) {
            None => Err(DecoderError::BadIndex),
            Some(f) => Ok(emitted(m, f)),
        },
        NumberView::LiteralName { index } => if value == 0 {
            Ok(Machine { phase: PhaseView::Prefix { target: TargetView::Name { index } }, ..m })
        } else {
            match field_with(m.table, value) {
                None => Err(DecoderError::BadIndex),
                Some(f) => Ok(
                    Machine {
                        phase: PhaseView::Prefix {
                            target: TargetView::Value { index, name: f.name },
                        },
                        ..m
                    },
                ),
            }
        },
        NumberView::DynamicSize => if value > m.setting || value > dynamic_table::table_cap() {
            Err(DecoderError::BadDynSizeUpdate)
        } else {
            Ok(
                Machine {
                    phase: PhaseView::Representation,
                    table: dynamic_table::resized(m.table, value as nat),
                    ..m
                },
            )
        },
        NumberView::StringLength { coded, target } => if value > MAX_LITERAL_LEN {
            Err(DecoderError::BadString)
        } else if value == 0 {
            Ok(text_done(m, target, Seq::empty()))
        } else if coded {
            Ok(
                Machine {
                    phase: PhaseView::Coded {
                        left: value as nat,
                        walk: huffman::walk_start(),
                        target,
                    },
                    ..m
                },
            )
        } else {
            Ok(
                Machine {
                    phase: PhaseView::Plain { left: value as nat, text: Seq::empty(), target },
                    ..m
                },
            )
        },
    }
}

/// The first byte of a number.
pub open spec fn number_start(m: Machine, byte: u8, mask: u8, target: NumberView) -> Result<
    Machine,
    DecoderError,
> {
    let prefix = byte % ((mask + 1) as u8);
    if prefix < mask {
        number_done(m, prefix as u64, target)
    } else {
        Ok(Machine { phase: PhaseView::Number { value: mask as u64, scale: 1, purpose: target }, ..m })
    }
}

/// Whether a first byte announces another size of the table.
pub open spec fn is_update(byte: u8) -> bool {
    0x20 <= byte < 0x40
}

/// The prefix of the number in a first byte, and what the number is for.
pub open spec fn opening(byte: u8) -> (u8, NumberView) {
    if byte >= 0x80 {
        (0x7f, NumberView::Indexed)
    } else if byte >= 0x40 {
        (0x3f, NumberView::LiteralName { index: true })
    } else if byte >= 0x20 {
        (0x1f, NumberView::DynamicSize)
    } else {
        (0x0f, NumberView::LiteralName { index: false })
    }
}

/// The size of the table may change at the start of a block only.
pub open spec fn opened(m: Machine, byte: u8) -> Machine {
    Machine { allow_update: m.allow_update && is_update(byte), ..m }
}

/// One byte of a block.
pub open spec fn step(m: Machine, byte: u8) -> Result<Machine, DecoderError> {
    match m.phase {
        PhaseView::Representation => if is_update(byte) && !m.allow_update {
            Err(DecoderError::BadDynSizeUpdate)
        } else {
            number_start(opened(m, byte), byte, opening(byte).0, opening(byte).1)
        },
        PhaseView::Number { value, scale, purpose: target } => match integer::continued(
            value,
            scale,
            byte,
        ) {
            Continued::Overflow => Err(DecoderError::BadInteger),
            Continued::Done(total) => number_done(m, total, target),
            Continued::More(total, next) => Ok(
                Machine {
                    phase: PhaseView::Number { value: total, scale: next, purpose: target },
                    ..m
                },
            ),
        },
        PhaseView::Prefix { target } => number_start(
            m,
            byte,
            0x7f,
            NumberView::StringLength { coded: byte >= 0x80, target },
        ),
        PhaseView::Plain { left, text, target } => if left <= 1 {
            Ok(text_done(m, target, text.push(byte)))
        } else {
            Ok(
                Machine {
                    phase: PhaseView::Plain {
                        left: (left - 1) as nat,
                        text: text.push(byte),
                        target,
                    },
                    ..m
                },
            )
        },
        PhaseView::Coded { left, walk, target } => match huffman::walk(
            walk,
            huffman::bits_of(byte as int, 8),
        ) {
            None => Err(DecoderError::BadString),
            Some(next) => if left > 1 {
                Ok(
                    Machine {
                        phase: PhaseView::Coded { left: (left - 1) as nat, walk: next, target },
                        ..m
                    },
                )
            } else if huffman::walk_ends(next) {
                Ok(text_done(m, target, next.symbols))
            } else {
                Err(DecoderError::BadString)
            },
        },
    }
}

/// The reader between two fields, with what it has read so far.
pub open spec fn settled(m: Machine) -> Machine {
    Machine { phase: PhaseView::Representation, ..m }
}

/// The reader once a byte could not be read: the field in which the byte stands is given up,
/// and what was read before it stays.
pub open spec fn stopped(m: Machine, byte: u8) -> Machine {
    if m.phase is Representation {
        opened(m, byte)
    } else {
        settled(m)
    }
}

/// The bytes of a fragment, one after the other. An error comes with the reader as it is left.
pub open spec fn feed(m: Machine, s: Seq<u8>) -> Result<Machine, (Machine, DecoderError)>
    decreases s.len(),
{
    if s.len() == 0 {
        Ok(m)
    } else {
        match feed(m, s.drop_last()) {
            Err(stop) => Err(stop),
            Ok(next) => match step(next, s.last()) {
                Ok(done) => Ok(done),
                Err(error) => Err((stopped(next, s.last()), error)),
            },
        }
    }
}

/// The value of a literal field whose name is known; the value stands at `pos`.
pub open spec fn value_at(m: Machine, s: Seq<u8>, pos: int, index: bool, name: Seq<u8>) -> Result<
    (Machine, int),
    DecoderError,
> {
    match literal::literal_at(s.subrange(pos, s.len() as int)) {
        Err(error) => Err(error),
        Ok((value, used)) => Ok(
            (literal_done(m, index, FieldView { name, value }), pos + used),
        ),
    }
}

/// The name of a literal field, and where its value stands. `number` is the index of the
/// name, or zero when the name stands at `pos`.
pub open spec fn name_at(m: Machine, s: Seq<u8>, pos: int, number: u64) -> Result<
    (Seq<u8>, int),
    DecoderError,
> {
    if number == 0 {
        match literal::literal_at(s.subrange(pos, s.len() as int)) {
            Err(error) => Err(error),
            Ok((name, used)) => Ok((name, pos + used)),
        }
    } else {
        match field_with(m.table, number) {
            None => Err(DecoderError::BadIndex),
            Some(f) => Ok((f.name, pos)),
        }
    }
}

/// The whole field at the start of `s`, and its length. `NeedMore` when it is cut off.
pub open spec fn field_at(m: Machine, s: Seq<u8>) -> Result<(Machine, int), DecoderError> {
    if is_update(s[0]) && !m.allow_update {
        Err(DecoderError::BadDynSizeUpdate)
    } else {
        let o = opened(m, s[0]);
        let (mask, target) = opening(s[0]);
        match integer::integer_at(s, mask) {
            Err(error) => Err(error),
            Ok((number, n)) => match target {
                NumberView::LiteralName { index } => match name_at(o, s, n, number) {
                    Err(error) => Err(error),
                    Ok((name, pos)) => value_at(o, s, pos, index, name),
                },
                _ => match number_done(o, number, target) {
                    Err(error) => Err(error),
                    Ok(next) => Ok((next, n)),
                },
            },
        }
    }
}

/// All fields of a complete block. An error comes with the reader as it stood before the
/// field that caused it.
pub open spec fn block_at(m: Machine, s: Seq<u8>) -> Result<Machine, (Machine, DecoderError)>
    decreases s.len(),
{
    if s.len() == 0 {
        Ok(m)
    } else {
        match field_at(m, s) {
            Err(error) => Err((m, error)),
            Ok((next, used)) => if 1 <= used <= s.len() {
                block_at(next, s.subrange(used, s.len() as int))
            } else {
                Err((m, DecoderError::NeedMore))
            },
        }
    }
}

/// Whether reading ended in `error` and left the reader as `m`.
pub open spec fn fails(
    r: Result<Machine, (Machine, DecoderError)>,
    error: DecoderError,
    m: Machine,
) -> bool {
    r == Err::<Machine, (Machine, DecoderError)>((m, error))
}

/// The outcome of one step, as that of a fragment.
pub open spec fn lifted(m: Machine, byte: u8, r: Result<Machine, DecoderError>) -> Result<
    Machine,
    (Machine, DecoderError),
> {
    match r {
        Ok(next) => Ok(next),
        Err(error) => Err((stopped(m, byte), error)),
    }
}

pub proof fn lemma_feed_concat(m: Machine, a: Seq<u8>, b: Seq<u8>)
    ensures
        feed(m, a + b) == (match feed(m, a) {
            Err(stop) => Err(stop),
            Ok(next) => feed(next, b),
        }),
    decreases b.len(),
{
    if b.len() == 0 {
        assert(a + b =~= a);
    } else {
        assert((a + b).drop_last() =~= a + b.drop_last());
        lemma_feed_concat(m, a, b.drop_last());
    }
}

pub proof fn lemma_feed_one(m: Machine, byte: u8)
    ensures
        feed(m, seq![byte]) == lifted(m, byte, step(m, byte)),
{
    assert(seq![byte].drop_last() =~= Seq::empty());
    assert(feed(m, seq![byte].drop_last()) == Ok::<Machine, (Machine, DecoderError)>(m));
}

/// One byte, and then the others.
pub proof fn lemma_feed_front(m: Machine, s: Seq<u8>, pos: int, end: int)
    requires
        0 <= pos < end <= s.len(),
    ensures
        feed(m, s.subrange(pos, end)) == (match step(m, s[pos]) {
            Err(error) => Err((stopped(m, s[pos]), error)),
            Ok(next) => feed(next, s.subrange(pos + 1, end)),
        }),
{
    assert(s.subrange(pos, end) =~= seq![s[pos]] + s.subrange(pos + 1, end));
    lemma_feed_concat(m, seq![s[pos]], s.subrange(pos + 1, end));
    lemma_feed_one(m, s[pos]);
}

/// The first byte alone, and what an error at it means for the whole.
pub proof fn lemma_feed_first(m: Machine, s: Seq<u8>)
    requires
        s.len() > 0,
    ensures
        feed(m, s.subrange(0, 1)) == lifted(m, s[0], step(m, s[0])),
        step(m, s[0]) matches Err(error) ==> fails(
            feed(m, s),
            error,
            stopped(m, s[0]),
        ),
{
    lemma_feed_front(m, s, 0, s.len() as int);
    lemma_feed_front(m, s, 0, 1);
    assert(s.subrange(1, 1) =~= Seq::empty());
    assert(s.subrange(0, s.len() as int) =~= s);
}

/// Two neighbouring pieces.
pub proof fn lemma_feed_split(m: Machine, s: Seq<u8>, a: int, b: int, c: int)
    requires
        0 <= a <= b <= c <= s.len(),
    ensures
        feed(m, s.subrange(a, c)) == (match feed(m, s.subrange(a, b)) {
            Err(stop) => Err(stop),
            Ok(next) => feed(next, s.subrange(b, c)),
        }),
{
    assert(s.subrange(a, c) =~= s.subrange(a, b) + s.subrange(b, c));
    lemma_feed_concat(m, s.subrange(a, b), s.subrange(b, c));
}

proof fn lemma_feed_number(
    m: Machine,
    s: Seq<u8>,
    pos: int,
    value: u64,
    scale: u64,
    target: NumberView,
)
    requires
        0 <= pos <= s.len(),
        m.phase == (PhaseView::Number { value, scale, purpose: target }),
    ensures
        integer::tail_at(s, pos, value, scale) matches Ok((total, end)) ==> pos < end <= s.len()
            && (match number_done(m, total, target) {
            Ok(next) => feed(m, s.subrange(pos, end)) == Ok::<Machine, (Machine, DecoderError)>(
                next,
            ),
            Err(error) => fails(feed(m, s.subrange(pos, end)), error, settled(m)),
        }),
        integer::tail_at(s, pos, value, scale) matches Err(error) ==> !(error is NeedMore) ==> fails(feed(m, s.subrange(pos, s.len() as int)), error, settled(m)),
    decreases s.len() - pos,
{
    if pos < s.len() {
        match integer::continued(value, scale, s[pos]) {
            Continued::Overflow => {
                lemma_feed_front(m, s, pos, s.len() as int);
            },
            Continued::Done(total) => {
                lemma_feed_front(m, s, pos, pos + 1);
                assert(s.subrange(pos + 1, pos + 1) =~= Seq::empty());
            },
            Continued::More(total, next) => {
                let m1 = Machine {
                    phase: PhaseView::Number { value: total, scale: next, purpose: target },
                    ..m
                };
                lemma_feed_number(m1, s, pos + 1, total, next, target);
                match integer::tail_at(s, pos, value, scale) {
                    Ok((v, end)) => {
                        lemma_feed_front(m, s, pos, end);
                        lemma_number_done_phase(m, m1, v, target);
                    },
                    Err(error) => {
                        lemma_feed_front(m, s, pos, s.len() as int);
                    },
                }
            },
        }
    }
}

proof fn lemma_number_done_phase(a: Machine, b: Machine, value: u64, target: NumberView)
    requires
        b == (Machine { phase: b.phase, ..a }),
    ensures
        number_done(a, value, target) == number_done(b, value, target),
{
}

/// What a number amounts to for the reader: `n` bytes at `pos` were read.
spec fn number_read(m: Machine, o: Machine, s: Seq<u8>, pos: int, n: int, total: u64, target: NumberView) -> bool {
    match number_done(o, total, target) {
        Ok(next) => feed(m, s.subrange(pos, pos + n)) == Ok::<Machine, (Machine, DecoderError)>(
            next,
        ),
        Err(error) => fails(feed(m, s.subrange(pos, pos + n)), error, stopped(m, s[pos])),
    }
}

proof fn lemma_feed_short(m: Machine, o: Machine, s: Seq<u8>, pos: int, value: u64, target: NumberView)
    requires
        0 <= pos < s.len(),
        step(m, s[pos]) == number_done(o, value, target),
    ensures
        number_read(m, o, s, pos, 1, value, target),
{
    lemma_feed_front(m, s, pos, pos + 1);
    assert(s.subrange(pos + 1, pos + 1) =~= Seq::empty());
}

proof fn lemma_after_first(m: Machine, m1: Machine, s: Seq<u8>, pos: int, n: int)
    requires
        0 <= pos < s.len(),
        1 <= n <= s.len() - pos,
        step(m, s[pos]) == Ok::<Machine, DecoderError>(m1),
    ensures
        feed(m, s.subrange(pos, pos + n)) == feed(
            m1,
            s.subrange(pos, s.len() as int).subrange(1, n),
        ),
{
    lemma_feed_front(m, s, pos, pos + n);
    assert(s.subrange(pos + 1, pos + n) =~= s.subrange(pos, s.len() as int).subrange(1, n));
}

#[verifier::spinoff_prover]
proof fn lemma_feed_long(m: Machine, o: Machine, s: Seq<u8>, pos: int, mask: u8, target: NumberView)
    requires
        0 <= pos < s.len(),
        step(m, s[pos]) == Ok::<Machine, DecoderError>(
            Machine { phase: PhaseView::Number { value: mask as u64, scale: 1, purpose: target }, ..o },
        ),
        settled(o) == stopped(m, s[pos]),
    ensures
        integer::tail_at(s.subrange(pos, s.len() as int), 1, mask as u64, 1) matches Ok((total, n))
            ==> 1 <= n <= s.len() - pos && number_read(m, o, s, pos, n, total, target),
        integer::tail_at(s.subrange(pos, s.len() as int), 1, mask as u64, 1) matches Err(error)
            ==> !(error is NeedMore) ==> fails(
            feed(m, s.subrange(pos, s.len() as int)),
            error,
            stopped(m, s[pos]),
        ),
{
    let t = s.subrange(pos, s.len() as int);
    let m1 = Machine {
        phase: PhaseView::Number { value: mask as u64, scale: 1, purpose: target },
        ..o
    };
    let r = integer::tail_at(t, 1, mask as u64, 1);
    assert(({
        &&& r matches Ok((total, n)) ==> 1 < n <= t.len() && (match number_done(m1, total, target) {
            Ok(next) => feed(m1, t.subrange(1, n)) == Ok::<Machine, (Machine, DecoderError)>(next),
            Err(error) => fails(feed(m1, t.subrange(1, n)), error, settled(m1)),
        })
        &&& r matches Err(error) ==> !(error is NeedMore) ==> fails(
            feed(m1, t.subrange(1, t.len() as int)),
            error,
            settled(m1),
        )
    })) by {
        lemma_feed_number(m1, t, 1, mask as u64, 1, target);
    }
    match r {
        Ok((total, n)) => {
            lemma_after_first(m, m1, s, pos, n);
            lemma_number_done_phase(o, m1, total, target);
        },
        Err(error) => {
            lemma_after_first(m, m1, s, pos, t.len() as int);
        },
    }
}

/// A number whose first byte is read by `number_start`.
proof fn lemma_feed_integer(m: Machine, o: Machine, s: Seq<u8>, pos: int, mask: u8, target: NumberView)
    requires
        0 <= pos < s.len(),
        step(m, s[pos]) == number_start(o, s[pos], mask, target),
        settled(o) == stopped(m, s[pos]),
    ensures
        integer::integer_at(s.subrange(pos, s.len() as int), mask) matches Ok((total, n)) ==> 1 <= n
            <= s.len() - pos && number_read(m, o, s, pos, n, total, target),
        integer::integer_at(s.subrange(pos, s.len() as int), mask) matches Err(error) ==> !(
        error is NeedMore) ==> fails(feed(m, s.subrange(pos, s.len() as int)), error, stopped(m, s[pos])),
{
    let t = s.subrange(pos, s.len() as int);
    let prefix = s[pos] % ((mask + 1) as u8);
    assert(t[0] == s[pos]);
    if prefix < mask {
        lemma_feed_short(m, o, s, pos, prefix as u64, target);
    } else {
        lemma_feed_long(m, o, s, pos, mask, target);
    }
}

/// A piece of a plain string that does not complete it.
pub proof fn lemma_feed_plain(m: Machine, piece: Seq<u8>, left: nat, text: Seq<u8>, target: TargetView)
    requires
        m.phase == (PhaseView::Plain { left, text, target }),
        piece.len() < left,
    ensures
        feed(m, piece) == Ok::<Machine, (Machine, DecoderError)>(
            Machine {
                phase: PhaseView::Plain {
                    left: (left - piece.len()) as nat,
                    text: text + piece,
                    target,
                },
                ..m
            },
        ),
    decreases piece.len(),
{
    if piece.len() == 0 {
        assert(text + piece =~= text);
    } else {
        lemma_feed_plain(m, piece.drop_last(), left, text, target);
        assert((text + piece.drop_last()).push(piece.last()) =~= text + piece);
    }
}

/// The rest of a plain string.
pub proof fn lemma_feed_plain_end(m: Machine, piece: Seq<u8>, left: nat, text: Seq<u8>, target: TargetView)
    requires
        m.phase == (PhaseView::Plain { left, text, target }),
        piece.len() == left,
        left > 0,
    ensures
        feed(m, piece) == Ok::<Machine, (Machine, DecoderError)>(
            text_done(m, target, text + piece),
        ),
{
    lemma_feed_plain(m, piece.drop_last(), left, text, target);
    assert((text + piece.drop_last()).push(piece.last()) =~= text + piece);
    assert(text + piece.drop_last() =~= (text + piece).drop_last());
}

/// A piece of a Huffman-coded string that does not complete it.
pub proof fn lemma_feed_coded(m: Machine, piece: Seq<u8>, left: nat, walk: Walk, target: TargetView)
    requires
        m.phase == (PhaseView::Coded { left, walk, target }),
        piece.len() < left,
    ensures
        match huffman::walk(walk, huffman::byte_bits(piece)) {
            Some(next) => feed(m, piece) == Ok::<Machine, (Machine, DecoderError)>(
                Machine {
                    phase: PhaseView::Coded {
                        left: (left - piece.len()) as nat,
                        walk: next,
                        target,
                    },
                    ..m
                },
            ),
            None => fails(feed(m, piece), DecoderError::BadString, settled(m)),
        },
    decreases piece.len(),
{
    if piece.len() > 0 {
        let init = piece.drop_last();
        lemma_feed_coded(m, init, left, walk, target);
        huffman::lemma_walk_concat(
            walk,
            huffman::byte_bits(init),
            huffman::bits_of(piece.last() as int, 8),
        );
    }
}

/// The rest of a Huffman-coded string.
pub proof fn lemma_feed_coded_end(m: Machine, piece: Seq<u8>, left: nat, walk: Walk, target: TargetView)
    requires
        m.phase == (PhaseView::Coded { left, walk, target }),
        piece.len() == left,
        left > 0,
    ensures
        match huffman::walk(walk, huffman::byte_bits(piece)) {
            Some(next) => if huffman::walk_ends(next) {
                feed(m, piece) == Ok::<Machine, (Machine, DecoderError)>(
                    text_done(m, target, next.symbols),
                )
            } else {
                fails(feed(m, piece), DecoderError::BadString, settled(m))
            },
            None => fails(feed(m, piece), DecoderError::BadString, settled(m)),
        },
{
    let init = piece.drop_last();
    lemma_feed_coded(m, init, left, walk, target);
    huffman::lemma_walk_concat(
        walk,
        huffman::byte_bits(init),
        huffman::bits_of(piece.last() as int, 8),
    );
}

/// The bytes of a string literal behind its length.
#[verifier::spinoff_prover]
proof fn lemma_feed_body(m: Machine, body: Seq<u8>, coded: bool, target: TargetView)
    requires
        m.phase == (PhaseView::Prefix { target }),
        body.len() <= MAX_LITERAL_LEN,
    ensures
        ({
            let number = NumberView::StringLength { coded, target };
            &&& number_done(m, body.len() as u64, number) matches Ok(m1)
            &&& match literal::body_text(body, coded) {
                Some(text) => feed(m1, body) == Ok::<Machine, (Machine, DecoderError)>(
                    text_done(m, target, text),
                ),
                None => fails(feed(m1, body), DecoderError::BadString, settled(m)),
            }
        }),
{
    let len = body.len();
    let m1 = number_done(
        m,
        len as u64,
        NumberView::StringLength { coded, target },
    )->Ok_0;
    if len == 0 {
        assert(body =~= Seq::empty());
        assert(huffman::decoded(body) == Some(Seq::<u8>::empty()));
    } else if coded {
        lemma_feed_coded_end(m1, body, len, huffman::walk_start(), target);
        if let Some(text) = literal::body_text(body, coded) {
            lemma_text_done_phase(m, m1, target, text);
        }
    } else {
        lemma_feed_plain_end(m1, body, len, Seq::empty(), target);
        assert(Seq::empty() + body =~= body);
        lemma_text_done_phase(m, m1, target, body);
    }
}

/// A whole string literal at `pos`.
#[verifier::spinoff_prover]
#[verifier::rlimit(30)]
proof fn lemma_feed_literal(m: Machine, s: Seq<u8>, pos: int, target: TargetView)
    requires
        0 <= pos <= s.len(),
        m.phase == (PhaseView::Prefix { target }),
    ensures
        literal::literal_at(s.subrange(pos, s.len() as int)) matches Ok((text, used)) ==> 1 <= used
            && pos + used <= s.len() && feed(m, s.subrange(pos, pos + used)) == Ok::<
            Machine,
            (Machine, DecoderError),
        >(text_done(m, target, text)),
        literal::literal_at(s.subrange(pos, s.len() as int)) matches Err(error) ==> !(error is NeedMore) ==> fails(feed(m, s.subrange(pos, s.len() as int)), error, settled(m)),
{
    let t = s.subrange(pos, s.len() as int);
    if t.len() > 0 {
        let coded = s[pos] >= 0x80;
        let number = NumberView::StringLength { coded, target };
        lemma_feed_integer(m, m, s, pos, 0x7f, number);
        match integer::integer_at(t, 0x7f) {
            Err(error) => {},
            Ok((len, n)) => {
                lemma_feed_split(m, s, pos, pos + n, s.len() as int);
                if len > MAX_LITERAL_LEN {
                } else if len <= t.len() - n {
                    let end = pos + n + len;
                    let body = t.subrange(n, n + len);
                    assert(s.subrange(pos + n, end) =~= body);
                    lemma_feed_split(m, s, pos, pos + n, end);
                    lemma_feed_split(m, s, pos, end, s.len() as int);
                    lemma_feed_body(m, body, coded, target);
                }
            },
        }
    }
}

proof fn lemma_text_done_phase(a: Machine, b: Machine, target: TargetView, text: Seq<u8>)
    requires
        ({
            ||| b == (Machine { phase: b.phase, ..a })
            ||| b == text_done(a, target, Seq::empty())
        }),
    ensures
        b == (Machine { phase: b.phase, ..a }) ==> text_done(a, target, text) == text_done(
            b,
            target,
            text,
        ),
{
}

/// The name of a literal field that was read from `s`, and what has been read with it.
#[verifier::spinoff_prover]
#[verifier::rlimit(30)]
pub proof fn lemma_feed_name(m: Machine, s: Seq<u8>, index: bool)
    requires
        m.phase is Representation,
        s.len() > 0,
        opening(s[0]).1 == (NumberView::LiteralName { index }),
    ensures
        ({
            let o = opened(m, s[0]);
            integer::integer_at(s, opening(s[0]).0) matches Ok((number, n)) ==> {
                &&& name_at(o, s, n, number) matches Ok((name, pos)) ==> 1 <= pos <= s.len() && feed(
                    m,
                    s.subrange(0, pos),
                ) == Ok::<Machine, (Machine, DecoderError)>(
                    Machine {
                        phase: PhaseView::Prefix { target: TargetView::Value { index, name } },
                        ..o
                    },
                )
                &&& name_at(o, s, n, number) matches Err(error) ==> !(error is NeedMore) ==> fails(
                    feed(m, s),
                    error,
                    o,
                )
            }
        }),
        integer::integer_at(s, opening(s[0]).0) matches Err(error) ==> !(error is NeedMore) ==> fails(
            feed(m, s),
            error,
            opened(m, s[0]),
        ),
{
    let o = opened(m, s[0]);
    let (mask, target) = opening(s[0]);
    assert(s.subrange(0, s.len() as int) =~= s);
    lemma_feed_integer(m, o, s, 0, mask, target);
    if let Ok((number, n)) = integer::integer_at(s, mask) {
        lemma_feed_split(m, s, 0, n, s.len() as int);
        if number == 0 {
            let m1 = number_done(o, number, target)->Ok_0;
            lemma_feed_literal(m1, s, n, TargetView::Name { index });
            if let Ok((name, pos)) = name_at(o, s, n, number) {
                lemma_feed_split(m, s, 0, n, pos);
            }
        }
    }
}

/// Reading a whole field at once is reading its bytes one after the other.
#[verifier::spinoff_prover]
#[verifier::rlimit(30)]
pub proof fn lemma_field_is_fed(m: Machine, s: Seq<u8>)
    requires
        m.phase is Representation,
        s.len() > 0,
    ensures
        field_at(m, s) matches Ok((next, used)) ==> 1 <= used <= s.len() && feed(
            m,
            s.subrange(0, used),
        ) == Ok::<Machine, (Machine, DecoderError)>(next) && next.phase is Representation,
        field_at(m, s) matches Err(error) ==> !(error is NeedMore) ==> fails(
            feed(m, s),
            error,
            opened(m, s[0]),
        ),
{
    assert(s.subrange(0, s.len() as int) =~= s);
    if is_update(s[0]) && !m.allow_update {
        lemma_feed_front(m, s, 0, s.len() as int);
    } else {
        let o = opened(m, s[0]);
        let (mask, target) = opening(s[0]);
        match target {
            NumberView::LiteralName { index } => {
                lemma_feed_name(m, s, index);
                if let Ok((number, n)) = integer::integer_at(s, mask) {
                    if let Ok((name, pos)) = name_at(o, s, n, number) {
                        let value = TargetView::Value { index, name };
                        let m1 = Machine { phase: PhaseView::Prefix { target: value }, ..o };
                        lemma_feed_literal(m1, s, pos, value);
                        lemma_feed_split(m, s, 0, pos, s.len() as int);
                        if let Ok((text, used)) = literal::literal_at(
                            s.subrange(pos, s.len() as int),
                        ) {
                            lemma_feed_split(m, s, 0, pos, pos + used);
                            lemma_text_done_phase(o, m1, value, text);
                        }
                    }
                }
            },
            _ => {
                lemma_feed_integer(m, o, s, 0, mask, target);
                if let Ok((number, n)) = integer::integer_at(s, mask) {
                    lemma_feed_split(m, s, 0, n, s.len() as int);
                }
            },
        }
    }
}

/// A complete block means the same in one piece and byte by byte, so in any pieces.
pub proof fn lemma_block_is_fed(m: Machine, s: Seq<u8>)
    requires
        m.phase is Representation,
    ensures
        block_at(m, s) matches Ok(next) ==> feed(m, s) == Ok::<Machine, (Machine, DecoderError)>(
            next,
        ) && next.phase is Representation,
    decreases s.len(),
{
    if s.len() > 0 {
        lemma_field_is_fed(m, s);
        if let Ok((next, used)) = field_at(m, s) {
            lemma_feed_split(m, s, 0, used, s.len() as int);
            assert(s.subrange(0, s.len() as int) =~= s);
            lemma_block_is_fed(next, s.subrange(used, s.len() as int));
        }
    }
}

} // verus!
