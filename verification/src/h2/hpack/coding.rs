//! How numbers, strings and fields that are not known yet are written and read, and what a table of
//! fields keeps.

use crate::h2::hpack::dynamic_table;
use crate::h2::hpack::dynamic_table::TableView;
use crate::h2::hpack::encoder;
use crate::h2::hpack::encoder::EncoderView;
use crate::h2::hpack::integer;
use crate::h2::hpack::literal;
use crate::h2::hpack::machine;
use crate::h2::hpack::machine::Machine;
use crate::h2::hpack::{DecoderError, FieldView};
use vstd::prelude::*;

verus! {

/// The number that groups of seven bits amount to, the least significant group first.
pub open spec fn amount(s: Seq<u8>) -> int
    decreases s.len(),
{
    if s.len() == 0 {
        0
    } else {
        s[0] % 128 + 128 * amount(s.drop_first())
    }
}

/// Whether every group but the last says that another follows.
pub open spec fn grouped(s: Seq<u8>) -> bool {
    &&& s.len() > 0
    &&& s.last() < 128
    &&& forall|i: int| 0 <= i < s.len() - 1 ==> #[trigger] s[i] >= 128
}

proof fn lemma_tail(rest: nat)
    ensures
        grouped(integer::tail_wire(rest)),
        amount(integer::tail_wire(rest)) == rest,
    decreases rest,
{
    let s = integer::tail_wire(rest);
    if rest < 128 {
        assert(s =~= seq![rest as u8]);
        assert(s.drop_first() =~= Seq::<u8>::empty());
        assert(amount(s.drop_first()) == 0);
        assert(s[0] == rest);
        assert(rest % 128 == rest);
    } else {
        lemma_tail(rest / 128);
        let more = integer::tail_wire(rest / 128);
        assert(s.drop_first() =~= more);
        assert(s[0] == 128 + rest % 128);
        assert((128 + rest % 128) % 128 == rest % 128);
        assert(s.last() == more.last());
        assert forall|i: int| 0 <= i < s.len() - 1 implies #[trigger] s[i] >= 128 by {
            if i > 0 {
                assert(s[i] == more[i - 1]);
            }
        }
    }
}

/// A number that fits the low bits of a byte stands there; of a larger one the low bits are all
/// ones, and what is beyond them follows in groups of seven bits. It is read as it was written.
pub proof fn law_numbers_are_written_in_groups(value: u64, mask: u8, high: u8, rest: Seq<u8>)
    requires
        integer::is_prefix(mask, high),
    ensures
        ({
            let s = integer::integer_wire(value, mask, high);
            &&& value < mask ==> s == seq![(high + value) as u8]
            &&& value >= mask ==> {
                &&& s.len() > 1
                &&& s[0] == high + mask
                &&& grouped(s.skip(1))
                &&& mask + amount(s.skip(1)) == value
            }
            &&& integer::integer_at(s + rest, mask) == Ok::<(u64, int), DecoderError>(
                (value, s.len() as int),
            )
        }),
{
    let s = integer::integer_wire(value, mask, high);
    integer::law_integers_round_trip(value, mask, high, rest);
    if value >= mask {
        let tail = integer::tail_wire((value - mask) as nat);
        lemma_tail((value - mask) as nat);
        assert(s.skip(1) =~= tail);
    }
}

/// A short string as it stands in a block: its length, and its bytes.
pub open spec fn plain(s: Seq<u8>) -> Seq<u8> {
    seq![s.len() as u8] + s
}

proof fn lemma_plain(s: Seq<u8>)
    requires
        s.len() < 127,
    ensures
        literal::literal_wire(s, false) == plain(s),
{
    assert(literal::literal_wire(s, false) =~= plain(s));
}

/// A field whose strings stand in the block is read: after `0x40` it is kept in the table, after
/// `0x00` and `0x10` it is not. So is one whose name is in a table: the first byte has its index.
#[verifier::rlimit(60)]
pub proof fn law_fields_are_read(m: Machine, f: FieldView, first: u8, rest: Seq<u8>)
    requires
        m.phase is Representation,
        f.name.len() < 127,
        f.value.len() < 127,
        first == 0x40 || first == 0x00 || first == 0x10,
        m.used + f.name.len() + f.value.len() + 32 <= m.cap <= usize::MAX,
    ensures
        ({
            let s = seq![first] + plain(f.name) + plain(f.value);
            &&& machine::field_at(m, s + rest) matches Ok((end, n)) && n == s.len() && end.out
                == m.out.push(f) && end.exceeded == m.exceeded && end.table == (if first == 0x40 {
                dynamic_table::inserted(m.table, f)
            } else {
                m.table
            })
        }),
{
    let s = seq![first] + plain(f.name) + plain(f.value);
    let all = s + rest;
    lemma_plain(f.name);
    lemma_plain(f.value);
    let behind = plain(f.value) + rest;
    assert(all[0] == first);
    assert(first % 0x40 == 0 || first % 0x10 == 0);
    assert(all.subrange(1, all.len() as int) =~= plain(f.name) + behind);
    literal::law_literals_round_trip(f.name, false, behind);
    let at = 1 + plain(f.name).len() as int;
    assert(all.subrange(at, all.len() as int) =~= behind);
    literal::law_literals_round_trip(f.value, false, rest);
}

/// A field of which only the name is in a table is read with that name.
#[verifier::spinoff_prover]
#[verifier::rlimit(80)]
pub proof fn law_names_are_looked_up(
    m: Machine,
    i: u8,
    known: FieldView,
    value: Seq<u8>,
    first: u8,
    rest: Seq<u8>,
)
    requires
        m.phase is Representation,
        value.len() < 127,
        first == 0x40 && 1 <= i < 63 || (first == 0x00 || first == 0x10) && 1 <= i < 15,
        machine::field_with(m.table, i as u64) == Some(known),
        m.used + known.name.len() + value.len() + 32 <= m.cap <= usize::MAX,
    ensures
        ({
            let s = seq![(first + i) as u8] + plain(value);
            let f = FieldView { name: known.name, value };
            &&& machine::field_at(m, s + rest) matches Ok((end, n)) && n == s.len() && end.out
                == m.out.push(f) && end.table == (if first == 0x40 {
                dynamic_table::inserted(m.table, f)
            } else {
                m.table
            })
        }),
{
    let s = seq![(first + i) as u8] + plain(value);
    let all = s + rest;
    lemma_plain(value);
    assert(all[0] == first + i);
    if first == 0x40 {
        assert((0x40 + i) % 0x40 == i);
    } else if first == 0x10 {
        assert((0x10 + i) % 0x10 == i);
    } else {
        assert(i as int % 0x10 == i);
    }
    assert(all.subrange(1, all.len() as int) =~= plain(value) + rest);
    literal::law_literals_round_trip(value, false, rest);
    let o = machine::opened(m, all[0]);
    assert(o.table == m.table);
    let (mask, _) = machine::opening(all[0]);
    assert(integer::integer_at(all, mask) == Ok::<(u64, int), DecoderError>((i as u64, 1)));
    assert(machine::name_at(o, all, 1, i as u64) == Ok::<(Seq<u8>, int), DecoderError>(
        (known.name, 1),
    ));
}

/// The index of the newest field of the table is sixty-two, that of the next newest one more, and
/// beyond the last there is none.
#[verifier::spinoff_prover]
#[verifier::rlimit(60)]
pub proof fn law_the_newest_field_has_the_first_index(t: TableView, i: u64)
    ensures
        machine::field_with(t, 0) is None,
        62 <= i && i - 62 < t.fields.len() ==> machine::field_with(t, i) == Some(
            t.fields[i - 62],
        ),
        62 <= i && i - 62 >= t.fields.len() ==> machine::field_with(t, i) is None,
{
}

/// What fields count for: their names, their values, and thirty-two each.
pub open spec fn weight(fields: Seq<FieldView>) -> int
    decreases fields.len(),
{
    if fields.len() == 0 {
        0
    } else {
        weight(fields.drop_first()) + fields[0].name.len() + fields[0].value.len() + 32
    }
}

pub proof fn lemma_weight(fields: Seq<FieldView>)
    ensures
        weight(fields) == dynamic_table::list_size(fields),
    decreases fields.len(),
{
    if fields.len() > 0 {
        lemma_weight(fields.drop_first());
        dynamic_table::lemma_size_front(fields[0], fields.drop_first());
        assert(seq![fields[0]] + fields.drop_first() =~= fields);
    }
}

proof fn lemma_kept(fields: Seq<FieldView>, room: int, k: int)
    requires
        0 <= k <= fields.len(),
        dynamic_table::list_size(fields.take(k)) <= room,
    ensures
        dynamic_table::evicted(fields, room).len() >= k,
    decreases fields.len(),
{
    if fields.len() == 0 || dynamic_table::list_size(fields) <= room {
    } else if k == fields.len() {
        assert(fields.take(k) =~= fields);
    } else {
        assert(fields.drop_last().take(k) =~= fields.take(k));
        lemma_kept(fields.drop_last(), room, k);
    }
}

/// A field that is added stands first, and of the others as many stay, the newest first, as fit
/// under the limit together with it. No field stays where the new one alone is too large.
pub proof fn law_tables_keep_what_fits(t: TableView, f: FieldView, k: int)
    requires
        0 <= k <= t.fields.len(),
    ensures
        ({
            let next = dynamic_table::inserted(t, f);
            let fits = seq![f] + t.fields.take(k);
            &&& weight(seq![f]) > t.max ==> next.fields == Seq::<FieldView>::empty()
            &&& weight(fits) <= t.max ==> next.fields.len() > k && next.fields.take(k + 1) == fits
            &&& weight(fits) > t.max ==> next.fields.len() <= k
            &&& next.max == t.max
        }),
{
    let next = dynamic_table::inserted(t, f);
    let part = t.fields.take(k);
    let fits = seq![f] + part;
    lemma_weight(fits);
    lemma_weight(seq![f]);
    dynamic_table::lemma_size_front(f, part);
    dynamic_table::lemma_size_front(f, Seq::empty());
    assert(seq![f] + Seq::<FieldView>::empty() =~= seq![f]);
    let size = dynamic_table::field_size(f);
    if size <= t.max {
        let kept = dynamic_table::evicted(t.fields, t.max - size);
        dynamic_table::lemma_evicted(t.fields, t.max - size);
        if weight(fits) <= t.max {
            lemma_kept(t.fields, t.max - size, k);
            assert(next.fields.take(k + 1) =~= fits);
        } else if kept.len() >= k {
            assert(kept.take(k) =~= part);
            dynamic_table::lemma_part_size(kept, k);
        }
    }
}

/// Another limit keeps as many of the newest fields as fit under it.
pub proof fn law_limits_keep_what_fits(t: TableView, max: nat, k: int)
    requires
        0 <= k <= t.fields.len(),
    ensures
        ({
            let next = dynamic_table::resized(t, max);
            &&& weight(t.fields.take(k)) <= max ==> next.fields.len() >= k && next.fields.take(k)
                == t.fields.take(k)
            &&& weight(t.fields.take(k)) > max ==> next.fields.len() < k
            &&& next.max == max
        }),
{
    let next = dynamic_table::resized(t, max);
    let part = t.fields.take(k);
    lemma_weight(part);
    dynamic_table::lemma_evicted(t.fields, max as int);
    if weight(part) <= max {
        lemma_kept(t.fields, max as int, k);
        assert(next.fields.take(k) =~= part);
    } else if next.fields.len() >= k {
        assert(next.fields.take(k) =~= part);
        dynamic_table::lemma_part_size(next.fields, k);
    }
}

/// At the start of a block another limit of the table is announced behind the bits `001`. It takes
/// effect where it is no larger than was agreed on, and is refused where it is larger or where a
/// field has come before.
#[verifier::rlimit(60)]
pub proof fn law_limits_are_announced_first(m: Machine, n: u8)
    requires
        m.phase is Representation,
        n < 31,
    ensures
        ({
            let s = seq![(0x20 + n) as u8];
            let r = machine::field_at(m, s);
            &&& m.allow_update && n <= m.setting ==> (r matches Ok((end, used)) && used == 1
                && end.table == dynamic_table::resized(m.table, n as nat) && end.allow_update
                && end.out == m.out)
            &&& n > m.setting ==> r == Err::<(Machine, int), DecoderError>(
                DecoderError::BadDynSizeUpdate,
            )
            &&& !m.allow_update ==> r == Err::<(Machine, int), DecoderError>(
                DecoderError::BadDynSizeUpdate,
            )
            &&& encoder::update_wire(n as nat) == s
        }),
{
    let s = seq![(0x20 + n) as u8];
    assert((0x20 + n) % 0x20 == n);
    assert(s[0] == 0x20 + n);
}

/// A change of the limit goes out with the next block, and not with the one after it. Where the
/// table was emptied in between, that is announced before.
pub proof fn law_limits_go_out_once(e: EncoderView, list: Seq<FieldView>)
    ensures
        encoder::after_block(e, list).pending is None,
        ({
            let fields = encoder::block_wire(EncoderView { pending: None, ..e }, list);
            let all = encoder::block_wire(e, list);
            &&& e.pending is None ==> all == fields
            &&& e.pending matches Some(n) ==> (!e.reset ==> all == encoder::update_wire(n) + fields)
                && (e.reset && n != 0 ==> all == seq![0x20u8] + encoder::update_wire(n) + fields)
                && (e.reset && n == 0 ==> all == seq![0x20u8] + fields)
        }),
{
    let bare = EncoderView { pending: None, ..e };
    let fields = encoder::block_wire(bare, list);
    let wire = encoder::fields_wire(e.table, e.coded, list);
    assert(Seq::<u8>::empty() + wire =~= wire);
    assert(fields =~= wire);
    assert(encoder::update_wire(0) =~= seq![0x20u8]);
    if let Some(n) = e.pending {
        let u = encoder::update_wire(n);
        assert(seq![0x20u8] + u + wire =~= (seq![0x20u8] + u) + wire);
        assert(Seq::<u8>::empty() + u =~= u);
        assert(seq![0x20u8] + Seq::<u8>::empty() =~= seq![0x20u8]);
    }
}

/// A field that neither table has is written with both strings behind `0x40`, and then the next
/// time with one number: it is the newest of the table.
pub proof fn law_new_fields_are_kept(t: TableView, f: FieldView)
    requires
        encoder::name_index(t, f.name) is None,
        weight(seq![f]) <= t.max,
        f.name.len() < 127,
        f.value.len() < 127,
    ensures
        encoder::field_wire(t, false, f) == seq![0x40u8] + plain(f.name) + plain(f.value),
        encoder::field_wire(encoder::table_after(t, f), false, f) == seq![0xbeu8],
        encoder::table_after(t, f).fields[0] == f,
{
    lemma_plain(f.name);
    lemma_plain(f.value);
    lemma_weight(seq![f]);
    dynamic_table::lemma_size_front(f, Seq::empty());
    assert(seq![f] + Seq::<FieldView>::empty() =~= seq![f]);
    encoder::lemma_unknown(t, f);
    let next = encoder::table_after(t, f);
    assert(next.fields[0] == f);
    assert(encoder::field_wire(t, false, f) =~= seq![0x40u8] + plain(f.name) + plain(f.value));
    assert(dynamic_table::find_field(next.fields, f, 0) == Some(0int));
    assert(encoder::field_wire(next, false, f) =~= seq![0xbeu8]);
}

/// A string is written behind its length, whose first bit says whether it is in words.
pub proof fn law_strings_have_their_length_first(s: Seq<u8>, rest: Seq<u8>)
    requires
        s.len() < 127,
        crate::h2::hpack::huffman::encoded(s).len() < 127,
    ensures
        literal::literal_wire(s, false) == seq![s.len() as u8] + s,
        literal::literal_wire(s, true) == seq![
            (128 + crate::h2::hpack::huffman::encoded(s).len()) as u8,
        ] + crate::h2::hpack::huffman::encoded(s),
        literal::literal_at(seq![s.len() as u8] + s + rest) == Ok::<(Seq<u8>, int), DecoderError>(
            (s, 1 + s.len() as int),
        ),
{
    let coded = crate::h2::hpack::huffman::encoded(s);
    lemma_plain(s);
    assert(literal::literal_wire(s, true) =~= seq![(128 + coded.len()) as u8] + coded);
    literal::law_literals_round_trip(s, false, rest);
}

} // verus!
