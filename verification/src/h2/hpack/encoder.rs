//! Writing blocks of header fields.

use crate::h2::hpack::dynamic_table;
use crate::h2::hpack::dynamic_table::{DynamicTable, TableView};
use crate::h2::hpack::integer;
use crate::h2::hpack::literal;
use crate::h2::hpack::literal::MAX_LITERAL_LEN;
use crate::h2::hpack::machine;
use crate::h2::hpack::machine::{Machine, NumberView};
use crate::h2::hpack::static_table;
use crate::h2::hpack::static_table::StaticTable;
use crate::h2::hpack::{DecoderError, FieldView, Header};
use vstd::prelude::*;

verus! {

/// An encoder: the table that the decoder has after the next block was begun, the limit of
/// the table, the limit to announce with the next block, whether the table is to be emptied
/// before, and whether strings are Huffman-coded.
#[verifier::ext_equal]
pub struct EncoderView {
    pub table: TableView,
    pub setting: nat,
    pub pending: Option<nat>,
    pub reset: bool,
    pub coded: bool,
}

/// A table after the limits that a block announces.
pub open spec fn announced(t: TableView, pending: Option<nat>, reset: bool) -> TableView {
    match pending {
        None => t,
        Some(n) => if reset {
            dynamic_table::resized(dynamic_table::resized(t, 0), n)
        } else {
            dynamic_table::resized(t, n)
        },
    }
}

/// One announcement of a limit.
pub open spec fn update_wire(n: nat) -> Seq<u8> {
    integer::integer_wire(n as u64, 0x1f, 0x20)
}

/// The announcements at the start of a block.
pub open spec fn updates_wire(pending: Option<nat>, reset: bool) -> Seq<u8> {
    match pending {
        None => Seq::empty(),
        Some(n) => (if reset {
            update_wire(0)
        } else {
            Seq::empty()
        }) + (if !reset || n != 0 {
            update_wire(n)
        } else {
            Seq::empty()
        }),
    }
}

/// The index of the whole field.
pub open spec fn field_index(t: TableView, f: FieldView) -> Option<int> {
    match static_table::static_exact(f, StaticTable::LEN as int) {
        Some(i) => Some(i),
        None => match dynamic_table::find_field(t.fields, f, 0) {
            Some(i) => Some(StaticTable::LEN + 1 + i),
            None => None,
        },
    }
}

/// The index of a field with the name.
pub open spec fn name_index(t: TableView, name: Seq<u8>) -> Option<int> {
    match static_table::static_first(name, StaticTable::LEN as int) {
        Some(i) => Some(i),
        None => match dynamic_table::find_name(t.fields, name, 0) {
            Some(i) => Some(StaticTable::LEN + 1 + i),
            None => None,
        },
    }
}

/// The name of a field that is added to the table: its index, or the name itself.
pub open spec fn name_wire(t: TableView, coded: bool, name: Seq<u8>) -> Seq<u8> {
    match name_index(t, name) {
        Some(i) => integer::integer_wire(i as u64, 0x3f, 0x40),
        None => seq![0x40u8] + literal::literal_wire(name, coded),
    }
}

/// A field: its index where it is known, else its strings, and then it is added.
pub open spec fn field_wire(t: TableView, coded: bool, f: FieldView) -> Seq<u8> {
    match field_index(t, f) {
        Some(i) => integer::integer_wire(i as u64, 0x7f, 0x80),
        None => name_wire(t, coded, f.name) + literal::literal_wire(f.value, coded),
    }
}

/// The table after a field.
pub open spec fn table_after(t: TableView, f: FieldView) -> TableView {
    match field_index(t, f) {
        Some(i) => t,
        None => dynamic_table::inserted(t, f),
    }
}

/// The table after a list of fields.
pub open spec fn table_after_all(t: TableView, list: Seq<FieldView>) -> TableView
    decreases list.len(),
{
    if list.len() == 0 {
        t
    } else {
        table_after(table_after_all(t, list.drop_last()), list.last())
    }
}

/// A list of fields.
pub open spec fn fields_wire(t: TableView, coded: bool, list: Seq<FieldView>) -> Seq<u8>
    decreases list.len(),
{
    if list.len() == 0 {
        Seq::empty()
    } else {
        fields_wire(t, coded, list.drop_last()) + field_wire(
            table_after_all(t, list.drop_last()),
            coded,
            list.last(),
        )
    }
}

/// A whole block.
pub open spec fn block_wire(e: EncoderView, list: Seq<FieldView>) -> Seq<u8> {
    updates_wire(e.pending, e.reset) + fields_wire(e.table, e.coded, list)
}

/// The fields of a list of borrowed ones.
pub open spec fn header_views(list: Seq<Header<'_>>) -> Seq<FieldView> {
    list.map_values(|h: Header<'_>| h@)
}

/// The encoder after a block.
pub open spec fn after_block(e: EncoderView, list: Seq<FieldView>) -> EncoderView {
    EncoderView {
        table: table_after_all(e.table, list),
        pending: None,
        reset: if e.pending is Some {
            false
        } else {
            e.reset
        },
        ..e
    }
}

/// The encoder after the limit of its table was set.
pub open spec fn resized_encoder(e: EncoderView, n: nat) -> EncoderView {
    let grows = e.pending matches Some(previous) && n > previous;
    EncoderView {
        table: if grows {
            dynamic_table::resized(dynamic_table::resized(e.table, 0), n)
        } else {
            dynamic_table::resized(e.table, n)
        },
        setting: n,
        pending: Some(n),
        reset: e.reset || grows,
        coded: e.coded,
    }
}

/// Writes blocks of header fields.
pub struct Encoder {
    dyn_table: DynamicTable,
    max_size_setting: usize,
    pending_size_update: Option<usize>,
    pending_reset: bool,
    use_huffman: bool,
}

impl Encoder {
    pub closed spec fn view(&self) -> EncoderView {
        EncoderView {
            table: self.dyn_table@,
            setting: self.max_size_setting as nat,
            pending: match self.pending_size_update {
                Some(n) => Some(n as nat),
                None => None,
            },
            reset: self.pending_reset,
            coded: self.use_huffman,
        }
    }

    pub closed spec fn wf(&self) -> bool {
        self.dyn_table.wf() && self.max_size_setting <= dynamic_table::table_cap()
    }

    pub fn new(max_dyn_size: usize) -> (r: Self)
        requires
            max_dyn_size <= dynamic_table::table_cap(),
        ensures
            r.wf(),
            r@ == (EncoderView {
                table: TableView { fields: Seq::empty(), max: max_dyn_size as nat },
                setting: max_dyn_size as nat,
                pending: None,
                reset: false,
                coded: true,
            }),
    {
        Encoder {
            dyn_table: DynamicTable::new(max_dyn_size),
            max_size_setting: max_dyn_size,
            pending_size_update: None,
            pending_reset: false,
            use_huffman: true,
        }
    }

    /// Sets the limit of the table. It is announced with the next block; when it grows before
    /// a smaller one was announced, the table is emptied.
    pub fn set_max_size(&mut self, n: usize)
        requires
            old(self).wf(),
            n <= dynamic_table::table_cap(),
        ensures
            final(self).wf(),
            final(self)@ == resized_encoder(old(self)@, n as nat),
    {
        let grows = match self.pending_size_update {
            Some(previous) => n > previous,
            None => false,
        };
        if grows {
            self.dyn_table.set_max(0);
            self.pending_reset = true;
        }
        self.max_size_setting = n;
        self.dyn_table.set_max(n);
        self.pending_size_update = Some(n);
    }

    pub fn set_huffman(&mut self, enabled: bool)
        requires
            old(self).wf(),
        ensures
            final(self).wf(),
            final(self)@ == (EncoderView { coded: enabled, ..old(self)@ }),
    {
        self.use_huffman = enabled;
    }

    /// Forgets a block that was written and will not be sent: the next one empties the table.
    pub fn discard_block(&mut self)
        requires
            old(self).wf(),
        ensures
            final(self).wf(),
            final(self)@ == (EncoderView {
                table: dynamic_table::resized(
                    dynamic_table::resized(old(self)@.table, 0),
                    old(self)@.setting,
                ),
                pending: Some(old(self)@.setting),
                reset: true,
                ..old(self)@
            }),
    {
        self.dyn_table.set_max(0);
        self.dyn_table.set_max(self.max_size_setting);
        self.pending_size_update = Some(self.max_size_setting);
        self.pending_reset = true;
    }

    /// Appends one field.
    pub fn encode_one(&mut self, h: Header<'_>, out: &mut Vec<u8>)
        requires
            old(self).wf(),
        ensures
            final(self).wf(),
            final(self)@ == (EncoderView {
                table: table_after(old(self)@.table, h@),
                ..old(self)@
            }),
            final(out)@ == old(out)@ + field_wire(old(self)@.table, old(self)@.coded, h@),
    {
        let ghost f = h@;
        let ghost t = self.dyn_table@;
        let ghost before = out@;
        proof {
            self.dyn_table.lemma_wf();
            dynamic_table::lemma_list_len(t.fields);
            dynamic_table::lemma_find_field(t.fields, f, 0);
            dynamic_table::lemma_find_name(t.fields, f.name, 0);
        }
        let static_match = StaticTable::lookup(h.name, h.value);
        let exact = match &static_match {
            Some(found) => found.exact,
            None => None,
        };
        if let Some(index) = exact {
            integer::encode(index as u64, 0x7f, 0x80, out);
            return;
        }
        let dynamic_match = self.dyn_table.lookup(h.name, h.value);
        if let Some(place) = dynamic_match.exact {
            let absolute: usize = StaticTable::LEN + 1 + place;
            integer::encode(absolute as u64, 0x7f, 0x80, out);
            return;
        }
        let name_at: Option<usize> = match static_match {
            Some(found) => Some(found.name),
            None => match dynamic_match.name {
                Some(place) => Some(StaticTable::LEN + 1 + place),
                None => None,
            },
        };
        match name_at {
            Some(index) => {
                integer::encode(index as u64, 0x3f, 0x40, out);
            },
            None => {
                out.push(0x40);
                literal::encode(h.name, self.use_huffman, out);
                assert(out@ =~= before + name_wire(t, self.use_huffman, f.name));
            },
        }
        assert(out@ =~= before + name_wire(t, self.use_huffman, f.name));
        literal::encode(h.value, self.use_huffman, out);
        assert(out@ =~= before + field_wire(t, self.use_huffman, f));
        self.dyn_table.insert(h.name, h.value);
    }

    /// Appends a block.
    pub fn encode(&mut self, headers: &[Header<'_>], out: &mut Vec<u8>)
        requires
            old(self).wf(),
        ensures
            final(self).wf(),
            final(self)@ == after_block(old(self)@, header_views(headers@)),
            final(out)@ == old(out)@ + block_wire(old(self)@, header_views(headers@)),
    {
        let ghost start = self@;
        let ghost before = out@;
        if let Some(n) = self.pending_size_update {
            self.pending_size_update = None;
            let reset = self.pending_reset;
            self.pending_reset = false;
            if reset {
                integer::encode(0, 0x1f, 0x20, out);
            }
            if !reset || n != 0 {
                integer::encode(n as u64, 0x1f, 0x20, out);
            }
        }
        assert(out@ =~= before + updates_wire(start.pending, start.reset));
        let ghost head = out@;
        let ghost list = header_views(headers@);
        let mut i: usize = 0;
        assert(list.subrange(0, 0) =~= Seq::empty());
        while i < headers.len()
            invariant
                self.wf(),
                i <= headers@.len(),
                list == header_views(headers@),
                self@ == (EncoderView {
                    table: table_after_all(start.table, list.subrange(0, i as int)),
                    pending: None,
                    reset: if start.pending is Some {
                        false
                    } else {
                        start.reset
                    },
                    ..start
                }),
                out@ == head + fields_wire(
                    start.table,
                    start.coded,
                    list.subrange(0, i as int),
                ),
            decreases headers@.len() - i,
        {
            let ghost sofar = out@;
            proof {
                assert(list.subrange(0, i + 1).drop_last() =~= list.subrange(0, i as int));
            }
            self.encode_one(headers[i], out);
            assert(out@ =~= head + fields_wire(
                start.table,
                start.coded,
                list.subrange(0, i + 1),
            ));
            i = i + 1;
        }
        assert(list.subrange(0, list.len() as int) =~= list);
        assert(out@ =~= before + block_wire(start, list));
    }
}

/// Whether a decoder reads the strings of the field: their bodies are not too long.
pub open spec fn readable(f: FieldView, coded: bool) -> bool {
    &&& literal::literal_body(f.name, coded).len() <= MAX_LITERAL_LEN
    &&& literal::literal_body(f.value, coded).len() <= MAX_LITERAL_LEN
}

proof fn lemma_field_found(t: TableView, f: FieldView)
    requires
        dynamic_table::table_inv(t),
        t.max <= u32::MAX,
    ensures
        field_index(t, f) matches Some(i) ==> 1 <= i <= u64::MAX && machine::field_with(t, i as u64)
            == Some(f),
        name_index(t, f.name) matches Some(i) ==> 1 <= i <= u64::MAX && (machine::field_with(
            t,
            i as u64,
        ) matches Some(g) && g.name == f.name),
{
    static_table::lemma_static_exact(f, StaticTable::LEN as int);
    static_table::lemma_static_first(f.name, StaticTable::LEN as int);
    dynamic_table::lemma_find_field(t.fields, f, 0);
    dynamic_table::lemma_find_name(t.fields, f.name, 0);
    dynamic_table::lemma_list_len(t.fields);
}

/// A field whose name is in no table is in none.
pub proof fn lemma_unknown(t: TableView, f: FieldView)
    requires
        name_index(t, f.name) is None,
    ensures
        field_index(t, f) is None,
        static_table::static_exact(f, StaticTable::LEN as int) is None,
{
    static_table::lemma_static_exact(f, StaticTable::LEN as int);
    static_table::lemma_static_first(f.name, StaticTable::LEN as int);
    dynamic_table::lemma_find_field(t.fields, f, 0);
    dynamic_table::lemma_find_name(t.fields, f.name, 0);
}

/// What a decoder makes of one field.
pub open spec fn field_read(m: Machine, f: FieldView) -> Machine {
    machine::emitted(Machine { table: table_after(m.table, f), allow_update: false, ..m }, f)
}

/// What a decoder makes of a list of fields.
pub open spec fn fields_read(m: Machine, list: Seq<FieldView>) -> Machine
    decreases list.len(),
{
    if list.len() == 0 {
        m
    } else {
        field_read(fields_read(m, list.drop_last()), list.last())
    }
}

proof fn lemma_known_field_read(m: Machine, i: u64, f: FieldView, rest: Seq<u8>)
    requires
        m.phase is Representation,
        machine::field_with(m.table, i) == Some(f),
    ensures
        ({
            let wire = integer::integer_wire(i, 0x7f, 0x80);
            &&& machine::field_at(m, wire + rest) == Ok::<(Machine, int), DecoderError>(
                (machine::emitted(Machine { allow_update: false, ..m }, f), wire.len() as int),
            )
            &&& wire.len() >= 1
        }),
{
    let wire = integer::integer_wire(i, 0x7f, 0x80);
    integer::law_integers_round_trip(i, 0x7f, 0x80, rest);
    assert((wire + rest)[0] == wire[0]);
}

/// The name of a literal field is read back.
proof fn lemma_name_read(m: Machine, coded: bool, f: FieldView, rest: Seq<u8>)
    requires
        dynamic_table::table_inv(m.table),
        m.table.max <= u32::MAX,
        readable(f, coded),
    ensures
        ({
            let wire = name_wire(m.table, coded, f.name);
            let s = wire + rest;
            &&& wire.len() >= 1
            &&& 0x40 <= s[0] < 0x80
            &&& integer::integer_at(s, 0x3f) matches Ok((number, n)) && machine::name_at(
                m,
                s,
                n,
                number,
            ) == Ok::<(Seq<u8>, int), DecoderError>((f.name, wire.len() as int))
        }),
{
    let t = m.table;
    let wire = name_wire(t, coded, f.name);
    let s = wire + rest;
    lemma_field_found(t, f);
    match name_index(t, f.name) {
        Some(i) => {
            integer::law_integers_round_trip(i as u64, 0x3f, 0x40, rest);
            assert(s[0] == wire[0]);
        },
        None => {
            let inner = literal::literal_wire(f.name, coded);
            let number = integer::integer_wire(0, 0x3f, 0x40);
            assert(number =~= seq![0x40u8]);
            assert(s =~= number + (inner + rest));
            assert(0x40u8 % 0x40 == 0);
            integer::law_integers_round_trip(0, 0x3f, 0x40, inner + rest);
            assert(s.subrange(1, s.len() as int) =~= inner + rest);
            literal::law_literals_round_trip(f.name, coded, rest);
        },
    }
}

proof fn lemma_field_read(m: Machine, coded: bool, f: FieldView, rest: Seq<u8>)
    requires
        m.phase is Representation,
        dynamic_table::table_inv(m.table),
        m.table.max <= u32::MAX,
        readable(f, coded),
    ensures
        machine::field_at(m, field_wire(m.table, coded, f) + rest) == Ok::<
            (Machine, int),
            DecoderError,
        >((field_read(m, f), field_wire(m.table, coded, f).len() as int)),
        field_wire(m.table, coded, f).len() >= 1,
{
    let t = m.table;
    let s = field_wire(t, coded, f) + rest;
    match field_index(t, f) {
        Some(i) => {
            lemma_field_found(t, f);
            lemma_known_field_read(m, i as u64, f, rest);
        },
        None => {
            let name = name_wire(t, coded, f.name);
            let value = literal::literal_wire(f.value, coded);
            assert(s =~= name + (value + rest));
            let o = machine::opened(m, s[0]);
            lemma_name_read(o, coded, f, value + rest);
            assert(o == (Machine { allow_update: false, ..m }));
            assert(s.subrange(name.len() as int, s.len() as int) =~= value + rest);
            literal::law_literals_round_trip(f.value, coded, rest);
            assert(FieldView { name: f.name, value: f.value } =~= f);
            assert(machine::value_at(o, s, name.len() as int, true, f.name) == Ok::<
                (Machine, int),
                DecoderError,
            >((machine::literal_done(o, true, f), (name.len() + value.len()) as int)));
        },
    }
}

proof fn lemma_block_concat(m: Machine, a: Seq<u8>, b: Seq<u8>, next: Machine)
    requires
        machine::block_at(m, a) == Ok::<Machine, (Machine, DecoderError)>(next),
        m.phase is Representation,
    ensures
        machine::block_at(m, a + b) == machine::block_at(next, b),
    decreases a.len(),
{
    if a.len() == 0 {
        assert(a + b =~= b);
    } else {
        let (m1, used) = machine::field_at(m, a)->Ok_0;
        machine::lemma_field_is_fed(m, a);
        lemma_field_prefix(m, a, b);
        assert((a + b).subrange(used, (a + b).len() as int) =~= a.subrange(used, a.len() as int) + b);
        lemma_block_concat(m1, a.subrange(used, a.len() as int), b, next);
    }
}

/// A whole field is the same with more bytes behind it.
proof fn lemma_field_prefix(m: Machine, a: Seq<u8>, b: Seq<u8>)
    requires
        a.len() > 0,
        m.phase is Representation,
        machine::field_at(m, a) is Ok,
    ensures
        machine::field_at(m, a + b) == machine::field_at(m, a),
{
    let s = a + b;
    assert(s[0] == a[0]);
    let (mask, target) = machine::opening(a[0]);
    let o = machine::opened(m, a[0]);
    lemma_integer_prefix(a, b, mask);
    let (number, n) = integer::integer_at(a, mask)->Ok_0;
    if let NumberView::LiteralName { index } = target {
        if number == 0 {
            lemma_literal_prefix(a, b, n);
        }
        let (name, pos) = machine::name_at(o, a, n, number)->Ok_0;
        lemma_literal_prefix(a, b, pos);
    }
}

proof fn lemma_integer_prefix(a: Seq<u8>, b: Seq<u8>, mask: u8)
    requires
        integer::integer_at(a, mask) is Ok,
    ensures
        integer::integer_at(a + b, mask) == integer::integer_at(a, mask),
        1 <= (integer::integer_at(a, mask)->Ok_0).1 <= a.len(),
{
    if a.len() > 0 {
        assert((a + b)[0] == a[0]);
        if !(a[0] % ((mask + 1) as u8) < mask) {
            lemma_tail_prefix(a, b, 1, mask as u64, 1);
        }
    }
}

proof fn lemma_tail_prefix(a: Seq<u8>, b: Seq<u8>, pos: int, value: u64, scale: u64)
    requires
        0 <= pos,
        integer::tail_at(a, pos, value, scale) is Ok,
    ensures
        integer::tail_at(a + b, pos, value, scale) == integer::tail_at(a, pos, value, scale),
        pos < (integer::tail_at(a, pos, value, scale)->Ok_0).1 <= a.len(),
    decreases a.len() - pos,
{
    assert((a + b)[pos] == a[pos]);
    if let integer::Continued::More(v, next) = integer::continued(value, scale, a[pos]) {
        lemma_tail_prefix(a, b, pos + 1, v, next);
    }
}

proof fn lemma_literal_prefix(a: Seq<u8>, b: Seq<u8>, pos: int)
    requires
        0 <= pos <= a.len(),
        literal::literal_at(a.subrange(pos, a.len() as int)) is Ok,
    ensures
        literal::literal_at((a + b).subrange(pos, (a + b).len() as int)) == literal::literal_at(
            a.subrange(pos, a.len() as int),
        ),
        0 < (literal::literal_at(a.subrange(pos, a.len() as int))->Ok_0).1 <= a.len() - pos,
{
    let s = a.subrange(pos, a.len() as int);
    assert((a + b).subrange(pos, (a + b).len() as int) =~= s + b);
    lemma_integer_prefix(s, b, 0x7f);
    let (len, n) = integer::integer_at(s, 0x7f)->Ok_0;
    assert((s + b).subrange(n, n + len) =~= s.subrange(n, n + len));
    assert((s + b)[0] == s[0]);
}

proof fn lemma_fields_read(m: Machine, coded: bool, list: Seq<FieldView>)
    requires
        m.phase is Representation,
        dynamic_table::table_inv(m.table),
        m.table.max <= u32::MAX,
        forall|i: int| 0 <= i < list.len() ==> #[trigger] readable(list[i], coded),
    ensures
        machine::block_at(m, fields_wire(m.table, coded, list)) == Ok::<
            Machine,
            (Machine, DecoderError),
        >(fields_read(m, list)),
        fields_read(m, list).phase is Representation,
        fields_read(m, list).table == table_after_all(m.table, list),
        fields_read(m, list).cap == m.cap,
        dynamic_table::table_inv(fields_read(m, list).table),
        fields_read(m, list).table.max == m.table.max,
    decreases list.len(),
{
    if list.len() > 0 {
        let init = list.drop_last();
        let f = list.last();
        assert forall|i: int| 0 <= i < init.len() implies #[trigger] readable(init[i], coded) by {
            assert(init[i] == list[i]);
        }
        lemma_fields_read(m, coded, init);
        let m1 = fields_read(m, init);
        let wire = field_wire(m1.table, coded, f);
        assert(readable(list[list.len() - 1], coded));
        lemma_field_read(m1, coded, f, Seq::empty());
        assert(wire + Seq::<u8>::empty() =~= wire);
        lemma_block_concat(m, fields_wire(m.table, coded, init), wire, m1);
        assert(wire.subrange(wire.len() as int, wire.len() as int) =~= Seq::empty());
        dynamic_table::law_table_keeps_its_limit(m1.table, f, 0);
        let end = field_read(m1, f);
        assert(machine::block_at(end, Seq::empty()) == Ok::<Machine, (Machine, DecoderError)>(end));
        assert(machine::block_at(m1, wire) == Ok::<Machine, (Machine, DecoderError)>(end));
    }
}

proof fn lemma_fields_out(m: Machine, list: Seq<FieldView>)
    requires
        m.used + hpack_size(list) <= m.cap,
        m.cap <= usize::MAX,
    ensures
        fields_read(m, list).out == m.out + list,
        fields_read(m, list).used == m.used + hpack_size(list),
        fields_read(m, list).exceeded == m.exceeded,
        fields_read(m, list).cap == m.cap,
    decreases list.len(),
{
    if list.len() == 0 {
        assert(m.out + list =~= m.out);
    } else {
        lemma_fields_out(m, list.drop_last());
        assert((m.out + list.drop_last()).push(list.last()) =~= m.out + list);
    }
}

/// What a list of fields counts for.
pub open spec fn hpack_size(list: Seq<FieldView>) -> nat {
    dynamic_table::list_size(list)
}

/// A decoder reads what an encoder wrote: as long as the two tables agree, the fields come
/// out as they went in and in order, and the tables agree afterwards.
///
/// The tables agree when that of the encoder is that of the decoder after the limits that
/// the block announces. The list must not be larger than the decoder admits, and no string
/// longer than it reads.
pub proof fn law_blocks_round_trip(e: EncoderView, m: Machine, list: Seq<FieldView>)
    requires
        m.phase is Representation,
        m.allow_update,
        m.cap <= usize::MAX,
        m.setting <= dynamic_table::table_cap(),
        dynamic_table::table_inv(m.table),
        m.table.max <= u32::MAX,
        e.table == announced(m.table, e.pending, e.reset),
        e.pending matches Some(n) ==> n <= m.setting,
        forall|i: int| 0 <= i < list.len() ==> #[trigger] readable(list[i], e.coded),
        m.used + hpack_size(list) <= m.cap,
    ensures
        machine::block_at(m, block_wire(e, list)) matches Ok(end) && end.out == m.out + list
            && end.exceeded == m.exceeded && end.phase is Representation && end.table
            == table_after_all(e.table, list),
{
    let head = updates_wire(e.pending, e.reset);
    let m1 = Machine { table: e.table, ..m };
    lemma_updates_read(m, e.pending, e.reset);
    let body = fields_wire(e.table, e.coded, list);
    lemma_block_concat(m, head, body, m1);
    lemma_fields_read(m1, e.coded, list);
    lemma_fields_out(m1, list);
}

proof fn lemma_update_read(m: Machine, n: nat)
    requires
        m.phase is Representation,
        m.allow_update,
        n <= m.setting,
        n <= dynamic_table::table_cap(),
    ensures
        machine::block_at(m, update_wire(n)) == Ok::<Machine, (Machine, DecoderError)>(
            Machine { table: dynamic_table::resized(m.table, n), ..m },
        ),
{
    let wire = update_wire(n);
    integer::law_integers_round_trip(n as u64, 0x1f, 0x20, Seq::empty());
    assert(wire + Seq::<u8>::empty() =~= wire);
    let next = Machine { table: dynamic_table::resized(m.table, n), ..m };
    assert(machine::opened(m, wire[0]) == m);
    assert(machine::field_at(m, wire) == Ok::<(Machine, int), DecoderError>(
        (next, wire.len() as int),
    ));
    assert(wire.subrange(wire.len() as int, wire.len() as int) =~= Seq::empty());
    assert(machine::block_at(next, Seq::empty()) == Ok::<Machine, (Machine, DecoderError)>(next));
}

proof fn lemma_updates_read(m: Machine, pending: Option<nat>, reset: bool)
    requires
        m.phase is Representation,
        m.allow_update,
        m.setting <= dynamic_table::table_cap(),
        dynamic_table::table_inv(m.table),
        pending matches Some(n) ==> n <= m.setting,
    ensures
        machine::block_at(m, updates_wire(pending, reset)) == Ok::<
            Machine,
            (Machine, DecoderError),
        >(Machine { table: announced(m.table, pending, reset), ..m }),
        dynamic_table::table_inv(announced(m.table, pending, reset)),
        m.table.max <= u32::MAX ==> announced(m.table, pending, reset).max <= u32::MAX,
{
    if let Some(n) = pending {
        let f = FieldView { name: Seq::empty(), value: Seq::empty() };
        dynamic_table::law_table_keeps_its_limit(m.table, f, n);
        if reset {
            let t0 = dynamic_table::resized(m.table, 0);
            let m0 = Machine { table: t0, ..m };
            dynamic_table::law_table_keeps_its_limit(m.table, f, 0);
            dynamic_table::law_table_keeps_its_limit(t0, f, n);
            lemma_update_read(m, 0);
            if n != 0 {
                lemma_update_read(m0, n);
                lemma_block_concat(m, update_wire(0), update_wire(n), m0);
            } else {
                assert(update_wire(0) + Seq::<u8>::empty() =~= update_wire(0));
                assert(dynamic_table::resized(t0, 0) == t0);
            }
        } else {
            lemma_update_read(m, n);
            assert(Seq::<u8>::empty() + update_wire(n) =~= update_wire(n));
        }
    }
}

/// However a block is cut into fragments, it means what it means in one piece.
pub proof fn law_fragments_do_not_matter(m: Machine, block: Seq<u8>, at: int)
    requires
        m.phase is Representation,
        0 <= at <= block.len(),
        machine::block_at(m, block) is Ok,
    ensures
        machine::feed(m, block.subrange(0, at)) matches Ok(mid) && machine::feed(
            mid,
            block.subrange(at, block.len() as int),
        ) == machine::block_at(m, block),
{
    machine::lemma_block_is_fed(m, block);
    machine::lemma_feed_split(m, block, 0, at, block.len() as int);
    assert(block.subrange(0, block.len() as int) =~= block);
}

/// After the limit of the table was moved, or a block was discarded, the encoder's table is
/// still that of the decoder after the limits that the next block announces.
pub proof fn law_tables_stay_in_step(t: TableView, e: EncoderView, n: nat)
    requires
        dynamic_table::table_inv(t),
        e.table == announced(t, e.pending, e.reset),
        e.pending is None ==> !e.reset,
    ensures
        ({
            let grows = e.pending matches Some(previous) && n > previous;
            &&& (if grows {
                dynamic_table::resized(dynamic_table::resized(e.table, 0), n)
            } else {
                dynamic_table::resized(e.table, n)
            }) == announced(t, Some(n), e.reset || grows)
            &&& dynamic_table::resized(dynamic_table::resized(e.table, 0), e.setting) == announced(
                t,
                Some(e.setting),
                true,
            )
        }),
{
    dynamic_table::lemma_emptied(t);
    dynamic_table::lemma_emptied(e.table);
    dynamic_table::lemma_emptied(dynamic_table::resized(t, 0));
    if let Some(previous) = e.pending {
        if n <= previous {
            dynamic_table::lemma_resized_twice(t, previous, n);
            dynamic_table::lemma_resized_twice(dynamic_table::resized(t, 0), previous, n);
        }
    }
}

} // verus!
