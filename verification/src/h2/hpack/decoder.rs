//! Reading blocks of header fields, whole or in fragments.

use crate::bytes::push_bytes;
use crate::h2::hpack::dynamic_table;
use crate::h2::hpack::dynamic_table::{DynamicTable, TableView, OVERHEAD};
use crate::h2::hpack::history;
use crate::h2::hpack::history::{Call, Reader};
use crate::h2::hpack;
use crate::h2::hpack::huffman;
use crate::h2::hpack::huffman::{HuffmanDecoder, Kept};
use crate::h2::hpack::integer;
use crate::h2::hpack::integer::Continued;
use crate::h2::hpack::literal;
use crate::h2::hpack::literal::MAX_LITERAL_LEN;
use crate::h2::hpack::machine;
use crate::h2::hpack::machine::{Machine, NumberView, PhaseView, TargetView};
use crate::h2::hpack::static_table::StaticTable;
use crate::h2::hpack::{DecoderError, FieldView, OwnedHeader};
use vstd::prelude::*;

verus! {

/// A limit less `amount`. The largest limit stands for no limit at all.
pub open spec fn limit_less(limit: usize, amount: int) -> usize {
    if limit == usize::MAX {
        limit
    } else if amount >= limit {
        0
    } else {
        (limit - amount) as usize
    }
}

/// The longest text of a literal field that can matter: one that the list still admits, or
/// one that the table admits when the field is to be added to it.
pub open spec fn keep_limit(table_max: nat, used: nat, cap: usize, index: bool) -> usize {
    let data = limit_less(limit_less(cap, used as int), OVERHEAD as int);
    let dynamic = limit_less(table_max as usize, OVERHEAD as int);
    if index && dynamic > data {
        dynamic
    } else {
        data
    }
}

fn limit_sub(limit: usize, amount: usize) -> (r: usize)
    ensures
        r == limit_less(limit, amount as int),
{
    if limit == usize::MAX {
        limit
    } else {
        limit.saturating_sub(amount)
    }
}

/// The size of the list so far against its limit.
struct HeaderListBudget {
    max: usize,
    used: usize,
    exceeded: bool,
    allow_size_update: bool,
}

impl HeaderListBudget {
    fn new(max: Option<usize>) -> (r: Self)
        ensures
            r.max == (match max {
                Some(limit) => limit,
                None => usize::MAX,
            }),
            r.used == 0,
            !r.exceeded,
            r.allow_size_update,
    {
        HeaderListBudget {
            max: match max {
                Some(limit) => limit,
                None => usize::MAX,
            },
            used: 0,
            exceeded: false,
            allow_size_update: true,
        }
    }

    fn charge(&mut self, name_len: usize, value_len: usize) -> (r: bool)
        ensures
            final(self).used == (if old(self).used + name_len + value_len + OVERHEAD > usize::MAX {
                usize::MAX as int
            } else {
                old(self).used + name_len + value_len + OVERHEAD
            }),
            r == (final(self).used <= old(self).max),
            final(self).exceeded == (old(self).exceeded || !r),
            final(self).max == old(self).max,
            final(self).allow_size_update == old(self).allow_size_update,
    {
        self.used = self.used.saturating_add(name_len).saturating_add(value_len).saturating_add(
            OVERHEAD,
        );
        if self.used > self.max {
            self.exceeded = true;
            false
        } else {
            true
        }
    }
}

#[derive(Copy, Clone)]
struct LiteralContext {
    retain_limit: usize,
    name_len: usize,
    name_retained: bool,
    index_it: bool,
}

#[derive(Copy, Clone)]
struct StringTarget {
    context: LiteralContext,
    is_name: bool,
}

impl StringTarget {
    spec fn limit(self) -> usize {
        if self.is_name {
            self.context.retain_limit
        } else {
            limit_less(self.context.retain_limit, self.context.name_len as int)
        }
    }

    fn retain_limit(self) -> (r: usize)
        ensures
            r == self.limit(),
    {
        if self.is_name {
            self.context.retain_limit
        } else {
            limit_sub(self.context.retain_limit, self.context.name_len)
        }
    }
}

#[derive(Copy, Clone)]
enum IntegerTarget {
    Indexed,
    LiteralName { index_it: bool },
    DynamicSize,
    StringLength { coded: bool, target: StringTarget },
}

#[derive(Copy, Clone)]
struct IntegerState {
    value: u64,
    scale: u64,
    target: IntegerTarget,
}

#[derive(Copy, Clone)]
struct StringState {
    remaining: usize,
    decoded_len: usize,
    retained: bool,
    target: StringTarget,
    huffman: Option<HuffmanDecoder>,
}

#[derive(Copy, Clone)]
enum Phase {
    Representation,
    Integer(IntegerState),
    StringPrefix(StringTarget),
    Text(StringState),
}

/// A block of which fragments are being read.
pub struct DecoderBlock {
    phase: Phase,
    budget: HeaderListBudget,
    model: Ghost<PhaseView>,
}

/// A literal field of which the name was read and the value is cut off.
struct PartialLiteral {
    consumed: usize,
    target: StringTarget,
}

/// The reader in the middle of a block.
spec fn at(dec: Decoder, b: HeaderListBudget, phase: PhaseView, out: Seq<FieldView>) -> Machine {
    Machine {
        table: dec.dyn_table@,
        setting: dec.max_size_setting as nat,
        cap: b.max as nat,
        phase,
        used: b.used as nat,
        exceeded: b.exceeded,
        allow_update: b.allow_size_update,
        out,
    }
}

spec fn target_holds(
    dec: Decoder,
    b: HeaderListBudget,
    target: StringTarget,
    view: TargetView,
) -> bool {
    let context = target.context;
    match view {
        TargetView::Name { index } => {
            &&& target.is_name
            &&& context.index_it == index
            &&& context.retain_limit == keep_limit(dec.dyn_table@.max, b.used as nat, b.max, index)
        },
        TargetView::Value { index, name } => {
            &&& !target.is_name
            &&& context.index_it == index
            &&& context.retain_limit == keep_limit(dec.dyn_table@.max, b.used as nat, b.max, index)
            &&& huffman::keeps(
                dec.name_scratch@,
                Kept { len: context.name_len, retained: context.name_retained },
                name,
                context.retain_limit,
            )
        },
    }
}

spec fn number_holds(
    dec: Decoder,
    b: HeaderListBudget,
    target: IntegerTarget,
    view: NumberView,
) -> bool {
    match target {
        IntegerTarget::Indexed => view is Indexed,
        IntegerTarget::LiteralName { index_it } => view == (NumberView::LiteralName {
            index: index_it,
        }),
        IntegerTarget::DynamicSize => view is DynamicSize,
        IntegerTarget::StringLength { coded, target } => view matches NumberView::StringLength {
            coded: c,
            target: t,
        } && c == coded && target_holds(dec, b, target, t),
    }
}

spec fn scratch_of(dec: Decoder, target: StringTarget) -> Seq<u8> {
    if target.is_name {
        dec.name_scratch@
    } else {
        dec.value_scratch@
    }
}

spec fn phase_holds(dec: Decoder, b: HeaderListBudget, phase: Phase, view: PhaseView) -> bool {
    match phase {
        Phase::Representation => view is Representation,
        Phase::Integer(state) => view matches PhaseView::Number { value, scale, purpose } && value
            == state.value && scale == state.scale && integer::is_scale(scale) && number_holds(
            dec,
            b,
            state.target,
            purpose,
        ),
        Phase::StringPrefix(target) => view matches PhaseView::Prefix { target: t } && target_holds(
            dec,
            b,
            target,
            t,
        ),
        Phase::Text(state) => match state.huffman {
            None => view matches PhaseView::Plain { left, text, target } && left == state.remaining
                && left > 0 && text.len() + left <= MAX_LITERAL_LEN && state.decoded_len
                == text.len() && state.retained == (text.len() + left <= state.target.limit()) && (
            state.retained ==> scratch_of(dec, state.target) == text) && target_holds(
                dec,
                b,
                state.target,
                target,
            ),
            Some(decoder) => view matches PhaseView::Coded { left, walk, target } && left
                == state.remaining && left > 0 && walk.symbols.len() + 8 * left <= 8
                * MAX_LITERAL_LEN && decoder.at(walk.symbols) == walk && huffman::keeps(
                scratch_of(dec, state.target),
                Kept { len: state.decoded_len, retained: state.retained },
                walk.symbols,
                state.target.limit(),
            ) && target_holds(dec, b, state.target, target),
        },
    }
}

/// Whether `p` says what was read of a literal field whose value is cut off.
spec fn partial_holds(
    dec: Decoder,
    b: HeaderListBudget,
    o: Machine,
    s: Seq<u8>,
    p: PartialLiteral,
) -> bool {
    &&& machine::opening(s[0]).1 is LiteralName
    &&& integer::integer_at(s, machine::opening(s[0]).0) matches Ok((number, n)) && (
    machine::name_at(o, s, n, number) matches Ok((name, pos)) && pos == p.consumed && target_holds(
        dec,
        b,
        p.target,
        TargetView::Value { index: machine::opening(s[0]).1->LiteralName_index, name },
    ))
}

impl DecoderBlock {
    /// Whether this block was begun by `dec` and has been read by it since.
    pub closed spec fn of(&self, dec: &Decoder) -> bool {
        phase_holds(*dec, self.budget, self.phase, self.model@)
    }

    /// The reader in the middle of this block, when `out` was read before.
    pub closed spec fn machine(&self, dec: &Decoder, out: Seq<FieldView>) -> Machine {
        at(*dec, self.budget, self.model@, out)
    }

    /// Whether the block may end here.
    pub closed spec fn complete(&self) -> bool {
        self.phase is Representation
    }

    /// Whether the list has become too large.
    pub closed spec fn exceeded(&self) -> bool {
        self.budget.exceeded
    }

    pub proof fn lemma_machine(&self, dec: &Decoder, out: Seq<FieldView>)
        requires
            self.of(dec),
        ensures
            self.machine(dec, out).exceeded == self.exceeded(),
            self.complete() == (self.machine(dec, out).phase is Representation),
            self.machine(dec, out).table == dec.table(),
            self.machine(dec, out).out == out,
    {
    }

    /// Ends the block: whether the list was too large, or `NeedMore` in the middle of a field.
    pub fn finish(self) -> (r: Result<bool, DecoderError>)
        ensures
            r == (if self.complete() {
                Ok::<bool, DecoderError>(self.exceeded())
            } else {
                Err(DecoderError::NeedMore)
            }),
    {
        match self.phase {
            Phase::Representation => Ok(self.budget.exceeded),
            _ => Err(DecoderError::NeedMore),
        }
    }
}

/// Reads blocks of header fields.
pub struct Decoder {
    dyn_table: DynamicTable,
    max_size_setting: usize,
    max_header_list_size: Option<usize>,
    name_scratch: Vec<u8>,
    value_scratch: Vec<u8>,
}

impl Decoder {
    /// The table of fields that were read before.
    pub closed spec fn table(&self) -> TableView {
        self.dyn_table@
    }

    /// The limit that was set for the table.
    pub closed spec fn setting(&self) -> nat {
        self.max_size_setting as nat
    }

    /// The limit for the size of a list, if there is one.
    pub closed spec fn list_limit(&self) -> Option<usize> {
        self.max_header_list_size
    }

    pub closed spec fn wf(&self) -> bool {
        self.dyn_table.wf() && self.dyn_table@.max <= self.max_size_setting
    }

    /// The reader as it stands between two calls.
    pub open spec fn reader(&self) -> Reader {
        Reader {
            table: self.table(),
            setting: self.setting(),
            list_limit: self.list_limit(),
        }
    }

    /// The reader at the start of a block, when `out` was read before.
    pub open spec fn start(&self, out: Seq<FieldView>) -> Machine {
        history::start(self.reader(), out)
    }

    /// The fields in the table count for no more than its limit, and that is no more than what
    /// was set.
    pub proof fn law_limit_is_kept(&self)
        requires
            self.wf(),
        ensures
            dynamic_table::list_size(self.table().fields) <= self.table().max,
            self.table().max <= self.setting(),
    {
        self.dyn_table.lemma_wf();
    }

    pub fn new(max_dyn_size: usize) -> (r: Self)
        requires
            max_dyn_size <= dynamic_table::table_cap(),
        ensures
            r.wf(),
            r.table() == (TableView { fields: Seq::empty(), max: max_dyn_size as nat }),
            r.setting() == max_dyn_size,
            r.list_limit() is None,
            r.reader() == history::fresh(max_dyn_size as nat),
    {
        Decoder {
            dyn_table: DynamicTable::new(max_dyn_size),
            max_size_setting: max_dyn_size,
            max_header_list_size: None,
            name_scratch: Vec::new(),
            value_scratch: Vec::new(),
        }
    }

    /// Sets the limit for the table. A table that is larger shrinks at once; it grows only
    /// when a block says so, and no further than a table can.
    pub fn set_max_size(&mut self, n: usize)
        requires
            old(self).wf(),
        ensures
            final(self).wf(),
            final(self).setting() == n,
            final(self).list_limit() == old(self).list_limit(),
            final(self).table() == (if n < old(self).table().max {
                dynamic_table::resized(old(self).table(), n as nat)
            } else {
                old(self).table()
            }),
            final(self).reader() == history::after(old(self).reader(), Call::Limit(n)),
    {
        self.max_size_setting = n;
        if n < self.dyn_table.max_size() {
            self.dyn_table.set_max(n);
        }
    }

    pub fn set_max_header_list_size(&mut self, n: Option<usize>)
        requires
            old(self).wf(),
        ensures
            final(self).wf(),
            final(self).list_limit() == n,
            final(self).table() == old(self).table(),
            final(self).setting() == old(self).setting(),
            final(self).reader() == history::after(old(self).reader(), Call::ListLimit(n)),
    {
        self.max_header_list_size = n;
    }

    pub fn dyn_size(&self) -> (r: usize)
        requires
            self.wf(),
        ensures
            r == dynamic_table::list_size(self.table().fields),
    {
        self.dyn_table.current_size()
    }

    pub fn dyn_max(&self) -> (r: usize)
        requires
            self.wf(),
        ensures
            r == self.table().max,
    {
        self.dyn_table.max_size()
    }

    pub fn dyn_len(&self) -> (r: usize)
        ensures
            r == self.table().fields.len(),
    {
        self.dyn_table.len()
    }

    pub fn dyn_get(&self, index: usize) -> (r: Option<(&[u8], &[u8])>)
        requires
            self.wf(),
        ensures
            r is Some <==> index < self.table().fields.len(),
            r matches Some((name, value)) ==> self.table().fields[index as int] == (FieldView {
                name: name@,
                value: value@,
            }),
    {
        self.dyn_table.get(index)
    }

    fn lookup(dyn_table: &DynamicTable, index: u64) -> (r: Result<(&[u8], &[u8]), DecoderError>)
        requires
            dyn_table.wf(),
        ensures
            match r {
                Ok((name, value)) => machine::field_with(dyn_table@, index) == Some(
                    FieldView { name: name@, value: value@ },
                ),
                Err(error) => machine::field_with(dyn_table@, index) is None && error is BadIndex,
            },
    {
        if index == 0 {
            return Err(DecoderError::BadIndex);
        }
        if index <= StaticTable::LEN as u64 {
            return match StaticTable::get(index as usize) {
                Some((name, value)) => Ok((name, value)),
                None => Err(DecoderError::BadIndex),
            };
        }
        let place: u64 = index - StaticTable::LEN as u64 - 1;
        if place >= dyn_table.len() as u64 {
            return Err(DecoderError::BadIndex);
        }
        match dyn_table.get(place as usize) {
            Some((name, value)) => Ok((name, value)),
            None => Err(DecoderError::BadIndex),
        }
    }

    fn literal_context(&self, budget: &HeaderListBudget, index_it: bool) -> (r: LiteralContext)
        requires
            self.wf(),
        ensures
            r.index_it == index_it,
            r.retain_limit == keep_limit(
                self.dyn_table@.max,
                budget.used as nat,
                budget.max,
                index_it,
            ),
    {
        let data: usize = limit_sub(limit_sub(budget.max, budget.used), OVERHEAD);
        let table_max: usize = self.dyn_table.max_size();
        let dynamic: usize = limit_sub(table_max, OVERHEAD);
        let retain_limit: usize = if index_it && dynamic > data {
            dynamic
        } else {
            data
        };
        LiteralContext { retain_limit, name_len: 0, name_retained: false, index_it }
    }

    /// Keeps the name with an index, unless it is longer than `limit`.
    fn retain_indexed_name(&mut self, index: u64, limit: usize) -> (r: Result<Kept, DecoderError>)
        requires
            old(self).wf(),
        ensures
            final(self).wf(),
            *final(self) == (Decoder { name_scratch: final(self).name_scratch, ..*old(self) }),
            match r {
                Ok(kept) => machine::field_with(old(self).dyn_table@, index) matches Some(f)
                    && huffman::keeps(final(self).name_scratch@, kept, f.name, limit),
                Err(error) => machine::field_with(old(self).dyn_table@, index) is None
                    && error is BadIndex,
            },
    {
        let (name, _value): (&[u8], &[u8]) = match Self::lookup(&self.dyn_table, index) {
            Ok(pair) => pair,
            Err(error) => return Err(error),
        };
        self.name_scratch.clear();
        let len: usize = name.len();
        let retained = len <= limit;
        if retained {
            push_bytes(&mut self.name_scratch, name);
            assert(self.name_scratch@ =~= name@);
        }
        Ok(Kept { len, retained })
    }

    /// Both strings of a literal field were read: the field is added to the table if it is
    /// to be, and handed out if the list admits it.
    fn finish_literal(
        &mut self,
        budget: &mut HeaderListBudget,
        context: LiteralContext,
        value: Kept,
        out: &mut Vec<OwnedHeader>,
        Ghost(f): Ghost<FieldView>,
    )
        requires
            old(self).wf(),
            context.retain_limit == keep_limit(
                old(self).dyn_table@.max,
                old(budget).used as nat,
                old(budget).max,
                context.index_it,
            ),
            huffman::keeps(
                old(self).name_scratch@,
                Kept { len: context.name_len, retained: context.name_retained },
                f.name,
                context.retain_limit,
            ),
            huffman::keeps(
                old(self).value_scratch@,
                value,
                f.value,
                limit_less(context.retain_limit, context.name_len as int),
            ),
        ensures
            final(self).wf(),
            final(self).max_size_setting == old(self).max_size_setting,
            final(self).max_header_list_size == old(self).max_header_list_size,
            at(
                *final(self),
                *final(budget),
                PhaseView::Representation,
                hpack::fields(final(out)@),
            ) == machine::literal_done(
                at(*old(self), *old(budget), PhaseView::Representation, hpack::fields(old(out)@)),
                context.index_it,
                f,
            ),
    {
        let retained = context.name_retained && value.retained;
        proof {
            if retained {
                assert(f =~= FieldView {
                    name: self.name_scratch@,
                    value: self.value_scratch@,
                });
            }
        }
        if context.index_it {
            let table_max: usize = self.dyn_table.max_size();
            let dynamic: usize = limit_sub(table_max, OVERHEAD);
            let fits = match context.name_len.checked_add(value.len) {
                Some(len) => len <= dynamic,
                None => false,
            };
            if retained && fits {
                self.dyn_table.insert(self.name_scratch.as_slice(), self.value_scratch.as_slice());
            } else {
                self.dyn_table.clear();
            }
        }
        if budget.charge(context.name_len, value.len) {
            assert(retained);
            let field = OwnedHeader::new(self.name_scratch.as_slice(), self.value_scratch.as_slice());
            let ghost before = out@;
            out.push(field);
            assert(hpack::fields(out@) =~= hpack::fields(before).push(f));
        }
    }

    /// A string of a literal field was read.
    fn complete_string(
        &mut self,
        block: &mut DecoderBlock,
        target: StringTarget,
        kept: Kept,
        out: &mut Vec<OwnedHeader>,
        Ghost(view): Ghost<TargetView>,
        Ghost(text): Ghost<Seq<u8>>,
    )
        requires
            old(self).wf(),
            target_holds(*old(self), old(block).budget, target, view),
            huffman::keeps(scratch_of(*old(self), target), kept, text, target.limit()),
        ensures
            final(self).wf(),
            final(self).max_size_setting == old(self).max_size_setting,
            final(self).max_header_list_size == old(self).max_header_list_size,
            final(block).of(final(self)),
            final(block).machine(final(self), hpack::fields(final(out)@)) == machine::text_done(
                old(block).machine(old(self), hpack::fields(old(out)@)),
                view,
                text,
            ),
    {
        if target.is_name {
            let context = LiteralContext {
                name_len: kept.len,
                name_retained: kept.retained,
                ..target.context
            };
            block.phase = Phase::StringPrefix(StringTarget { context, is_name: false });
            proof {
                block.model@ = PhaseView::Prefix {
                    target: TargetView::Value { index: view->Name_index, name: text },
                };
            }
        } else {
            self.finish_literal(
                &mut block.budget,
                target.context,
                kept,
                out,
                Ghost(FieldView { name: view->Value_name, value: text }),
            );
            block.phase = Phase::Representation;
            proof {
                block.model@ = PhaseView::Representation;
            }
        }
    }

    /// A number was read.
    fn complete_integer(
        &mut self,
        block: &mut DecoderBlock,
        value: u64,
        target: IntegerTarget,
        out: &mut Vec<OwnedHeader>,
        Ghost(view): Ghost<NumberView>,
    ) -> (r: Result<(), DecoderError>)
        requires
            old(self).wf(),
            number_holds(*old(self), old(block).budget, target, view),
        ensures
            final(self).wf(),
            final(self).max_size_setting == old(self).max_size_setting,
            final(self).max_header_list_size == old(self).max_header_list_size,
            ({
                let m = old(block).machine(old(self), hpack::fields(old(out)@));
                match r {
                    Ok(_) => machine::number_done(m, value, view) == Ok::<Machine, DecoderError>(
                        final(block).machine(final(self), hpack::fields(final(out)@)),
                    ) && final(block).of(final(self)),
                    Err(error) => machine::number_done(m, value, view) == Err::<
                        Machine,
                        DecoderError,
                    >(error) && machine::settled(
                        final(block).machine(final(self), hpack::fields(final(out)@)),
                    ) == machine::settled(m),
                }
            }),
    {
        match target {
            IntegerTarget::Indexed => {
                let (name, field_value): (&[u8], &[u8]) = match Self::lookup(
                    &self.dyn_table,
                    value,
                ) {
                    Ok(pair) => pair,
                    Err(error) => return Err(error),
                };
                let ghost f = FieldView { name: name@, value: field_value@ };
                if block.budget.charge(name.len(), field_value.len()) {
                    let field = OwnedHeader::new(name, field_value);
                    let ghost before = out@;
                    out.push(field);
                    assert(hpack::fields(out@) =~= hpack::fields(before).push(f));
                }
                block.phase = Phase::Representation;
                proof {
                    block.model@ = PhaseView::Representation;
                }
            },
            IntegerTarget::LiteralName { index_it } => {
                let context = self.literal_context(&block.budget, index_it);
                if value == 0 {
                    block.phase = Phase::StringPrefix(StringTarget { context, is_name: true });
                    proof {
                        block.model@ = PhaseView::Prefix {
                            target: TargetView::Name { index: index_it },
                        };
                    }
                } else {
                    let ghost f = machine::field_with(self.dyn_table@, value);
                    let kept = match self.retain_indexed_name(value, context.retain_limit) {
                        Ok(kept) => kept,
                        Err(error) => return Err(error),
                    };
                    let context = LiteralContext {
                        name_len: kept.len,
                        name_retained: kept.retained,
                        ..context
                    };
                    block.phase = Phase::StringPrefix(StringTarget { context, is_name: false });
                    proof {
                        block.model@ = PhaseView::Prefix {
                            target: TargetView::Value { index: index_it, name: f->Some_0.name },
                        };
                    }
                }
            },
            IntegerTarget::DynamicSize => {
                if value > self.max_size_setting as u64 || value > dynamic_table::largest() as u64 {
                    return Err(DecoderError::BadDynSizeUpdate);
                }
                self.dyn_table.set_max(value as usize);
                block.phase = Phase::Representation;
                proof {
                    block.model@ = PhaseView::Representation;
                }
            },
            IntegerTarget::StringLength { coded, target } => {
                if value > MAX_LITERAL_LEN as u64 {
                    return Err(DecoderError::BadString);
                }
                let ghost inner = view->StringLength_target;
                let len: usize = value as usize;
                if target.is_name {
                    self.name_scratch.clear();
                } else {
                    self.value_scratch.clear();
                }
                assert(scratch_of(*self, target) =~= Seq::<u8>::empty());
                if len == 0 {
                    let kept = Kept { len: 0, retained: true };
                    self.complete_string(
                        block,
                        target,
                        kept,
                        out,
                        Ghost(inner),
                        Ghost(Seq::empty()),
                    );
                } else if coded {
                    let decoder = HuffmanDecoder::new();
                    assert(decoder.at(Seq::empty()) =~= huffman::walk_start());
                    block.phase = Phase::Text(
                        StringState {
                            remaining: len,
                            decoded_len: 0,
                            retained: true,
                            target,
                            huffman: Some(decoder),
                        },
                    );
                    proof {
                        block.model@ = PhaseView::Coded {
                            left: len as nat,
                            walk: huffman::walk_start(),
                            target: inner,
                        };
                    }
                } else {
                    let limit: usize = target.retain_limit();
                    block.phase = Phase::Text(
                        StringState {
                            remaining: len,
                            decoded_len: 0,
                            retained: len <= limit,
                            target,
                            huffman: None,
                        },
                    );
                    proof {
                        block.model@ = PhaseView::Plain {
                            left: len as nat,
                            text: Seq::empty(),
                            target: inner,
                        };
                    }
                }
            },
        }
        Ok(())
    }

    /// The first byte of a number.
    fn start_integer(
        &mut self,
        block: &mut DecoderBlock,
        first: u8,
        mask: u8,
        target: IntegerTarget,
        out: &mut Vec<OwnedHeader>,
        Ghost(view): Ghost<NumberView>,
    ) -> (r: Result<(), DecoderError>)
        requires
            old(self).wf(),
            number_holds(*old(self), old(block).budget, target, view),
            mask == 0x7f || mask == 0x3f || mask == 0x1f || mask == 0x0f,
        ensures
            final(self).wf(),
            final(self).max_size_setting == old(self).max_size_setting,
            final(self).max_header_list_size == old(self).max_header_list_size,
            ({
                let m = old(block).machine(old(self), hpack::fields(old(out)@));
                match r {
                    Ok(_) => machine::number_start(m, first, mask, view) == Ok::<
                        Machine,
                        DecoderError,
                    >(final(block).machine(final(self), hpack::fields(final(out)@))) && final(block).of(final(self)),
                    Err(error) => machine::number_start(m, first, mask, view) == Err::<
                        Machine,
                        DecoderError,
                    >(error) && machine::settled(
                        final(block).machine(final(self), hpack::fields(final(out)@)),
                    ) == machine::settled(m),
                }
            }),
    {
        let prefix: u8 = first % (mask + 1);
        if prefix < mask {
            self.complete_integer(block, prefix as u64, target, out, Ghost(view))
        } else {
            block.phase = Phase::Integer(IntegerState { value: mask as u64, scale: 1, target });
            proof {
                block.model@ = PhaseView::Number { value: mask as u64, scale: 1, purpose: view };
            }
            Ok(())
        }
    }

    /// Reads the strings of a literal field. `number` is the index of its name, and `n` bytes
    /// were read before. When the value is cut off, `partial` says what was read.
    fn decode_literal(
        &mut self,
        input: &[u8],
        n: usize,
        number: u64,
        index_it: bool,
        budget: &mut HeaderListBudget,
        out: &mut Vec<OwnedHeader>,
        partial: &mut Option<PartialLiteral>,
    ) -> (r: Result<usize, DecoderError>)
        requires
            old(self).wf(),
            n <= input@.len(),
            *old(partial) is None,
        ensures
            final(self).wf(),
            final(self).max_size_setting == old(self).max_size_setting,
            final(self).max_header_list_size == old(self).max_header_list_size,
            final(budget).max == old(budget).max,
            ({
                let m = at(
                    *old(self),
                    *old(budget),
                    PhaseView::Representation,
                    hpack::fields(old(out)@),
                );
                let now = at(
                    *final(self),
                    *final(budget),
                    PhaseView::Representation,
                    hpack::fields(final(out)@),
                );
                match machine::name_at(m, input@, n as int, number) {
                    Err(error) => r == Err::<usize, DecoderError>(error) && now == m
                        && *final(partial) is None,
                    Ok((name, pos)) => n <= pos <= input@.len() && (match r {
                        Ok(used) => machine::value_at(m, input@, pos, index_it, name) == Ok::<
                            (Machine, int),
                            DecoderError,
                        >((now, used as int)) && pos < used <= input@.len(),
                        Err(error) => machine::value_at(m, input@, pos, index_it, name) == Err::<
                            (Machine, int),
                            DecoderError,
                        >(error) && now == m && (*final(partial) matches Some(p) ==> p.consumed
                            == pos && target_holds(
                            *final(self),
                            *final(budget),
                            p.target,
                            TargetView::Value { index: index_it, name },
                        )),
                    }),
                }
            }),
    {
        let context = self.literal_context(budget, index_it);
        let ghost named = machine::name_at(
            at(*self, *budget, PhaseView::Representation, hpack::fields(out@)),
            input@,
            n as int,
            number,
        );
        let mut pos: usize = n;
        let name = if number == 0 {
            match literal::decode_into(
                &input[n..input.len()],
                &mut self.name_scratch,
                context.retain_limit,
            ) {
                Ok(name) => {
                    pos = n + name.consumed;
                    Kept { len: name.len, retained: name.retained }
                },
                Err(error) => return Err(error),
            }
        } else {
            match self.retain_indexed_name(number, context.retain_limit) {
                Ok(kept) => kept,
                Err(error) => return Err(error),
            }
        };
        let ghost text = named->Ok_0.0;
        assert(named == Ok::<(Seq<u8>, int), DecoderError>((text, pos as int)));
        let context = LiteralContext { name_len: name.len, name_retained: name.retained, ..context };
        let target = StringTarget { context, is_name: false };
        match literal::decode_into(
            &input[pos..input.len()],
            &mut self.value_scratch,
            target.retain_limit(),
        ) {
            Ok(value) => {
                let kept = Kept { len: value.len, retained: value.retained };
                let ghost value_text = literal::literal_at(
                    input@.subrange(pos as int, input@.len() as int),
                )->Ok_0.0;
                self.finish_literal(
                    budget,
                    context,
                    kept,
                    out,
                    Ghost(FieldView { name: text, value: value_text }),
                );
                Ok(pos + value.consumed)
            },
            Err(error) => {
                if error == DecoderError::NeedMore {
                    *partial = Some(PartialLiteral { consumed: pos, target });
                }
                Err(error)
            },
        }
    }

    /// Reads one whole field. When the value of a literal field is cut off, `partial` says
    /// what was read.
    fn decode_one(
        &mut self,
        input: &[u8],
        budget: &mut HeaderListBudget,
        out: &mut Vec<OwnedHeader>,
        partial: &mut Option<PartialLiteral>,
    ) -> (r: Result<usize, DecoderError>)
        requires
            old(self).wf(),
            input@.len() > 0,
            *old(partial) is None,
        ensures
            final(self).wf(),
            final(self).max_size_setting == old(self).max_size_setting,
            final(self).max_header_list_size == old(self).max_header_list_size,
            final(budget).max == old(budget).max,
            ({
                let m = at(
                    *old(self),
                    *old(budget),
                    PhaseView::Representation,
                    hpack::fields(old(out)@),
                );
                let now = at(
                    *final(self),
                    *final(budget),
                    PhaseView::Representation,
                    hpack::fields(final(out)@),
                );
                match r {
                    Ok(used) => machine::field_at(m, input@) == Ok::<(Machine, int), DecoderError>(
                        (now, used as int),
                    ) && 1 <= used <= input@.len(),
                    Err(error) => machine::field_at(m, input@) == Err::<
                        (Machine, int),
                        DecoderError,
                    >(error) && now == machine::opened(m, input@[0]) && (error is NeedMore ==> !(
                    machine::is_update(
                        input@[0],
                    ) && !m.allow_update) && (*final(partial) matches Some(p) ==> partial_holds(
                        *final(self),
                        *final(budget),
                        now,
                        input@,
                        p,
                    ))),
                }
            }),
    {
        let ghost m = at(*self, *budget, PhaseView::Representation, hpack::fields(out@));
        let first: u8 = input[0];
        let size_update = 0x20 <= first && first < 0x40;
        if size_update {
            if !budget.allow_size_update {
                return Err(DecoderError::BadDynSizeUpdate);
            }
        } else {
            budget.allow_size_update = false;
        }
        let ghost o = machine::opened(m, input@[0]);
        assert(o == at(*self, *budget, PhaseView::Representation, hpack::fields(out@)));
        if first >= 0x80 {
            let (index, used): (u64, usize) = match integer::decode(input, 0x7f) {
                Ok(pair) => pair,
                Err(error) => return Err(error),
            };
            let (name, value): (&[u8], &[u8]) = match Self::lookup(&self.dyn_table, index) {
                Ok(pair) => pair,
                Err(error) => return Err(error),
            };
            if budget.charge(name.len(), value.len()) {
                let ghost f = FieldView { name: name@, value: value@ };
                let field = OwnedHeader::new(name, value);
                let ghost before = out@;
                out.push(field);
                assert(hpack::fields(out@) =~= hpack::fields(before).push(f));
            }
            return Ok(used);
        }
        if size_update {
            let (new_size, used): (u64, usize) = match integer::decode(input, 0x1f) {
                Ok(pair) => pair,
                Err(error) => return Err(error),
            };
            if new_size > self.max_size_setting as u64 || new_size
                > dynamic_table::largest() as u64 {
                return Err(DecoderError::BadDynSizeUpdate);
            }
            self.dyn_table.set_max(new_size as usize);
            return Ok(used);
        }
        let index_it = first >= 0x40;
        let mask: u8 = if index_it {
            0x3f
        } else {
            0x0f
        };
        let (number, n): (u64, usize) = match integer::decode(input, mask) {
            Ok(pair) => pair,
            Err(error) => return Err(error),
        };
        self.decode_literal(input, n, number, index_it, budget, out, partial)
    }

    /// Reads a complete block and appends its fields to `out`. A list that has become too
    /// large is cut off there.
    pub fn decode(&mut self, buf: &[u8], out: &mut Vec<OwnedHeader>) -> (r: Result<
        (),
        DecoderError,
    >)
        requires
            old(self).wf(),
        ensures
            final(self).wf(),
            final(self).setting() == old(self).setting(),
            final(self).list_limit() == old(self).list_limit(),
            final(self).reader() == history::after(
                old(self).reader(),
                Call::Block { bytes: buf@, out: hpack::fields(old(out)@) },
            ),
            match r {
                Ok(_) => machine::block_at(
                    old(self).start(hpack::fields(old(out)@)),
                    buf@,
                ) matches Ok(m) && final(self).table() == m.table && hpack::fields(final(out)@)
                    == m.out,
                Err(error) => machine::block_at(
                    old(self).start(hpack::fields(old(out)@)),
                    buf@,
                ) matches Err((m, e)) && e == error && final(self).table() == m.table
                    && hpack::fields(final(out)@) == m.out,
            },
    {
        match self.decode_bounded(buf, out) {
            Ok(_) => Ok(()),
            Err(error) => Err(error),
        }
    }

    /// As `decode`, and says whether the list was too large.
    pub fn decode_bounded(&mut self, buf: &[u8], out: &mut Vec<OwnedHeader>) -> (r: Result<
        bool,
        DecoderError,
    >)
        requires
            old(self).wf(),
        ensures
            final(self).wf(),
            final(self).setting() == old(self).setting(),
            final(self).list_limit() == old(self).list_limit(),
            final(self).reader() == history::after(
                old(self).reader(),
                Call::Block { bytes: buf@, out: hpack::fields(old(out)@) },
            ),
            match r {
                Ok(exceeded) => machine::block_at(
                    old(self).start(hpack::fields(old(out)@)),
                    buf@,
                ) matches Ok(m) && final(self).table() == m.table && hpack::fields(final(out)@)
                    == m.out && exceeded == m.exceeded,
                Err(error) => machine::block_at(
                    old(self).start(hpack::fields(old(out)@)),
                    buf@,
                ) matches Err((m, e)) && e == error && final(self).table() == m.table
                    && hpack::fields(final(out)@) == m.out,
            },
    {
        let mut budget = HeaderListBudget::new(self.max_header_list_size);
        let ghost start = self.start(hpack::fields(out@));
        let mut pos: usize = 0;
        assert(buf@.subrange(0, buf@.len() as int) =~= buf@);
        while pos < buf.len()
            invariant
                self.wf(),
                self.max_size_setting == old(self).max_size_setting,
                self.max_header_list_size == old(self).max_header_list_size,
                start == old(self).start(hpack::fields(old(out)@)),
                0 <= pos <= buf@.len(),
                machine::block_at(start, buf@) == machine::block_at(
                    at(*self, budget, PhaseView::Representation, hpack::fields(out@)),
                    buf@.subrange(pos as int, buf@.len() as int),
                ),
            decreases buf@.len() - pos,
        {
            let mut partial: Option<PartialLiteral> = None;
            let ghost rest = buf@.subrange(pos as int, buf@.len() as int);
            match self.decode_one(&buf[pos..buf.len()], &mut budget, out, &mut partial) {
                Ok(used) => {
                    assert(rest.subrange(used as int, rest.len() as int) =~= buf@.subrange(
                        pos + used,
                        buf@.len() as int,
                    ));
                    pos = pos + used;
                },
                Err(error) => return Err(error),
            }
        }
        Ok(budget.exceeded)
    }

    /// Begins a block that comes in fragments.
    pub fn start_block(&self) -> (r: DecoderBlock)
        ensures
            r.of(self),
            r.complete(),
            !r.exceeded(),
            forall|out: Seq<FieldView>| #[trigger] r.machine(self, out) == self.start(out),
    {
        DecoderBlock {
            phase: Phase::Representation,
            budget: HeaderListBudget::new(self.max_header_list_size),
            model: Ghost(PhaseView::Representation),
        }
    }

    /// Reads the next fragment of a block and appends the fields that it completes. On an error
    /// the field that could not be read is given up, and the block stands between two fields.
    pub fn decode_fragment(
        &mut self,
        block: &mut DecoderBlock,
        input: &[u8],
        out: &mut Vec<OwnedHeader>,
    ) -> (r: Result<(), DecoderError>)
        requires
            old(self).wf(),
            old(block).of(old(self)),
        ensures
            final(self).wf(),
            final(self).setting() == old(self).setting(),
            final(self).list_limit() == old(self).list_limit(),
            final(self).reader() == history::after(
                old(self).reader(),
                Call::Fragment {
                    at: old(block).machine(old(self), hpack::fields(old(out)@)),
                    bytes: input@,
                },
            ),
            match r {
                Ok(_) => final(block).of(final(self)) && machine::feed(
                    old(block).machine(old(self), hpack::fields(old(out)@)),
                    input@,
                ) == Ok::<Machine, (Machine, DecoderError)>(
                    final(block).machine(final(self), hpack::fields(final(out)@)),
                ),
                Err(error) => final(block).of(final(self)) && machine::feed(
                    old(block).machine(old(self), hpack::fields(old(out)@)),
                    input@,
                ) == Err::<Machine, (Machine, DecoderError)>(
                    (final(block).machine(final(self), hpack::fields(final(out)@)), error),
                ),
            },
    {
        let ghost start = block.machine(self, hpack::fields(out@));
        let ghost len = input@.len() as int;
        let mut pos: usize = 0;
        assert(input@.subrange(0, 0) =~= Seq::empty());
        assert(input@.subrange(0, len) =~= input@);
        while pos < input.len()
            invariant
                self.wf(),
                self.max_size_setting == old(self).max_size_setting,
                self.max_header_list_size == old(self).max_header_list_size,
                block.of(self),
                start == old(block).machine(old(self), hpack::fields(old(out)@)),
                len == input@.len(),
                0 <= pos <= len,
                input@.subrange(0, len) == input@,
                machine::feed(start, input@.subrange(0, pos as int)) == Ok::<
                    Machine,
                    (Machine, DecoderError),
                >(block.machine(self, hpack::fields(out@))),
            decreases len - pos,
        {
            let ghost m = block.machine(self, hpack::fields(out@));
            let rest = &input[pos..input.len()];
            proof {
                machine::lemma_feed_split(start, input@, 0, pos as int, len);
            }
            match self.read_some(block, rest, out) {
                Ok(used) => {
                    proof {
                        machine::lemma_feed_split(start, input@, 0, pos as int, pos + used);
                        assert(rest@.subrange(0, used as int) =~= input@.subrange(
                            pos as int,
                            pos + used,
                        ));
                    }
                    pos = pos + used;
                },
                Err(error) => {
                    block.phase = Phase::Representation;
                    proof {
                        block.model@ = PhaseView::Representation;
                    }
                    return Err(error);
                },
            }
        }
        Ok(())
    }

    /// Reads some of the input, at least one byte, and says how much.
    fn read_some(
        &mut self,
        block: &mut DecoderBlock,
        input: &[u8],
        out: &mut Vec<OwnedHeader>,
    ) -> (r: Result<usize, DecoderError>)
        requires
            old(self).wf(),
            old(block).of(old(self)),
            input@.len() > 0,
        ensures
            final(self).wf(),
            final(self).max_size_setting == old(self).max_size_setting,
            final(self).max_header_list_size == old(self).max_header_list_size,
            ({
                let m = old(block).machine(old(self), hpack::fields(old(out)@));
                match r {
                    Ok(used) => 1 <= used <= input@.len() && machine::feed(
                        m,
                        input@.subrange(0, used as int),
                    ) == Ok::<Machine, (Machine, DecoderError)>(
                        final(block).machine(final(self), hpack::fields(final(out)@)),
                    ) && final(block).of(final(self)),
                    Err(error) => machine::fails(
                        machine::feed(m, input@),
                        error,
                        machine::stopped(m, input@[0]),
                    ) && machine::settled(
                        final(block).machine(final(self), hpack::fields(final(out)@)),
                    ) == machine::stopped(m, input@[0]),
                }
            }),
    {
        let ghost m = block.machine(self, hpack::fields(out@));
        match block.phase {
            Phase::Representation => self.read_field(block, input, out),
            Phase::Text(state) => {
                let amount: usize = if input.len() < state.remaining {
                    input.len()
                } else {
                    state.remaining
                };
                proof {
                    machine::lemma_feed_split(m, input@, 0, amount as int, input@.len() as int);
                    assert(input@.subrange(0, input@.len() as int) =~= input@);
                }
                match self.feed_string(block, state, &input[0..amount], out) {
                    Ok(_) => Ok(amount),
                    Err(error) => Err(error),
                }
            },
            _ => {
                proof {
                    machine::lemma_feed_first(m, input@);
                }
                match self.read_byte(block, input[0], out) {
                    Ok(_) => Ok(1),
                    Err(error) => Err(error),
                }
            },
        }
    }

    /// Reads a byte of a number.
    fn read_byte(&mut self, block: &mut DecoderBlock, byte: u8, out: &mut Vec<OwnedHeader>) -> (r:
        Result<(), DecoderError>)
        requires
            old(self).wf(),
            old(block).of(old(self)),
            old(block).phase is Integer || old(block).phase is StringPrefix,
        ensures
            final(self).wf(),
            final(self).max_size_setting == old(self).max_size_setting,
            final(self).max_header_list_size == old(self).max_header_list_size,
            ({
                let m = old(block).machine(old(self), hpack::fields(old(out)@));
                match r {
                    Ok(_) => machine::step(m, byte) == Ok::<Machine, DecoderError>(
                        final(block).machine(final(self), hpack::fields(final(out)@)),
                    ) && final(block).of(final(self)),
                    Err(error) => machine::step(m, byte) == Err::<Machine, DecoderError>(error)
                        && machine::settled(
                        final(block).machine(final(self), hpack::fields(final(out)@)),
                    ) == machine::settled(m),
                }
            }),
    {
        match block.phase {
            Phase::Integer(state) => {
                let ghost view = block.model@->purpose;
                match integer::continue_integer(state.value, state.scale, byte) {
                    Continued::Overflow => Err(DecoderError::BadInteger),
                    Continued::Done(value) => self.complete_integer(
                        block,
                        value,
                        state.target,
                        out,
                        Ghost(view),
                    ),
                    Continued::More(value, scale) => {
                        block.phase = Phase::Integer(
                            IntegerState { value, scale, target: state.target },
                        );
                        proof {
                            block.model@ = PhaseView::Number { value, scale, purpose: view };
                        }
                        Ok(())
                    },
                }
            },
            Phase::StringPrefix(target) => {
                let coded = byte >= 0x80;
                let ghost view = NumberView::StringLength {
                    coded,
                    target: block.model@->Prefix_target,
                };
                self.start_integer(
                    block,
                    byte,
                    0x7f,
                    IntegerTarget::StringLength { coded, target },
                    out,
                    Ghost(view),
                )
            },
            _ => Ok(()),
        }
    }

    /// Reads a field, or as much of it as has come.
    fn read_field(
        &mut self,
        block: &mut DecoderBlock,
        input: &[u8],
        out: &mut Vec<OwnedHeader>,
    ) -> (r: Result<usize, DecoderError>)
        requires
            old(self).wf(),
            old(block).of(old(self)),
            old(block).phase is Representation,
            input@.len() > 0,
        ensures
            final(self).wf(),
            final(self).max_size_setting == old(self).max_size_setting,
            final(self).max_header_list_size == old(self).max_header_list_size,
            ({
                let m = old(block).machine(old(self), hpack::fields(old(out)@));
                match r {
                    Ok(used) => 1 <= used <= input@.len() && machine::feed(
                        m,
                        input@.subrange(0, used as int),
                    ) == Ok::<Machine, (Machine, DecoderError)>(
                        final(block).machine(final(self), hpack::fields(final(out)@)),
                    ) && final(block).of(final(self)),
                    Err(error) => machine::fails(
                        machine::feed(m, input@),
                        error,
                        machine::stopped(m, input@[0]),
                    ) && machine::settled(
                        final(block).machine(final(self), hpack::fields(final(out)@)),
                    ) == machine::stopped(m, input@[0]),
                }
            }),
    {
        let ghost m = block.machine(self, hpack::fields(out@));
        proof {
            machine::lemma_field_is_fed(m, input@);
            machine::lemma_feed_first(m, input@);
        }
        let mut partial: Option<PartialLiteral> = None;
        match self.decode_one(input, &mut block.budget, out, &mut partial) {
            Ok(used) => Ok(used),
            Err(error) => {
                if error != DecoderError::NeedMore {
                    return Err(error);
                }
                match partial {
                    Some(p) => {
                        let ghost index = machine::opening(input@[0]).1->LiteralName_index;
                        let ghost mask = machine::opening(input@[0]).0;
                        let ghost o = machine::opened(m, input@[0]);
                        let ghost number = integer::integer_at(input@, mask)->Ok_0;
                        let ghost name = machine::name_at(
                            o,
                            input@,
                            number.1,
                            number.0,
                        )->Ok_0.0;
                        let ghost view = TargetView::Value { index, name };
                        proof {
                            machine::lemma_feed_name(m, input@, index);
                        }
                        block.phase = Phase::StringPrefix(p.target);
                        proof {
                            block.model@ = PhaseView::Prefix { target: view };
                        }
                        Ok(p.consumed)
                    },
                    None => {
                        let first: u8 = input[0];
                        let (mask, target): (u8, IntegerTarget) = if first >= 0x80 {
                            (0x7f, IntegerTarget::Indexed)
                        } else if first >= 0x40 {
                            (0x3f, IntegerTarget::LiteralName { index_it: true })
                        } else if first >= 0x20 {
                            (0x1f, IntegerTarget::DynamicSize)
                        } else {
                            (0x0f, IntegerTarget::LiteralName { index_it: false })
                        };
                        let ghost view = machine::opening(first).1;
                        match self.start_integer(block, first, mask, target, out, Ghost(view)) {
                            Ok(_) => Ok(1),
                            Err(error) => Err(error),
                        }
                    },
                }
            },
        }
    }

    /// Reads a piece of a string.
    fn feed_string(
        &mut self,
        block: &mut DecoderBlock,
        state: StringState,
        payload: &[u8],
        out: &mut Vec<OwnedHeader>,
    ) -> (r: Result<(), DecoderError>)
        requires
            old(self).wf(),
            old(block).of(old(self)),
            old(block).phase == Phase::Text(state),
            1 <= payload@.len() <= state.remaining,
        ensures
            final(self).wf(),
            final(self).max_size_setting == old(self).max_size_setting,
            final(self).max_header_list_size == old(self).max_header_list_size,
            ({
                let m = old(block).machine(old(self), hpack::fields(old(out)@));
                match r {
                    Ok(_) => machine::feed(m, payload@) == Ok::<Machine, (Machine, DecoderError)>(
                        final(block).machine(final(self), hpack::fields(final(out)@)),
                    ) && final(block).of(final(self)),
                    Err(error) => machine::fails(
                        machine::feed(m, payload@),
                        error,
                        machine::settled(m),
                    ) && machine::settled(
                        final(block).machine(final(self), hpack::fields(final(out)@)),
                    ) == machine::settled(m),
                }
            }),
    {
        let ghost m = block.machine(self, hpack::fields(out@));
        let target = state.target;
        let limit: usize = target.retain_limit();
        let amount: usize = payload.len();
        let remaining: usize = state.remaining - amount;
        match state.huffman {
            None => {
                let ghost text = block.model@->text;
                let ghost view = block.model@->Plain_target;
                proof {
                    if remaining == 0 {
                        machine::lemma_feed_plain_end(
                            m,
                            payload@,
                            state.remaining as nat,
                            text,
                            view,
                        );
                    } else {
                        machine::lemma_feed_plain(m, payload@, state.remaining as nat, text, view);
                    }
                }
                if state.retained {
                    if target.is_name {
                        push_bytes(&mut self.name_scratch, payload);
                    } else {
                        push_bytes(&mut self.value_scratch, payload);
                    }
                }
                let decoded_len: usize = state.decoded_len + amount;
                if remaining == 0 {
                    let kept = Kept { len: decoded_len, retained: state.retained };
                    self.complete_string(
                        block,
                        target,
                        kept,
                        out,
                        Ghost(view),
                        Ghost(text + payload@),
                    );
                } else {
                    block.phase = Phase::Text(StringState { remaining, decoded_len, ..state });
                    proof {
                        block.model@ = PhaseView::Plain {
                            left: remaining as nat,
                            text: text + payload@,
                            target: view,
                        };
                    }
                }
                Ok(())
            },
            Some(decoder) => {
                let mut decoder = decoder;
                let ghost walk = block.model@->walk;
                let ghost view = block.model@->Coded_target;
                proof {
                    if remaining == 0 {
                        machine::lemma_feed_coded_end(
                            m,
                            payload@,
                            state.remaining as nat,
                            walk,
                            view,
                        );
                    } else {
                        machine::lemma_feed_coded(m, payload@, state.remaining as nat, walk, view);
                    }
                    huffman::lemma_byte_bits_len(payload@);
                    huffman::lemma_walk_growth(walk, huffman::byte_bits(payload@));
                }
                let start = Kept { len: state.decoded_len, retained: state.retained };
                let fed = if target.is_name {
                    huffman::feed_text(
                        &mut decoder,
                        payload,
                        &mut self.name_scratch,
                        start,
                        limit,
                        Ghost(walk.symbols),
                    )
                } else {
                    huffman::feed_text(
                        &mut decoder,
                        payload,
                        &mut self.value_scratch,
                        start,
                        limit,
                        Ghost(walk.symbols),
                    )
                };
                match fed {
                    Err(_) => Err(DecoderError::BadString),
                    Ok(kept) => {
                        let ghost next = huffman::walk(
                            walk,
                            huffman::byte_bits(payload@),
                        )->Some_0;
                        if remaining == 0 {
                            if !decoder.finish() {
                                assert(!huffman::walk_ends(decoder.at(next.symbols)));
                                return Err(DecoderError::BadString);
                            }
                            assert(huffman::walk_ends(decoder.at(next.symbols)));
                            self.complete_string(
                                block,
                                target,
                                kept,
                                out,
                                Ghost(view),
                                Ghost(next.symbols),
                            );
                        } else {
                            block.phase = Phase::Text(
                                StringState {
                                    remaining,
                                    decoded_len: kept.len,
                                    retained: kept.retained,
                                    target,
                                    huffman: Some(decoder),
                                },
                            );
                            proof {
                                block.model@ = PhaseView::Coded {
                                    left: remaining as nat,
                                    walk: next,
                                    target: view,
                                };
                            }
                        }
                        Ok(())
                    },
                }
            },
        }
    }
}

} // verus!
