//! What becomes of a reader of header fields, whatever it is asked to do.

use crate::h2::hpack::dynamic_table;
use crate::h2::hpack::dynamic_table::TableView;
use crate::h2::hpack::machine;
use crate::h2::hpack::machine::{Machine, PhaseView};
use crate::h2::hpack::{DecoderError, FieldView};
use vstd::prelude::*;

verus! {

/// A reader between two calls: its table, and the limits that were set.
#[verifier::ext_equal]
pub struct Reader {
    pub table: TableView,
    pub setting: nat,
    pub list_limit: Option<usize>,
}

/// What a reader can be asked to do: to take a limit for its table or for its lists, to read a
/// whole block behind the fields `out`, or to go on with a block of which it stands at `at`.
pub enum Call {
    Limit(usize),
    ListLimit(Option<usize>),
    Block { bytes: Seq<u8>, out: Seq<FieldView> },
    Fragment { at: Machine, bytes: Seq<u8> },
}

/// The start of a block.
pub open spec fn start(r: Reader, out: Seq<FieldView>) -> Machine {
    Machine {
        table: r.table,
        setting: r.setting,
        cap: (match r.list_limit {
            Some(limit) => limit,
            None => usize::MAX,
        }) as nat,
        phase: PhaseView::Representation,
        used: 0,
        exceeded: false,
        allow_update: true,
        out,
    }
}

/// The table where reading has ended, well or not.
pub open spec fn table_left<E>(r: Result<Machine, (Machine, E)>) -> TableView {
    match r {
        Ok(m) => m.table,
        Err((m, _)) => m.table,
    }
}

/// A reader after a call.
pub open spec fn after(r: Reader, call: Call) -> Reader {
    match call {
        Call::Limit(n) => Reader {
            table: if n < r.table.max {
                dynamic_table::resized(r.table, n as nat)
            } else {
                r.table
            },
            setting: n as nat,
            ..r
        },
        Call::ListLimit(limit) => Reader { list_limit: limit, ..r },
        Call::Block { bytes, out } => Reader {
            table: table_left(machine::block_at(start(r, out), bytes)),
            ..r
        },
        Call::Fragment { at, bytes } => if at.table == r.table && at.setting == r.setting {
            Reader { table: table_left(machine::feed(at, bytes)), ..r }
        } else {
            r
        },
    }
}

/// A reader of which nothing was asked yet.
pub open spec fn fresh(max: nat) -> Reader {
    Reader { table: TableView { fields: Seq::empty(), max }, setting: max, list_limit: None }
}

/// A reader after calls.
pub open spec fn reached(r: Reader, calls: Seq<Call>) -> Reader
    decreases calls.len(),
{
    if calls.len() == 0 {
        r
    } else {
        after(reached(r, calls.drop_last()), calls.last())
    }
}

/// The limit for the table that was set last.
pub open spec fn last_limit(max: nat, calls: Seq<Call>) -> nat
    decreases calls.len(),
{
    if calls.len() == 0 {
        max
    } else {
        match calls.last() {
            Call::Limit(n) => n as nat,
            _ => last_limit(max, calls.drop_last()),
        }
    }
}

/// Whether a table keeps its limit, and the limit what was set.
pub open spec fn bounded(t: TableView, setting: nat) -> bool {
    dynamic_table::table_inv(t) && t.max <= setting
}

/// Whether a step that went well keeps the limits.
spec fn kept(r: Result<Machine, DecoderError>, setting: nat) -> bool {
    r matches Ok(next) ==> bounded(next.table, next.setting) && next.setting == setting
}

proof fn lemma_number(m: Machine, value: u64, target: machine::NumberView)
    requires
        bounded(m.table, m.setting),
    ensures
        kept(machine::number_done(m, value, target), m.setting),
{
    let nothing = FieldView { name: Seq::empty(), value: Seq::empty() };
    dynamic_table::law_table_keeps_its_limit(m.table, nothing, value as nat);
    if let machine::NumberView::StringLength { coded, target } = target {
        lemma_text(m, target, Seq::empty());
    }
}

proof fn lemma_text(m: Machine, target: machine::TargetView, text: Seq<u8>)
    requires
        bounded(m.table, m.setting),
    ensures
        ({
            let next = machine::text_done(m, target, text);
            bounded(next.table, next.setting) && next.setting == m.setting
        }),
{
    if let machine::TargetView::Value { index, name } = target {
        dynamic_table::law_table_keeps_its_limit(m.table, FieldView { name, value: text }, 0);
    }
}

proof fn lemma_step(m: Machine, byte: u8)
    requires
        bounded(m.table, m.setting),
    ensures
        kept(machine::step(m, byte), m.setting),
{
    match m.phase {
        PhaseView::Representation => {
            let o = machine::opened(m, byte);
            let (mask, target) = machine::opening(byte);
            assert forall|value: u64| #[trigger]
                kept(machine::number_done(o, value, target), m.setting) by {
                lemma_number(o, value, target);
            }
        },
        PhaseView::Number { value, scale, purpose } => {
            assert forall|total: u64| #[trigger]
                kept(machine::number_done(m, total, purpose), m.setting) by {
                lemma_number(m, total, purpose);
            }
        },
        PhaseView::Prefix { target } => {
            let purpose = machine::NumberView::StringLength { coded: byte >= 0x80, target };
            assert forall|value: u64| #[trigger]
                kept(machine::number_done(m, value, purpose), m.setting) by {
                lemma_number(m, value, purpose);
            }
        },
        PhaseView::Plain { left, text, target } => {
            lemma_text(m, target, text.push(byte));
        },
        PhaseView::Coded { left, walk, target } => {
            if let Some(next) = crate::h2::hpack::huffman::walk(
                walk,
                crate::h2::hpack::huffman::bits_of(byte as int, 8),
            ) {
                lemma_text(m, target, next.symbols);
            }
        },
    }
}

proof fn lemma_feed(m: Machine, s: Seq<u8>)
    requires
        bounded(m.table, m.setting),
    ensures
        match machine::feed(m, s) {
            Ok(next) => bounded(next.table, next.setting) && next.setting == m.setting,
            Err((at, _)) => bounded(at.table, at.setting) && at.setting == m.setting,
        },
    decreases s.len(),
{
    if s.len() > 0 {
        lemma_feed(m, s.drop_last());
        if let Ok(next) = machine::feed(m, s.drop_last()) {
            lemma_step(next, s.last());
        }
    }
}

proof fn lemma_block(m: Machine, s: Seq<u8>)
    requires
        bounded(m.table, m.setting),
    ensures
        match machine::block_at(m, s) {
            Ok(next) => bounded(next.table, next.setting) && next.setting == m.setting,
            Err((at, _)) => bounded(at.table, at.setting) && at.setting == m.setting,
        },
    decreases s.len(),
{
    if s.len() > 0 {
        let o = machine::opened(m, s[0]);
        let (mask, target) = machine::opening(s[0]);
        if let Ok((number, n)) = crate::h2::hpack::integer::integer_at(s, mask) {
            lemma_number(o, number, target);
            if let machine::NumberView::LiteralName { index } = target {
                if let Ok((name, pos)) = machine::name_at(o, s, n, number) {
                    if let Ok((value, used)) = crate::h2::hpack::literal::literal_at(
                        s.subrange(pos, s.len() as int),
                    ) {
                        dynamic_table::law_table_keeps_its_limit(
                            o.table,
                            FieldView { name, value },
                            0,
                        );
                    }
                }
            }
        }
        if let Ok((next, used)) = machine::field_at(m, s) {
            if 1 <= used <= s.len() {
                lemma_block(next, s.subrange(used, s.len() as int));
            }
        }
    }
}

/// Whatever a reader is asked to do, and whether or not it fails: the fields in its table count for
/// no more than the limit of the table, and that is no more than what was set last.
pub proof fn law_readers_keep_their_limit(max: nat, calls: Seq<Call>)
    ensures
        ({
            let r = reached(fresh(max), calls);
            &&& dynamic_table::list_size(r.table.fields) <= r.table.max
            &&& r.table.max <= r.setting
            &&& r.setting == last_limit(max, calls)
        }),
    decreases calls.len(),
{
    if calls.len() > 0 {
        law_readers_keep_their_limit(max, calls.drop_last());
        let r = reached(fresh(max), calls.drop_last());
        match calls.last() {
            Call::Limit(n) => {
                let nothing = FieldView { name: Seq::empty(), value: Seq::empty() };
                dynamic_table::law_table_keeps_its_limit(r.table, nothing, n as nat);
            },
            Call::ListLimit(limit) => {},
            Call::Block { bytes, out } => {
                lemma_block(start(r, out), bytes);
            },
            Call::Fragment { at, bytes } => {
                if at.table == r.table && at.setting == r.setting {
                    lemma_feed(at, bytes);
                }
            },
        }
    }
}

} // verus!
