//! The format of blocks of header fields, as it is fixed for all who speak the protocol.

use crate::bytes;
use crate::h2::hpack::encoder;
use crate::h2::hpack::encoder::EncoderView;
use crate::h2::hpack::integer;
use crate::h2::hpack::machine;
use crate::h2::hpack::machine::Machine;
use crate::h2::hpack::static_table;
use crate::h2::hpack::{DecoderError, FieldView};
use vstd::prelude::*;

verus! {

/// A field with a name and a value that are texts.
pub open spec fn named(name: &str, value: &str) -> FieldView {
    FieldView { name: bytes::text(name), value: bytes::text(value) }
}

/// Whether a byte alone is a block with the one field, for every reader that has room for it
/// and for every writer that has no new limit to announce.
#[verifier::opaque]
pub open spec fn stands_for(m: Machine, e: EncoderView, byte: u8, f: FieldView) -> bool {
    &&& m.used + f.name.len() + f.value.len() + 32 <= m.cap <= usize::MAX ==> {
        &&& machine::block_at(m, seq![byte]) matches Ok(end) && end.out == m.out.push(f)
            && end.table == m.table && end.exceeded == m.exceeded
        &&& machine::feed(m, seq![byte]) matches Ok(end) && end.out == m.out.push(f)
            && end.table == m.table && end.phase is Representation
    }
    &&& e.pending is None ==> encoder::block_wire(e, seq![f]) == seq![byte]
}

#[verifier::rlimit(60)]
proof fn lemma_stands_for(m: Machine, e: EncoderView, i: int)
    requires
        m.phase is Representation,
        1 <= i <= 61,
    ensures
        stands_for(m, e, (0x80 + i) as u8, static_table::static_field(i)),
{
    reveal(stands_for);
    let byte = (0x80 + i) as u8;
    assert(byte as int % 128 == i);
    let f = static_table::static_field(i);
    let s = seq![byte];
    assert(integer::integer_at(s, 0x7f) == Ok::<(u64, int), DecoderError>((i as u64, 1)));
    let o = machine::opened(m, byte);
    assert(machine::field_at(m, s) == Ok::<(Machine, int), DecoderError>(
        (machine::emitted(o, f), 1),
    ));
    assert(s.subrange(1, 1) =~= Seq::<u8>::empty());
    assert(machine::block_at(m, s) == Ok::<Machine, (Machine, DecoderError)>(
        machine::emitted(o, f),
    )) by {
        reveal_with_fuel(machine::block_at, 2);
    }
    machine::lemma_feed_one(m, byte);
    assert(machine::step(m, byte) == Ok::<Machine, DecoderError>(machine::emitted(o, f)));
    static_table::law_static_fields_are_found(i);
    let list = seq![f];
    assert(list.drop_last() =~= Seq::<FieldView>::empty());
    assert(encoder::fields_wire(e.table, e.coded, list) =~= seq![byte]) by {
        reveal_with_fuel(encoder::fields_wire, 2);
        assert(encoder::fields_wire(e.table, e.coded, list.drop_last()) =~= Seq::<u8>::empty());
    }
    assert(Seq::<u8>::empty() + seq![byte] =~= seq![byte]);
}

#[verifier::spinoff_prover]
proof fn lemma_first_fields(m: Machine, e: EncoderView)
    requires
        m.phase is Representation,
    ensures
        stands_for(m, e, 0x81, named(":authority", "")),
        stands_for(m, e, 0x82, named(":method", "GET")),
        stands_for(m, e, 0x83, named(":method", "POST")),
        stands_for(m, e, 0x84, named(":path", "/")),
        stands_for(m, e, 0x85, named(":path", "/index.html")),
        stands_for(m, e, 0x86, named(":scheme", "http")),
        stands_for(m, e, 0x87, named(":scheme", "https")),
        stands_for(m, e, 0x88, named(":status", "200")),
        stands_for(m, e, 0x89, named(":status", "204")),
        stands_for(m, e, 0x8a, named(":status", "206")),
        stands_for(m, e, 0x8b, named(":status", "304")),
        stands_for(m, e, 0x8c, named(":status", "400")),
        stands_for(m, e, 0x8d, named(":status", "404")),
        stands_for(m, e, 0x8e, named(":status", "500")),
{
    lemma_stands_for(m, e, 1);
    lemma_stands_for(m, e, 2);
    lemma_stands_for(m, e, 3);
    lemma_stands_for(m, e, 4);
    lemma_stands_for(m, e, 5);
    lemma_stands_for(m, e, 6);
    lemma_stands_for(m, e, 7);
    lemma_stands_for(m, e, 8);
    lemma_stands_for(m, e, 9);
    lemma_stands_for(m, e, 10);
    lemma_stands_for(m, e, 11);
    lemma_stands_for(m, e, 12);
    lemma_stands_for(m, e, 13);
    lemma_stands_for(m, e, 14);
}

#[verifier::spinoff_prover]
proof fn lemma_second_fields(m: Machine, e: EncoderView)
    requires
        m.phase is Representation,
    ensures
        stands_for(m, e, 0x8f, named("accept-charset", "")),
        stands_for(m, e, 0x90, named("accept-encoding", "gzip, deflate")),
        stands_for(m, e, 0x91, named("accept-language", "")),
        stands_for(m, e, 0x92, named("accept-ranges", "")),
        stands_for(m, e, 0x93, named("accept", "")),
        stands_for(m, e, 0x94, named("access-control-allow-origin", "")),
        stands_for(m, e, 0x95, named("age", "")),
        stands_for(m, e, 0x96, named("allow", "")),
        stands_for(m, e, 0x97, named("authorization", "")),
        stands_for(m, e, 0x98, named("cache-control", "")),
        stands_for(m, e, 0x99, named("content-disposition", "")),
        stands_for(m, e, 0x9a, named("content-encoding", "")),
        stands_for(m, e, 0x9b, named("content-language", "")),
        stands_for(m, e, 0x9c, named("content-length", "")),
        stands_for(m, e, 0x9d, named("content-location", "")),
        stands_for(m, e, 0x9e, named("content-range", "")),
{
    lemma_stands_for(m, e, 15);
    lemma_stands_for(m, e, 16);
    lemma_stands_for(m, e, 17);
    lemma_stands_for(m, e, 18);
    lemma_stands_for(m, e, 19);
    lemma_stands_for(m, e, 20);
    lemma_stands_for(m, e, 21);
    lemma_stands_for(m, e, 22);
    lemma_stands_for(m, e, 23);
    lemma_stands_for(m, e, 24);
    lemma_stands_for(m, e, 25);
    lemma_stands_for(m, e, 26);
    lemma_stands_for(m, e, 27);
    lemma_stands_for(m, e, 28);
    lemma_stands_for(m, e, 29);
    lemma_stands_for(m, e, 30);
}

#[verifier::spinoff_prover]
proof fn lemma_third_fields(m: Machine, e: EncoderView)
    requires
        m.phase is Representation,
    ensures
        stands_for(m, e, 0x9f, named("content-type", "")),
        stands_for(m, e, 0xa0, named("cookie", "")),
        stands_for(m, e, 0xa1, named("date", "")),
        stands_for(m, e, 0xa2, named("etag", "")),
        stands_for(m, e, 0xa3, named("expect", "")),
        stands_for(m, e, 0xa4, named("expires", "")),
        stands_for(m, e, 0xa5, named("from", "")),
        stands_for(m, e, 0xa6, named("host", "")),
        stands_for(m, e, 0xa7, named("if-match", "")),
        stands_for(m, e, 0xa8, named("if-modified-since", "")),
        stands_for(m, e, 0xa9, named("if-none-match", "")),
        stands_for(m, e, 0xaa, named("if-range", "")),
        stands_for(m, e, 0xab, named("if-unmodified-since", "")),
        stands_for(m, e, 0xac, named("last-modified", "")),
        stands_for(m, e, 0xad, named("link", "")),
        stands_for(m, e, 0xae, named("location", "")),
{
    lemma_stands_for(m, e, 31);
    lemma_stands_for(m, e, 32);
    lemma_stands_for(m, e, 33);
    lemma_stands_for(m, e, 34);
    lemma_stands_for(m, e, 35);
    lemma_stands_for(m, e, 36);
    lemma_stands_for(m, e, 37);
    lemma_stands_for(m, e, 38);
    lemma_stands_for(m, e, 39);
    lemma_stands_for(m, e, 40);
    lemma_stands_for(m, e, 41);
    lemma_stands_for(m, e, 42);
    lemma_stands_for(m, e, 43);
    lemma_stands_for(m, e, 44);
    lemma_stands_for(m, e, 45);
    lemma_stands_for(m, e, 46);
}

#[verifier::spinoff_prover]
proof fn lemma_last_fields(m: Machine, e: EncoderView)
    requires
        m.phase is Representation,
    ensures
        stands_for(m, e, 0xaf, named("max-forwards", "")),
        stands_for(m, e, 0xb0, named("proxy-authenticate", "")),
        stands_for(m, e, 0xb1, named("proxy-authorization", "")),
        stands_for(m, e, 0xb2, named("range", "")),
        stands_for(m, e, 0xb3, named("referer", "")),
        stands_for(m, e, 0xb4, named("refresh", "")),
        stands_for(m, e, 0xb5, named("retry-after", "")),
        stands_for(m, e, 0xb6, named("server", "")),
        stands_for(m, e, 0xb7, named("set-cookie", "")),
        stands_for(m, e, 0xb8, named("strict-transport-security", "")),
        stands_for(m, e, 0xb9, named("transfer-encoding", "")),
        stands_for(m, e, 0xba, named("user-agent", "")),
        stands_for(m, e, 0xbb, named("vary", "")),
        stands_for(m, e, 0xbc, named("via", "")),
        stands_for(m, e, 0xbd, named("www-authenticate", "")),
{
    lemma_stands_for(m, e, 47);
    lemma_stands_for(m, e, 48);
    lemma_stands_for(m, e, 49);
    lemma_stands_for(m, e, 50);
    lemma_stands_for(m, e, 51);
    lemma_stands_for(m, e, 52);
    lemma_stands_for(m, e, 53);
    lemma_stands_for(m, e, 54);
    lemma_stands_for(m, e, 55);
    lemma_stands_for(m, e, 56);
    lemma_stands_for(m, e, 57);
    lemma_stands_for(m, e, 58);
    lemma_stands_for(m, e, 59);
    lemma_stands_for(m, e, 60);
    lemma_stands_for(m, e, 61);
}

/// The fields that need no table: each of the bytes from 0x81 on stands for one of them, to the
/// reader and to the writer.
pub proof fn law_predefined_fields_have_their_bytes(m: Machine, e: EncoderView)
    requires
        m.phase is Representation,
    ensures
        stands_for(m, e, 0x81, named(":authority", "")),
        stands_for(m, e, 0x82, named(":method", "GET")),
        stands_for(m, e, 0x83, named(":method", "POST")),
        stands_for(m, e, 0x84, named(":path", "/")),
        stands_for(m, e, 0x85, named(":path", "/index.html")),
        stands_for(m, e, 0x86, named(":scheme", "http")),
        stands_for(m, e, 0x87, named(":scheme", "https")),
        stands_for(m, e, 0x88, named(":status", "200")),
        stands_for(m, e, 0x89, named(":status", "204")),
        stands_for(m, e, 0x8a, named(":status", "206")),
        stands_for(m, e, 0x8b, named(":status", "304")),
        stands_for(m, e, 0x8c, named(":status", "400")),
        stands_for(m, e, 0x8d, named(":status", "404")),
        stands_for(m, e, 0x8e, named(":status", "500")),
        stands_for(m, e, 0x8f, named("accept-charset", "")),
        stands_for(m, e, 0x90, named("accept-encoding", "gzip, deflate")),
        stands_for(m, e, 0x91, named("accept-language", "")),
        stands_for(m, e, 0x92, named("accept-ranges", "")),
        stands_for(m, e, 0x93, named("accept", "")),
        stands_for(m, e, 0x94, named("access-control-allow-origin", "")),
        stands_for(m, e, 0x95, named("age", "")),
        stands_for(m, e, 0x96, named("allow", "")),
        stands_for(m, e, 0x97, named("authorization", "")),
        stands_for(m, e, 0x98, named("cache-control", "")),
        stands_for(m, e, 0x99, named("content-disposition", "")),
        stands_for(m, e, 0x9a, named("content-encoding", "")),
        stands_for(m, e, 0x9b, named("content-language", "")),
        stands_for(m, e, 0x9c, named("content-length", "")),
        stands_for(m, e, 0x9d, named("content-location", "")),
        stands_for(m, e, 0x9e, named("content-range", "")),
        stands_for(m, e, 0x9f, named("content-type", "")),
        stands_for(m, e, 0xa0, named("cookie", "")),
        stands_for(m, e, 0xa1, named("date", "")),
        stands_for(m, e, 0xa2, named("etag", "")),
        stands_for(m, e, 0xa3, named("expect", "")),
        stands_for(m, e, 0xa4, named("expires", "")),
        stands_for(m, e, 0xa5, named("from", "")),
        stands_for(m, e, 0xa6, named("host", "")),
        stands_for(m, e, 0xa7, named("if-match", "")),
        stands_for(m, e, 0xa8, named("if-modified-since", "")),
        stands_for(m, e, 0xa9, named("if-none-match", "")),
        stands_for(m, e, 0xaa, named("if-range", "")),
        stands_for(m, e, 0xab, named("if-unmodified-since", "")),
        stands_for(m, e, 0xac, named("last-modified", "")),
        stands_for(m, e, 0xad, named("link", "")),
        stands_for(m, e, 0xae, named("location", "")),
        stands_for(m, e, 0xaf, named("max-forwards", "")),
        stands_for(m, e, 0xb0, named("proxy-authenticate", "")),
        stands_for(m, e, 0xb1, named("proxy-authorization", "")),
        stands_for(m, e, 0xb2, named("range", "")),
        stands_for(m, e, 0xb3, named("referer", "")),
        stands_for(m, e, 0xb4, named("refresh", "")),
        stands_for(m, e, 0xb5, named("retry-after", "")),
        stands_for(m, e, 0xb6, named("server", "")),
        stands_for(m, e, 0xb7, named("set-cookie", "")),
        stands_for(m, e, 0xb8, named("strict-transport-security", "")),
        stands_for(m, e, 0xb9, named("transfer-encoding", "")),
        stands_for(m, e, 0xba, named("user-agent", "")),
        stands_for(m, e, 0xbb, named("vary", "")),
        stands_for(m, e, 0xbc, named("via", "")),
        stands_for(m, e, 0xbd, named("www-authenticate", "")),
{
    lemma_first_fields(m, e);
    lemma_second_fields(m, e);
    lemma_third_fields(m, e);
    lemma_last_fields(m, e);
}

} // verus!
