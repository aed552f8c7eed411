//! The predefined header fields.

use crate::bytes;
use crate::bytes::{equal, text_bytes};
use crate::h2::hpack::FieldView;
use vstd::prelude::*;

verus! {

/// The name of the predefined field `i`, counted from one.
pub open spec fn static_name(i: int) -> Seq<u8> {
    if i == 1 {
        bytes::text(":authority")
    } else if i == 2 {
        bytes::text(":method")
    } else if i == 3 {
        bytes::text(":method")
    } else if i == 4 {
        bytes::text(":path")
    } else if i == 5 {
        bytes::text(":path")
    } else if i == 6 {
        bytes::text(":scheme")
    } else if i == 7 {
        bytes::text(":scheme")
    } else if i == 8 {
        bytes::text(":status")
    } else if i == 9 {
        bytes::text(":status")
    } else if i == 10 {
        bytes::text(":status")
    } else if i == 11 {
        bytes::text(":status")
    } else if i == 12 {
        bytes::text(":status")
    } else if i == 13 {
        bytes::text(":status")
    } else if i == 14 {
        bytes::text(":status")
    } else if i == 15 {
        bytes::text("accept-charset")
    } else if i == 16 {
        bytes::text("accept-encoding")
    } else if i == 17 {
        bytes::text("accept-language")
    } else if i == 18 {
        bytes::text("accept-ranges")
    } else if i == 19 {
        bytes::text("accept")
    } else if i == 20 {
        bytes::text("access-control-allow-origin")
    } else if i == 21 {
        bytes::text("age")
    } else if i == 22 {
        bytes::text("allow")
    } else if i == 23 {
        bytes::text("authorization")
    } else if i == 24 {
        bytes::text("cache-control")
    } else if i == 25 {
        bytes::text("content-disposition")
    } else if i == 26 {
        bytes::text("content-encoding")
    } else if i == 27 {
        bytes::text("content-language")
    } else if i == 28 {
        bytes::text("content-length")
    } else if i == 29 {
        bytes::text("content-location")
    } else if i == 30 {
        bytes::text("content-range")
    } else if i == 31 {
        bytes::text("content-type")
    } else if i == 32 {
        bytes::text("cookie")
    } else if i == 33 {
        bytes::text("date")
    } else if i == 34 {
        bytes::text("etag")
    } else if i == 35 {
        bytes::text("expect")
    } else if i == 36 {
        bytes::text("expires")
    } else if i == 37 {
        bytes::text("from")
    } else if i == 38 {
        bytes::text("host")
    } else if i == 39 {
        bytes::text("if-match")
    } else if i == 40 {
        bytes::text("if-modified-since")
    } else if i == 41 {
        bytes::text("if-none-match")
    } else if i == 42 {
        bytes::text("if-range")
    } else if i == 43 {
        bytes::text("if-unmodified-since")
    } else if i == 44 {
        bytes::text("last-modified")
    } else if i == 45 {
        bytes::text("link")
    } else if i == 46 {
        bytes::text("location")
    } else if i == 47 {
        bytes::text("max-forwards")
    } else if i == 48 {
        bytes::text("proxy-authenticate")
    } else if i == 49 {
        bytes::text("proxy-authorization")
    } else if i == 50 {
        bytes::text("range")
    } else if i == 51 {
        bytes::text("referer")
    } else if i == 52 {
        bytes::text("refresh")
    } else if i == 53 {
        bytes::text("retry-after")
    } else if i == 54 {
        bytes::text("server")
    } else if i == 55 {
        bytes::text("set-cookie")
    } else if i == 56 {
        bytes::text("strict-transport-security")
    } else if i == 57 {
        bytes::text("transfer-encoding")
    } else if i == 58 {
        bytes::text("user-agent")
    } else if i == 59 {
        bytes::text("vary")
    } else if i == 60 {
        bytes::text("via")
    } else if i == 61 {
        bytes::text("www-authenticate")
    } else {
        Seq::empty()
    }
}

/// The value of the predefined field `i`, counted from one.
pub open spec fn static_value(i: int) -> Seq<u8> {
    if i == 2 {
        bytes::text("GET")
    } else if i == 3 {
        bytes::text("POST")
    } else if i == 4 {
        bytes::text("/")
    } else if i == 5 {
        bytes::text("/index.html")
    } else if i == 6 {
        bytes::text("http")
    } else if i == 7 {
        bytes::text("https")
    } else if i == 8 {
        bytes::text("200")
    } else if i == 9 {
        bytes::text("204")
    } else if i == 10 {
        bytes::text("206")
    } else if i == 11 {
        bytes::text("304")
    } else if i == 12 {
        bytes::text("400")
    } else if i == 13 {
        bytes::text("404")
    } else if i == 14 {
        bytes::text("500")
    } else if i == 16 {
        bytes::text("gzip, deflate")
    } else {
        bytes::text("")
    }
}

/// The predefined field `i`, counted from one.
pub open spec fn static_field(i: int) -> FieldView {
    FieldView { name: static_name(i), value: static_value(i) }
}

pub struct StaticTable;

/// Where a field is found among the predefined ones: the place of the whole field, if it is
/// there, and the first place of its name.
#[derive(Copy, Clone, Debug, PartialEq, Eq)]
pub struct StaticMatch {
    pub exact: Option<usize>,
    pub name: usize,
}

/// The first place among the first `n` that holds the field `f`.
pub open spec fn static_exact(f: FieldView, n: int) -> Option<int>
    decreases n,
{
    if n <= 0 {
        None
    } else if static_exact(f, n - 1) is Some {
        static_exact(f, n - 1)
    } else if static_field(n) == f {
        Some(n)
    } else {
        None
    }
}

/// The first place among the first `n` that holds the name `name`.
pub open spec fn static_first(name: Seq<u8>, n: int) -> Option<int>
    decreases n,
{
    if n <= 0 {
        None
    } else if static_first(name, n - 1) is Some {
        static_first(name, n - 1)
    } else if static_name(n) == name {
        Some(n)
    } else {
        None
    }
}

pub proof fn lemma_static_exact(f: FieldView, n: int)
    requires
        0 <= n,
    ensures
        static_exact(f, n) matches Some(i) ==> 1 <= i <= n && static_field(i) == f,
        static_exact(f, n) is None ==> forall|i: int|
            1 <= i <= n ==> #[trigger] static_field(i) != f,
    decreases n,
{
    if n > 0 {
        lemma_static_exact(f, n - 1);
    }
}

pub proof fn lemma_static_first(name: Seq<u8>, n: int)
    requires
        0 <= n,
    ensures
        static_first(name, n) matches Some(i) ==> 1 <= i <= n && static_name(i) == name,
        static_first(name, n) is None ==> forall|i: int|
            1 <= i <= n ==> #[trigger] static_name(i) != name,
    decreases n,
{
    if n > 0 {
        lemma_static_first(name, n - 1);
    }
}

/// A number that tells the predefined fields apart: it is made of the lengths, the first and the
/// last bytes of name and value.
spec fn mark(f: FieldView) -> int {
    let n = f.name;
    let v = f.value;
    let name = (n.len() * 256 + n[0]) * 256 + n[n.len() - 1];
    let value = if v.len() == 0 {
        0
    } else {
        (v.len() * 256 + v[0]) * 256 + v[v.len() - 1]
    };
    name * 0x100_0000 + value
}

/// The predefined field that has a mark.
spec fn marked(m: int) -> int {
    if m == 11246254424064 {
        1
    } else if m == 7947367434068 {
        2
    } else if m == 7947367501908 {
        3
    } else if m == 5748411150127 {
        4
    } else if m == 5748411805548 {
        5
    } else if m == 7947384285296 {
        6
    } else if m == 7947384350835 {
        7
    } else if m == 7947619086896 {
        8
    } else if m == 7947619086900 {
        9
    } else if m == 7947619086902 {
        10
    } else if m == 7947619087156 {
        11
    } else if m == 7947619087408 {
        12
    } else if m == 7947619087412 {
        13
    } else if m == 7947619087664 {
        14
    } else if m == 15811720773632 {
        15
    } else if m == 16911015176037 {
        16
    } else if m == 16910980743168 {
        17
    } else if m == 14712192368640 {
        18
    } else if m == 7015627751424 {
        19
    } else if m == 30105271271424 {
        20
    } else if m == 3716841209856 {
        21
    } else if m == 5916166455296 {
        22
    } else if m == 14712108482560 {
        23
    } else if m == 14720664862720 {
        24
    } else if m == 21317768183808 {
        25
    } else if m == 18019115859968 {
        26
    } else if m == 18019082305536 {
        27
    } else if m == 15820109381632 {
        28
    } else if m == 18019233300480 {
        29
    } else if m == 14720547422208 {
        30
    } else if m == 13621035794432 {
        31
    } else if m == 7023966027776 {
        32
    } else if m == 4829237739520 {
        33
    } else if m == 4833566261248 {
        34
    } else if m == 7032807620608 {
        35
    } else if m == 8132302471168 {
        36
    } else if m == 4837961891840 {
        37
    } else if m == 4846669266944 {
        38
    } else if m == 9248809418752 {
        39
    } else if m == 19144363737088 {
        40
    } else if m == 14746367557632 {
        41
    } else if m == 9248759087104 {
        42
    } else if m == 21343386992640 {
        43
    } else if m == 14759185350656 {
        44
    } else if m == 4863698141184 {
        45
    } else if m == 9261794983936 {
        46
    } else if m == 13664220348416 {
        47
    } else if m == 20273940135936 {
        48
    } else if m == 21373602758656 {
        49
    } else if m == 5988878909440 {
        50
    } else if m == 8188120268800 {
        51
    } else if m == 8187952496640 {
        52
    } else if m == 12586166779904 {
        53
    } else if m == 7092903608320 {
        54
    } else if m == 11490732015616 {
        55
    } else if m == 27983741976576 {
        56
    } else if m == 19191641931776 {
        57
    } else if m == 11499573608448 {
        58
    } else if m == 4906882695168 {
        59
    } else if m == 3806968414208 {
        60
    } else if m == 18104981651456 {
        61
    } else {
        0
    }
}

proof fn lemma_mark(name: &str, value: &str)
    requires
        name@.len() > 0,
        vstd::utf8::is_ascii_chars(name@),
        vstd::utf8::is_ascii_chars(value@),
    ensures
        mark(FieldView { name: bytes::text(name), value: bytes::text(value) }) == ((name@.len() * 256
            + name@[0] as int) * 256 + name@[name@.len() - 1] as int) * 0x100_0000 + (
        if value@.len() == 0 {
            0
        } else {
            (value@.len() * 256 + value@[0] as int) * 256 + value@[value@.len() - 1] as int
        }),
{
    bytes::lemma_text(name);
    bytes::lemma_text(value);
}

#[verifier::spinoff_prover]
proof fn lemma_marked_from_1(i: int)
    requires
        1 <= i <= 8,
    ensures
        marked(mark(static_field(i))) == i,
{
    if i == 1 {
        reveal_strlit(":authority");
        reveal_strlit("");
        lemma_mark(":authority", "");
    } else if i == 2 {
        reveal_strlit(":method");
        reveal_strlit("GET");
        lemma_mark(":method", "GET");
    } else if i == 3 {
        reveal_strlit(":method");
        reveal_strlit("POST");
        lemma_mark(":method", "POST");
    } else if i == 4 {
        reveal_strlit(":path");
        reveal_strlit("/");
        lemma_mark(":path", "/");
    } else if i == 5 {
        reveal_strlit(":path");
        reveal_strlit("/index.html");
        lemma_mark(":path", "/index.html");
    } else if i == 6 {
        reveal_strlit(":scheme");
        reveal_strlit("http");
        lemma_mark(":scheme", "http");
    } else if i == 7 {
        reveal_strlit(":scheme");
        reveal_strlit("https");
        lemma_mark(":scheme", "https");
    } else {
        reveal_strlit(":status");
        reveal_strlit("200");
        lemma_mark(":status", "200");
    }
}

#[verifier::spinoff_prover]
proof fn lemma_marked_from_9(i: int)
    requires
        9 <= i <= 16,
    ensures
        marked(mark(static_field(i))) == i,
{
    if i == 9 {
        reveal_strlit(":status");
        reveal_strlit("204");
        lemma_mark(":status", "204");
    } else if i == 10 {
        reveal_strlit(":status");
        reveal_strlit("206");
        lemma_mark(":status", "206");
    } else if i == 11 {
        reveal_strlit(":status");
        reveal_strlit("304");
        lemma_mark(":status", "304");
    } else if i == 12 {
        reveal_strlit(":status");
        reveal_strlit("400");
        lemma_mark(":status", "400");
    } else if i == 13 {
        reveal_strlit(":status");
        reveal_strlit("404");
        lemma_mark(":status", "404");
    } else if i == 14 {
        reveal_strlit(":status");
        reveal_strlit("500");
        lemma_mark(":status", "500");
    } else if i == 15 {
        reveal_strlit("accept-charset");
        reveal_strlit("");
        lemma_mark("accept-charset", "");
    } else {
        reveal_strlit("accept-encoding");
        reveal_strlit("gzip, deflate");
        lemma_mark("accept-encoding", "gzip, deflate");
    }
}

#[verifier::spinoff_prover]
proof fn lemma_marked_from_17(i: int)
    requires
        17 <= i <= 24,
    ensures
        marked(mark(static_field(i))) == i,
{
    if i == 17 {
        reveal_strlit("accept-language");
        reveal_strlit("");
        lemma_mark("accept-language", "");
    } else if i == 18 {
        reveal_strlit("accept-ranges");
        reveal_strlit("");
        lemma_mark("accept-ranges", "");
    } else if i == 19 {
        reveal_strlit("accept");
        reveal_strlit("");
        lemma_mark("accept", "");
    } else if i == 20 {
        reveal_strlit("access-control-allow-origin");
        reveal_strlit("");
        lemma_mark("access-control-allow-origin", "");
    } else if i == 21 {
        reveal_strlit("age");
        reveal_strlit("");
        lemma_mark("age", "");
    } else if i == 22 {
        reveal_strlit("allow");
        reveal_strlit("");
        lemma_mark("allow", "");
    } else if i == 23 {
        reveal_strlit("authorization");
        reveal_strlit("");
        lemma_mark("authorization", "");
    } else {
        reveal_strlit("cache-control");
        reveal_strlit("");
        lemma_mark("cache-control", "");
    }
}

#[verifier::spinoff_prover]
proof fn lemma_marked_from_25(i: int)
    requires
        25 <= i <= 32,
    ensures
        marked(mark(static_field(i))) == i,
{
    if i == 25 {
        reveal_strlit("content-disposition");
        reveal_strlit("");
        lemma_mark("content-disposition", "");
    } else if i == 26 {
        reveal_strlit("content-encoding");
        reveal_strlit("");
        lemma_mark("content-encoding", "");
    } else if i == 27 {
        reveal_strlit("content-language");
        reveal_strlit("");
        lemma_mark("content-language", "");
    } else if i == 28 {
        reveal_strlit("content-length");
        reveal_strlit("");
        lemma_mark("content-length", "");
    } else if i == 29 {
        reveal_strlit("content-location");
        reveal_strlit("");
        lemma_mark("content-location", "");
    } else if i == 30 {
        reveal_strlit("content-range");
        reveal_strlit("");
        lemma_mark("content-range", "");
    } else if i == 31 {
        reveal_strlit("content-type");
        reveal_strlit("");
        lemma_mark("content-type", "");
    } else {
        reveal_strlit("cookie");
        reveal_strlit("");
        lemma_mark("cookie", "");
    }
}

#[verifier::spinoff_prover]
proof fn lemma_marked_from_33(i: int)
    requires
        33 <= i <= 40,
    ensures
        marked(mark(static_field(i))) == i,
{
    if i == 33 {
        reveal_strlit("date");
        reveal_strlit("");
        lemma_mark("date", "");
    } else if i == 34 {
        reveal_strlit("etag");
        reveal_strlit("");
        lemma_mark("etag", "");
    } else if i == 35 {
        reveal_strlit("expect");
        reveal_strlit("");
        lemma_mark("expect", "");
    } else if i == 36 {
        reveal_strlit("expires");
        reveal_strlit("");
        lemma_mark("expires", "");
    } else if i == 37 {
        reveal_strlit("from");
        reveal_strlit("");
        lemma_mark("from", "");
    } else if i == 38 {
        reveal_strlit("host");
        reveal_strlit("");
        lemma_mark("host", "");
    } else if i == 39 {
        reveal_strlit("if-match");
        reveal_strlit("");
        lemma_mark("if-match", "");
    } else {
        reveal_strlit("if-modified-since");
        reveal_strlit("");
        lemma_mark("if-modified-since", "");
    }
}

#[verifier::spinoff_prover]
proof fn lemma_marked_from_41(i: int)
    requires
        41 <= i <= 48,
    ensures
        marked(mark(static_field(i))) == i,
{
    if i == 41 {
        reveal_strlit("if-none-match");
        reveal_strlit("");
        lemma_mark("if-none-match", "");
    } else if i == 42 {
        reveal_strlit("if-range");
        reveal_strlit("");
        lemma_mark("if-range", "");
    } else if i == 43 {
        reveal_strlit("if-unmodified-since");
        reveal_strlit("");
        lemma_mark("if-unmodified-since", "");
    } else if i == 44 {
        reveal_strlit("last-modified");
        reveal_strlit("");
        lemma_mark("last-modified", "");
    } else if i == 45 {
        reveal_strlit("link");
        reveal_strlit("");
        lemma_mark("link", "");
    } else if i == 46 {
        reveal_strlit("location");
        reveal_strlit("");
        lemma_mark("location", "");
    } else if i == 47 {
        reveal_strlit("max-forwards");
        reveal_strlit("");
        lemma_mark("max-forwards", "");
    } else {
        reveal_strlit("proxy-authenticate");
        reveal_strlit("");
        lemma_mark("proxy-authenticate", "");
    }
}

#[verifier::spinoff_prover]
proof fn lemma_marked_from_49(i: int)
    requires
        49 <= i <= 56,
    ensures
        marked(mark(static_field(i))) == i,
{
    if i == 49 {
        reveal_strlit("proxy-authorization");
        reveal_strlit("");
        lemma_mark("proxy-authorization", "");
    } else if i == 50 {
        reveal_strlit("range");
        reveal_strlit("");
        lemma_mark("range", "");
    } else if i == 51 {
        reveal_strlit("referer");
        reveal_strlit("");
        lemma_mark("referer", "");
    } else if i == 52 {
        reveal_strlit("refresh");
        reveal_strlit("");
        lemma_mark("refresh", "");
    } else if i == 53 {
        reveal_strlit("retry-after");
        reveal_strlit("");
        lemma_mark("retry-after", "");
    } else if i == 54 {
        reveal_strlit("server");
        reveal_strlit("");
        lemma_mark("server", "");
    } else if i == 55 {
        reveal_strlit("set-cookie");
        reveal_strlit("");
        lemma_mark("set-cookie", "");
    } else {
        reveal_strlit("strict-transport-security");
        reveal_strlit("");
        lemma_mark("strict-transport-security", "");
    }
}

#[verifier::spinoff_prover]
proof fn lemma_marked_from_57(i: int)
    requires
        57 <= i <= 61,
    ensures
        marked(mark(static_field(i))) == i,
{
    if i == 57 {
        reveal_strlit("transfer-encoding");
        reveal_strlit("");
        lemma_mark("transfer-encoding", "");
    } else if i == 58 {
        reveal_strlit("user-agent");
        reveal_strlit("");
        lemma_mark("user-agent", "");
    } else if i == 59 {
        reveal_strlit("vary");
        reveal_strlit("");
        lemma_mark("vary", "");
    } else if i == 60 {
        reveal_strlit("via");
        reveal_strlit("");
        lemma_mark("via", "");
    } else {
        reveal_strlit("www-authenticate");
        reveal_strlit("");
        lemma_mark("www-authenticate", "");
    }
}

proof fn lemma_marked(i: int)
    requires
        1 <= i <= StaticTable::LEN,
    ensures
        marked(mark(static_field(i))) == i,
{
    if i <= 8 {
        lemma_marked_from_1(i);
    } else if i <= 16 {
        lemma_marked_from_9(i);
    } else if i <= 24 {
        lemma_marked_from_17(i);
    } else if i <= 32 {
        lemma_marked_from_25(i);
    } else if i <= 40 {
        lemma_marked_from_33(i);
    } else if i <= 48 {
        lemma_marked_from_41(i);
    } else if i <= 56 {
        lemma_marked_from_49(i);
    } else {
        lemma_marked_from_57(i);
    }
}

/// Looking up a predefined field finds it at its own place: no two of them are the same.
pub proof fn law_static_fields_are_found(i: int)
    requires
        1 <= i <= StaticTable::LEN,
    ensures
        static_exact(static_field(i), StaticTable::LEN as int) == Some(i),
{
    lemma_static_exact(static_field(i), StaticTable::LEN as int);
    lemma_marked(i);
    if let Some(j) = static_exact(static_field(i), StaticTable::LEN as int) {
        lemma_marked(j);
    }
}

impl StaticTable {
    pub const LEN: usize = 61;

    /// The predefined field `index`, counted from one.
    pub fn get(index: usize) -> (r: Option<(&'static [u8], &'static [u8])>)
        ensures
            r is Some <==> 1 <= index <= Self::LEN,
            r matches Some((name, value)) ==> name@ == static_name(index as int) && value@
                == static_value(index as int),
    {
        let (name, value): (&'static str, &'static str) = match index {
            1 => (":authority", ""),
            2 => (":method", "GET"),
            3 => (":method", "POST"),
            4 => (":path", "/"),
            5 => (":path", "/index.html"),
            6 => (":scheme", "http"),
            7 => (":scheme", "https"),
            8 => (":status", "200"),
            9 => (":status", "204"),
            10 => (":status", "206"),
            11 => (":status", "304"),
            12 => (":status", "400"),
            13 => (":status", "404"),
            14 => (":status", "500"),
            15 => ("accept-charset", ""),
            16 => ("accept-encoding", "gzip, deflate"),
            17 => ("accept-language", ""),
            18 => ("accept-ranges", ""),
            19 => ("accept", ""),
            20 => ("access-control-allow-origin", ""),
            21 => ("age", ""),
            22 => ("allow", ""),
            23 => ("authorization", ""),
            24 => ("cache-control", ""),
            25 => ("content-disposition", ""),
            26 => ("content-encoding", ""),
            27 => ("content-language", ""),
            28 => ("content-length", ""),
            29 => ("content-location", ""),
            30 => ("content-range", ""),
            31 => ("content-type", ""),
            32 => ("cookie", ""),
            33 => ("date", ""),
            34 => ("etag", ""),
            35 => ("expect", ""),
            36 => ("expires", ""),
            37 => ("from", ""),
            38 => ("host", ""),
            39 => ("if-match", ""),
            40 => ("if-modified-since", ""),
            41 => ("if-none-match", ""),
            42 => ("if-range", ""),
            43 => ("if-unmodified-since", ""),
            44 => ("last-modified", ""),
            45 => ("link", ""),
            46 => ("location", ""),
            47 => ("max-forwards", ""),
            48 => ("proxy-authenticate", ""),
            49 => ("proxy-authorization", ""),
            50 => ("range", ""),
            51 => ("referer", ""),
            52 => ("refresh", ""),
            53 => ("retry-after", ""),
            54 => ("server", ""),
            55 => ("set-cookie", ""),
            56 => ("strict-transport-security", ""),
            57 => ("transfer-encoding", ""),
            58 => ("user-agent", ""),
            59 => ("vary", ""),
            60 => ("via", ""),
            61 => ("www-authenticate", ""),
            _ => return None,
        };
        Some((text_bytes(name), text_bytes(value)))
    }

    /// Looks a field up. `None` when not even its name is there.
    pub fn lookup(name: &[u8], value: &[u8]) -> (r: Option<StaticMatch>)
        ensures
            match r {
                None => static_first(name@, Self::LEN as int) is None && static_exact(
                    FieldView { name: name@, value: value@ },
                    Self::LEN as int,
                ) is None,
                Some(found) => static_first(name@, Self::LEN as int) == Some(found.name as int)
                    && static_exact(FieldView { name: name@, value: value@ }, Self::LEN as int)
                    == (match found.exact {
                    Some(i) => Some(i as int),
                    None => None,
                }) && 1 <= found.name <= Self::LEN && (found.exact matches Some(i) ==> 1 <= i
                    <= Self::LEN),
            },
    {
        let ghost f = FieldView { name: name@, value: value@ };
        let mut exact: Option<usize> = None;
        let mut first: Option<usize> = None;
        let mut i: usize = 1;
        while i <= Self::LEN
            invariant
                1 <= i <= Self::LEN + 1,
                f == (FieldView { name: name@, value: value@ }),
                static_first(name@, i - 1) == (match first {
                    Some(k) => Some(k as int),
                    None => None,
                }),
                static_exact(f, i - 1) == (match exact {
                    Some(k) => Some(k as int),
                    None => None,
                }),
                first is None ==> exact is None,
                first matches Some(k) ==> 1 <= k <= Self::LEN,
                exact matches Some(k) ==> 1 <= k <= Self::LEN,
            decreases Self::LEN + 1 - i,
        {
            if let Some((entry_name, entry_value)) = Self::get(i) {
                let same_name = equal(entry_name, name);
                let same_value = equal(entry_value, value);
                if same_name {
                    if first.is_none() {
                        first = Some(i);
                    }
                    if same_value && exact.is_none() {
                        exact = Some(i);
                    }
                }
            }
            i = i + 1;
        }
        match first {
            None => None,
            Some(name) => Some(StaticMatch { exact, name }),
        }
    }
}

} // verus!
