//! Which lists of header fields make a request, a response or trailers.

use crate::bytes;
use crate::bytes::{equal, text_bytes};
use crate::h2::hpack;
use crate::h2::hpack::{FieldView, OwnedHeader};
use vstd::prelude::*;

verus! {

/// Whether the field is a pseudo-header.
pub open spec fn is_pseudo(f: FieldView) -> bool {
    f.name.len() > 0 && f.name[0] == 0x3a
}

/// Whether a name has an upper-case letter.
pub open spec fn has_upper(name: Seq<u8>) -> bool {
    exists|i: int| 0 <= i < name.len() && 0x41 <= #[trigger] name[i] <= 0x5a
}

/// Whether the field speaks of the connection and not of the message.
pub open spec fn is_connection_field(f: FieldView) -> bool {
    ||| f.name == bytes::text("connection")
    ||| f.name == bytes::text("keep-alive")
    ||| f.name == bytes::text("proxy-connection")
    ||| f.name == bytes::text("transfer-encoding")
    ||| f.name == bytes::text("upgrade")
    ||| f.name == bytes::text("te") && f.value != bytes::text("trailers")
}

/// The pseudo-headers that a message has once.
pub open spec fn is_single(name: Seq<u8>, request: bool) -> bool {
    if request {
        name == bytes::text(":method") || name == bytes::text(":scheme") || name == bytes::text(
            ":path",
        )
    } else {
        name == bytes::text(":status")
    }
}

/// Whether a field may stand in a message at all.
pub open spec fn field_allowed(f: FieldView, request: bool, trailing: bool) -> bool {
    if is_pseudo(f) {
        !trailing && (is_single(f.name, request) || (request && (f.name == bytes::text(":authority")
            || f.name == bytes::text(":protocol"))))
    } else {
        f.name.len() > 0 && !has_upper(f.name) && !is_connection_field(f)
    }
}

/// Whether fields may begin a message: each is allowed, pseudo-headers come before the
/// others, and those that a message has once do not come again.
pub open spec fn prefix_valid(list: Seq<FieldView>, request: bool, trailing: bool) -> bool {
    &&& forall|i: int| 0 <= i < list.len() ==> #[trigger] field_allowed(list[i], request, trailing)
    &&& forall|i: int, j: int|
        0 <= i < j < list.len() && #[trigger] is_pseudo(list[j]) ==> #[trigger] is_pseudo(list[i])
    &&& forall|i: int, j: int|
        #![trigger list[i], list[j]]
        0 <= i < j < list.len() && is_single(list[i].name, request) ==> list[i].name
            != list[j].name
}

/// Whether the list has a field of the name, with a value that is not empty.
pub open spec fn has_filled(list: Seq<FieldView>, name: Seq<u8>) -> bool {
    exists|i: int| 0 <= i < list.len() && (#[trigger] list[i]).name == name && list[i].value.len() > 0
}

/// Whether the list has a field of the name.
pub open spec fn has_name(list: Seq<FieldView>, name: Seq<u8>) -> bool {
    exists|i: int| 0 <= i < list.len() && (#[trigger] list[i]).name == name
}

/// Whether the fields are a whole message: a request has a method, a scheme and a path that
/// are not empty, a response has a status.
pub open spec fn list_valid(list: Seq<FieldView>, request: bool, trailing: bool) -> bool {
    &&& prefix_valid(list, request, trailing)
    &&& trailing || (if request {
        has_filled(list, bytes::text(":method")) && has_filled(list, bytes::text(":scheme"))
            && has_filled(list, bytes::text(":path"))
    } else {
        has_name(list, bytes::text(":status"))
    })
}

/// The names of the pseudo-headers that a message has once differ.
proof fn lemma_names()
    ensures
        bytes::text(":method") != bytes::text(":scheme"),
        bytes::text(":method") != bytes::text(":path"),
        bytes::text(":scheme") != bytes::text(":path"),
        bytes::text(":authority") != bytes::text(":method"),
        bytes::text(":authority") != bytes::text(":scheme"),
        bytes::text(":authority") != bytes::text(":path"),
        bytes::text(":protocol") != bytes::text(":method"),
        bytes::text(":protocol") != bytes::text(":scheme"),
        bytes::text(":protocol") != bytes::text(":path"),
        bytes::text(":method").len() > 0 && bytes::text(":method")[0] == 0x3a,
        bytes::text(":scheme").len() > 0 && bytes::text(":scheme")[0] == 0x3a,
        bytes::text(":path").len() > 0 && bytes::text(":path")[0] == 0x3a,
        bytes::text(":status").len() > 0 && bytes::text(":status")[0] == 0x3a,
{
    reveal_strlit(":method");
    reveal_strlit(":scheme");
    reveal_strlit(":path");
    reveal_strlit(":status");
    reveal_strlit(":authority");
    reveal_strlit(":protocol");
    bytes::lemma_text(":method");
    bytes::lemma_text(":scheme");
    bytes::lemma_text(":path");
    bytes::lemma_text(":status");
    bytes::lemma_text(":authority");
    bytes::lemma_text(":protocol");
    assert(bytes::text(":method")[1] == 0x6d);
    assert(bytes::text(":scheme")[1] == 0x73);
}

/// Whether the list has a field that is no pseudo-header.
spec fn has_regular(list: Seq<FieldView>) -> bool {
    exists|i: int| 0 <= i < list.len() && !#[trigger] is_pseudo(list[i])
}

/// What a field adds to the fields before it.
proof fn lemma_next(list: Seq<FieldView>, f: FieldView, request: bool, trailing: bool)
    ensures
        prefix_valid(list.push(f), request, trailing) == (prefix_valid(list, request, trailing)
            && field_allowed(f, request, trailing) && (is_pseudo(f) ==> !has_regular(list)) && (
        is_single(f.name, request) ==> !has_name(list, f.name))),
        has_regular(list.push(f)) == (has_regular(list) || !is_pseudo(f)),
{
    let next = list.push(f);
    let n = list.len() as int;
    assert(next[n] == f);
    assert forall|i: int| 0 <= i < n implies next[i] == list[i] by {}
    if prefix_valid(next, request, trailing) {
        assert forall|i: int| 0 <= i < n implies #[trigger] field_allowed(
            list[i],
            request,
            trailing,
        ) by {
            assert(field_allowed(next[i], request, trailing));
        }
        assert(field_allowed(next[n], request, trailing));
        assert forall|i: int, j: int| 0 <= i < j < n && #[trigger] is_pseudo(
            list[j],
        ) implies #[trigger] is_pseudo(list[i]) by {
            assert(is_pseudo(next[j]) ==> is_pseudo(next[i]));
        }
        if is_pseudo(f) {
            assert forall|i: int| 0 <= i < n implies #[trigger] is_pseudo(list[i]) by {
                assert(is_pseudo(next[n]) ==> is_pseudo(next[i]));
            }
        }
        assert forall|i: int, j: int|
            #![trigger list[i], list[j]]
            0 <= i < j < n && is_single(list[i].name, request) implies list[i].name
            != list[j].name by {
            assert(next[i].name != next[j].name);
        }
        if is_single(f.name, request) && has_name(list, f.name) {
            let i = choose|i: int| 0 <= i < n && (#[trigger] list[i]).name == f.name;
            assert(next[i].name != next[n].name);
        }
    }
    if has_regular(next) && is_pseudo(f) {
        let i = choose|i: int| 0 <= i < next.len() && !#[trigger] is_pseudo(next[i]);
        assert(!is_pseudo(list[i]));
    }
    if has_regular(list) {
        let i = choose|i: int| 0 <= i < n && !#[trigger] is_pseudo(list[i]);
        assert(!is_pseudo(next[i]));
    }
    if !is_pseudo(f) {
        assert(!is_pseudo(next[n]));
    }
}

/// One pseudo-header that a message has once: whether it came, and whether with a value.
#[derive(Copy, Clone, Debug)]
struct Single {
    seen: bool,
    filled: bool,
}

spec fn single_holds(s: Single, list: Seq<FieldView>, name: Seq<u8>) -> bool {
    s.seen == has_name(list, name) && s.filled == has_filled(list, name)
}

proof fn lemma_push(list: Seq<FieldView>, f: FieldView, name: Seq<u8>)
    ensures
        has_name(list.push(f), name) == (has_name(list, name) || f.name == name),
        has_filled(list.push(f), name) == (has_filled(list, name) || (f.name == name
            && f.value.len() > 0)),
{
    let next = list.push(f);
    if has_name(list, name) {
        let i = choose|i: int| 0 <= i < list.len() && (#[trigger] list[i]).name == name;
        assert(next[i].name == name);
    }
    if has_filled(list, name) {
        let i = choose|i: int|
            0 <= i < list.len() && (#[trigger] list[i]).name == name && list[i].value.len() > 0;
        assert(next[i].name == name);
    }
    assert(next[list.len() as int] == f);
    assert forall|i: int| 0 <= i < list.len() implies next[i] == list[i] by {}
}

/// Checks fields one after the other.
pub struct Validate {
    method: Single,
    scheme: Single,
    path: Single,
    status: Single,
    request: bool,
    saw_regular: bool,
    trailing: bool,
    invalid: bool,
    history: Ghost<Seq<FieldView>>,
}

impl Validate {
    /// The fields that were checked.
    pub closed spec fn fields(&self) -> Seq<FieldView> {
        self.history@
    }

    pub closed spec fn request(&self) -> bool {
        self.request
    }

    pub closed spec fn trailing(&self) -> bool {
        self.trailing
    }

    #[verifier::type_invariant]
    spec fn inv(self) -> bool {
        let list = self.history@;
        &&& self.invalid == !prefix_valid(list, self.request, self.trailing)
        &&& !self.invalid ==> {
            &&& self.request ==> single_holds(self.method, list, bytes::text(":method"))
            &&& self.request ==> single_holds(self.scheme, list, bytes::text(":scheme"))
            &&& self.request ==> single_holds(self.path, list, bytes::text(":path"))
            &&& !self.request ==> single_holds(self.status, list, bytes::text(":status"))
            &&& self.saw_regular == has_regular(list)
        }
    }

    pub fn new(request: bool, trailing: bool) -> (r: Self)
        ensures
            r.fields() == Seq::<FieldView>::empty(),
            r.request() == request,
            r.trailing() == trailing,
    {
        let none = Single { seen: false, filled: false };
        Validate {
            method: none,
            scheme: none,
            path: none,
            status: none,
            request,
            saw_regular: false,
            trailing,
            invalid: false,
            history: Ghost(Seq::empty()),
        }
    }

    /// Checks the next field: whether the fields so far may begin a message.
    pub fn field(&mut self, name: &[u8], value: &[u8]) -> (r: bool)
        ensures
            final(self).fields() == old(self).fields().push(
                FieldView { name: name@, value: value@ },
            ),
            final(self).request() == old(self).request(),
            final(self).trailing() == old(self).trailing(),
            r == prefix_valid(final(self).fields(), old(self).request(), old(self).trailing()),
    {
        proof {
            use_type_invariant(&*self);
        }
        let ghost f = FieldView { name: name@, value: value@ };
        let ghost list = self.history@;
        let ghost next = list.push(f);
        let mut method = self.method;
        let mut scheme = self.scheme;
        let mut path = self.path;
        let mut status = self.status;
        let mut saw_regular = self.saw_regular;
        let filled = value.len() > 0;
        proof {
            lemma_names();
            lemma_push(list, f, bytes::text(":method"));
            lemma_push(list, f, bytes::text(":scheme"));
            lemma_push(list, f, bytes::text(":path"));
            lemma_push(list, f, bytes::text(":status"));
            assert(next[list.len() as int] == f);
            assert forall|i: int| 0 <= i < list.len() implies next[i] == list[i] by {}
        }
        let mut valid = !self.invalid && name.len() > 0;
        if valid {
            if name[0] == 0x3a {
                assert(is_pseudo(f));
                if saw_regular || self.trailing {
                    valid = false;
                } else if self.request {
                    if equal(name, text_bytes(":method")) {
                        valid = !method.seen;
                        method = Single { seen: true, filled };
                    } else if equal(name, text_bytes(":scheme")) {
                        valid = !scheme.seen;
                        scheme = Single { seen: true, filled };
                    } else if equal(name, text_bytes(":path")) {
                        valid = !path.seen;
                        path = Single { seen: true, filled };
                    } else {
                        valid = equal(name, text_bytes(":authority")) || equal(
                            name,
                            text_bytes(":protocol"),
                        );
                    }
                } else {
                    valid = equal(name, text_bytes(":status")) && !status.seen;
                    status = Single { seen: true, filled };
                }
            } else {
                assert(!is_pseudo(f));
                valid = !Self::upper(name) && !Self::connection(name, value);
                saw_regular = true;
            }
        }
        proof {
            lemma_next(list, f, self.request, self.trailing);
        }
        *self = Validate {
            method,
            scheme,
            path,
            status,
            request: self.request,
            saw_regular,
            trailing: self.trailing,
            invalid: !valid,
            history: Ghost(next),
        };
        valid
    }

    /// Whether the fields are a whole message.
    pub fn finish(self) -> (r: bool)
        ensures
            r == list_valid(self.fields(), self.request(), self.trailing()),
    {
        proof {
            use_type_invariant(&self);
        }
        if self.invalid {
            return false;
        }
        if self.trailing {
            return true;
        }
        if self.request {
            self.method.filled && self.scheme.filled && self.path.filled
        } else {
            self.status.seen
        }
    }

    fn upper(name: &[u8]) -> (r: bool)
        ensures
            r == has_upper(name@),
    {
        let mut i: usize = 0;
        while i < name.len()
            invariant
                i <= name@.len(),
                forall|k: int| 0 <= k < i ==> !(0x41 <= #[trigger] name@[k] <= 0x5a),
            decreases name@.len() - i,
        {
            if 0x41 <= name[i] && name[i] <= 0x5a {
                assert(0x41 <= name@[i as int] <= 0x5a);
                return true;
            }
            i = i + 1;
        }
        false
    }

    fn connection(name: &[u8], value: &[u8]) -> (r: bool)
        ensures
            r == is_connection_field(FieldView { name: name@, value: value@ }),
    {
        equal(name, text_bytes("connection")) || equal(name, text_bytes("keep-alive")) || equal(
            name,
            text_bytes("proxy-connection"),
        ) || equal(name, text_bytes("transfer-encoding")) || equal(name, text_bytes("upgrade")) || (
        equal(name, text_bytes("te")) && !equal(value, text_bytes("trailers")))
    }
}

/// Whether a list of header fields is a request, a response or trailers.
pub fn valid_list(list: &Vec<OwnedHeader>, request: bool, trailing: bool) -> (r: bool)
    ensures
        r == list_valid(hpack::fields(list@), request, trailing),
{
    let mut check = Validate::new(request, trailing);
    let mut i: usize = 0;
    let ghost all = hpack::fields(list@);
    assert(all.subrange(0, 0) =~= Seq::empty());
    while i < list.len()
        invariant
            i <= list@.len(),
            all == hpack::fields(list@),
            check.fields() == all.subrange(0, i as int),
            check.request() == request,
            check.trailing() == trailing,
        decreases list@.len() - i,
    {
        let field = &list[i];
        let _ = check.field(field.name.as_slice(), field.value.as_slice());
        assert(all.subrange(0, i + 1) =~= all.subrange(0, i as int).push(all[i as int]));
        i = i + 1;
    }
    assert(all.subrange(0, all.len() as int) =~= all);
    check.finish()
}

} // verus!
