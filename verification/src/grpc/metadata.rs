//! The fields that go with a call.

use crate::bytes;
use crate::h2::hpack::FieldView;
use vstd::prelude::*;

verus! {

#[derive(Clone, Debug, PartialEq, Eq)]
pub struct MetadataEntry {
    pub name: Vec<u8>,
    pub value: Vec<u8>,
}

impl MetadataEntry {
    pub open spec fn view(&self) -> FieldView {
        FieldView { name: self.name@, value: self.value@ }
    }
}

#[derive(Copy, Clone, Debug, PartialEq, Eq, Structural)]
pub enum MetadataError {
    EmptyName,
    UppercaseName,
    ConnectionHeader,
    BadBinaryName,
}

/// A name that belongs to the connection.
pub open spec fn is_connection_name(name: Seq<u8>) -> bool {
    name == bytes::text("connection") || name == bytes::text("keep-alive") || name == bytes::text(
        "proxy-connection",
    ) || name == bytes::text("transfer-encoding") || name == bytes::text("upgrade")
}

/// A name with a letter that is not small.
pub open spec fn has_upper(name: Seq<u8>) -> bool {
    exists|i: int| 0 <= i < name.len() && 0x41 <= #[trigger] name[i] <= 0x5a
}

/// What is wrong with a name.
pub open spec fn name_fault(name: Seq<u8>) -> Option<MetadataError> {
    if name.len() == 0 {
        Some(MetadataError::EmptyName)
    } else if has_upper(name) {
        Some(MetadataError::UppercaseName)
    } else if is_connection_name(name) {
        Some(MetadataError::ConnectionHeader)
    } else if name == bytes::text("-bin") {
        Some(MetadataError::BadBinaryName)
    } else {
        None
    }
}

/// A name that the protocol itself uses.
pub open spec fn is_reserved(name: Seq<u8>) -> bool {
    name == bytes::text("content-type") || name == bytes::text("te") || bytes::starts_with(
        name,
        bytes::text("grpc-"),
    )
}

/// The values under a name, in order.
pub open spec fn values_of(list: Seq<FieldView>, name: Seq<u8>) -> Seq<Seq<u8>>
    decreases list.len(),
{
    if list.len() == 0 {
        Seq::empty()
    } else {
        let before = values_of(list.drop_last(), name);
        if list.last().name == name {
            before.push(list.last().value)
        } else {
            before
        }
    }
}

/// Names and values, in the order in which they were added.
#[derive(Clone, Debug, PartialEq, Eq)]
pub struct Metadata {
    entries: Vec<MetadataEntry>,
}

impl Metadata {
    pub closed spec fn view(&self) -> Seq<FieldView> {
        self.entries@.map_values(|e: MetadataEntry| e@)
    }

    pub fn new() -> (r: Self)
        ensures
            r@ == Seq::<FieldView>::empty(),
    {
        let r = Metadata { entries: Vec::new() };
        assert(r@ =~= Seq::<FieldView>::empty());
        r
    }

    pub fn push(&mut self, name: &[u8], value: &[u8]) -> (r: Result<(), MetadataError>)
        ensures
            match r {
                Ok(_) => name_fault(name@) is None && final(self)@ == old(self)@.push(
                    FieldView { name: name@, value: value@ },
                ),
                Err(error) => name_fault(name@) == Some(error) && final(self)@ == old(self)@,
            },
    {
        match Self::validate_name(name) {
            Ok(_) => {},
            Err(error) => return Err(error),
        }
        let ghost before = self@;
        self.entries.push(
            MetadataEntry { name: bytes::to_vec(name), value: bytes::to_vec(value) },
        );
        assert(self@ =~= before.push(FieldView { name: name@, value: value@ }));
        Ok(())
    }

    pub fn entries(&self) -> (r: &[MetadataEntry])
        ensures
            r@.map_values(|e: MetadataEntry| e@) == self@,
            r@.len() == self@.len(),
            forall|i: int| 0 <= i < r@.len() ==> (#[trigger] r@[i])@ == self@[i],
    {
        self.entries.as_slice()
    }

    /// All values under a name, in the order in which they were added.
    pub fn get_all<'a>(&'a self, name: &[u8]) -> (r: Vec<&'a [u8]>)
        ensures
            r@.map_values(|v: &[u8]| v@) == values_of(self@, name@),
    {
        let ghost list = self@;
        let mut r: Vec<&'a [u8]> = Vec::new();
        let mut i: usize = 0;
        assert(r@.map_values(|v: &[u8]| v@) =~= values_of(list.subrange(0, 0), name@));
        while i < self.entries.len()
            invariant
                i <= self.entries@.len(),
                list == self@,
                list.len() == self.entries@.len(),
                r@.map_values(|v: &[u8]| v@) == values_of(list.subrange(0, i as int), name@),
            decreases self.entries@.len() - i,
        {
            let entry: &'a MetadataEntry = &self.entries[i];
            let ghost got = r@;
            let ghost more = list.subrange(0, i + 1);
            assert(more.drop_last() =~= list.subrange(0, i as int));
            assert(more.last() == entry@);
            if bytes::equal(entry.name.as_slice(), name) {
                r.push(entry.value.as_slice());
                assert(r@.map_values(|v: &[u8]| v@) =~= got.map_values(|v: &[u8]| v@).push(
                    entry.value@,
                ));
            }
            i = i + 1;
        }
        assert(list.subrange(0, list.len() as int) =~= list);
        r
    }

    /// The first value under a name.
    pub fn get<'a>(&'a self, name: &[u8]) -> (r: Option<&'a [u8]>)
        ensures
            match r {
                Some(value) => values_of(self@, name@).len() > 0 && values_of(self@, name@)[0]
                    == value@,
                None => values_of(self@, name@).len() == 0,
            },
    {
        let all = self.get_all(name);
        let ghost views = all@.map_values(|v: &[u8]| v@);
        if all.len() > 0 {
            assert(views[0] == all@[0]@);
            Some(all[0])
        } else {
            None
        }
    }

    fn validate_name(name: &[u8]) -> (r: Result<(), MetadataError>)
        ensures
            match r {
                Ok(_) => name_fault(name@) is None,
                Err(error) => name_fault(name@) == Some(error),
            },
    {
        if name.len() == 0 {
            return Err(MetadataError::EmptyName);
        }
        let mut i: usize = 0;
        while i < name.len()
            invariant
                i <= name@.len(),
                name@.len() > 0,
                forall|k: int| 0 <= k < i ==> !(0x41 <= #[trigger] name@[k] <= 0x5a),
            decreases name@.len() - i,
        {
            if 0x41 <= name[i] && name[i] <= 0x5a {
                assert(has_upper(name@));
                return Err(MetadataError::UppercaseName);
            }
            i = i + 1;
        }
        assert(!has_upper(name@));
        if bytes::equal(name, bytes::text_bytes("connection")) || bytes::equal(
            name,
            bytes::text_bytes("keep-alive"),
        ) || bytes::equal(name, bytes::text_bytes("proxy-connection")) || bytes::equal(
            name,
            bytes::text_bytes("transfer-encoding"),
        ) || bytes::equal(name, bytes::text_bytes("upgrade")) {
            return Err(MetadataError::ConnectionHeader);
        }
        if bytes::equal(name, bytes::text_bytes("-bin")) {
            return Err(MetadataError::BadBinaryName);
        }
        Ok(())
    }

    /// Whether the protocol itself uses a name.
    pub fn is_reserved(name: &[u8]) -> (r: bool)
        ensures
            r == is_reserved(name@),
    {
        bytes::equal(name, bytes::text_bytes("content-type")) || bytes::equal(
            name,
            bytes::text_bytes("te"),
        ) || bytes::has_prefix(name, bytes::text_bytes("grpc-"))
    }
}

impl Default for Metadata {
    fn default() -> (r: Self)
        ensures
            r@ == Seq::<FieldView>::empty(),
    {
        Metadata::new()
    }
}

/// Adding a value keeps all values under its name, in order, and changes nothing under any
/// other name.
pub proof fn law_duplicates_are_kept(list: Seq<FieldView>, f: FieldView, name: Seq<u8>)
    ensures
        values_of(list.push(f), f.name) == values_of(list, f.name).push(f.value),
        name != f.name ==> values_of(list.push(f), name) == values_of(list, name),
{
    assert(list.push(f).drop_last() =~= list);
}

} // verus!
