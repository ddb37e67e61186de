use vstd::prelude::*;
use vstd::bytes::{
    lemma_auto_spec_u64_to_from_le_bytes, spec_u64_from_le_bytes, spec_u64_to_le_bytes,
    u64_from_le_bytes, u64_to_le_bytes,
};
use vstd::slice::slice_subrange;

verus! {

/// The number of bytes one property occupies in a property table:
/// its id, its type tag, and the heap reference (buffer, offset, length) of its value.
pub const PROPERTY_SIZE: usize = 33;

/// Type tag of a property whose value is an object's property table.
pub const TYPE_OBJECT: u8 = 0;
/// Type tag of a property whose value is a 64-bit float.
pub const TYPE_FLOAT: u8 = 1;
/// Type tag of a property whose value is a 64-bit integer.
pub const TYPE_INT: u8 = 2;
/// Type tag of a property whose value is a string.
pub const TYPE_STRING: u8 = 3;
/// Type tag of a property whose value is a boolean.
pub const TYPE_BOOLEAN: u8 = 4;
/// Type tag of a property whose value is a list.
pub const TYPE_LIST: u8 = 5;

/// One entry of a property table: which property (`id`), what kind of value it holds
/// (`typ`), and where the value's bytes live (`byte_ref`, `off`, `len`).
#[derive(Clone, Copy, Debug, PartialEq, Eq, Structural)]
pub struct DataProperty {
    pub id: usize,
    pub typ: u8,
    pub byte_ref: usize,
    pub off: usize,
    pub len: usize,
}

/// The eight little-endian bytes of a `usize` field, widened to 64 bits.
pub open spec fn spec_usize_to_bytes(x: usize) -> Seq<u8> {
    spec_u64_to_le_bytes(x as u64)
}

/// The `usize` stored in eight little-endian bytes.
pub open spec fn spec_usize_from_bytes(b: Seq<u8>) -> usize {
    spec_u64_from_le_bytes(b) as usize
}

/// The record of a property: id, type tag, buffer, offset and length, in that order.
pub open spec fn spec_property_to_bytes(p: DataProperty) -> Seq<u8> {
    spec_usize_to_bytes(p.id) + seq![p.typ] + spec_usize_to_bytes(p.byte_ref)
        + spec_usize_to_bytes(p.off) + spec_usize_to_bytes(p.len)
}

/// The property whose record starts at position `i` of `bytes`.
pub open spec fn spec_property_from_bytes(bytes: Seq<u8>, i: int) -> DataProperty {
    DataProperty {
        id: spec_usize_from_bytes(bytes.subrange(i, i + 8)),
        typ: bytes[i + 8],
        byte_ref: spec_usize_from_bytes(bytes.subrange(i + 9, i + 17)),
        off: spec_usize_from_bytes(bytes.subrange(i + 17, i + 25)),
        len: spec_usize_from_bytes(bytes.subrange(i + 25, i + 33)),
    }
}

/// Reading back a field written by `spec_usize_to_bytes` gives the field.
pub proof fn lemma_usize_bytes_roundtrip(x: usize)
    ensures
        spec_usize_to_bytes(x).len() == 8,
        spec_usize_from_bytes(spec_usize_to_bytes(x)) == x,
{
    lemma_auto_spec_u64_to_from_le_bytes();
    assert(spec_u64_to_le_bytes(x as u64).len() == 8);
}

/// A property record is `PROPERTY_SIZE` bytes long, and a record read back from
/// wherever it stands in a buffer gives the property that was written.
pub proof fn lemma_property_roundtrip(p: DataProperty, pre: Seq<u8>, post: Seq<u8>)
    ensures
        spec_property_to_bytes(p).len() == PROPERTY_SIZE,
        spec_property_from_bytes(pre + spec_property_to_bytes(p) + post, pre.len() as int) == p,
{
    lemma_usize_bytes_roundtrip(p.id);
    lemma_usize_bytes_roundtrip(p.byte_ref);
    lemma_usize_bytes_roundtrip(p.off);
    lemma_usize_bytes_roundtrip(p.len);
    let r = spec_property_to_bytes(p);
    let all = pre + r + post;
    let i = pre.len() as int;
    assert(all.subrange(i, i + 8) =~= spec_usize_to_bytes(p.id));
    assert(all[i + 8] == p.typ);
    assert(all.subrange(i + 9, i + 17) =~= spec_usize_to_bytes(p.byte_ref));
    assert(all.subrange(i + 17, i + 25) =~= spec_usize_to_bytes(p.off));
    assert(all.subrange(i + 25, i + 33) =~= spec_usize_to_bytes(p.len));
}

/// Reads a `usize` field from the eight bytes at `off`.
fn read_usize(bytes: &Vec<u8>, off: usize) -> (x: usize)
    requires
        off + 8 <= bytes.len(),
    ensures
        x == spec_usize_from_bytes(bytes@.subrange(off as int, off + 8)),
{
    let s = slice_subrange(bytes.as_slice(), off, off + 8);
    let v = u64_from_le_bytes(s);
    #[verifier::truncate] (v as usize)
}

/// Appends the eight bytes of a `usize` field.
fn write_usize(out: &mut Vec<u8>, x: usize)
    ensures
        final(out)@ == old(out)@ + spec_usize_to_bytes(x),
{
    let mut b = u64_to_le_bytes(x as u64);
    out.append(&mut b);
}

impl DataProperty {
    /// A property with the given id, type tag and value reference.
    pub fn new(id: usize, typ: u8, byte_ref: usize, off: usize, len: usize) -> (p: DataProperty)
        ensures
            p == (DataProperty { id, typ, byte_ref, off, len }),
    {
        DataProperty { id, typ, byte_ref, off, len }
    }

    /// The record of this property, `PROPERTY_SIZE` bytes long.
    pub fn to_bytes(&self) -> (bytes: Vec<u8>)
        ensures
            bytes@ == spec_property_to_bytes(*self),
            bytes@.len() == PROPERTY_SIZE,
    {
        proof {
            lemma_property_roundtrip(*self, Seq::empty(), Seq::empty());
        }
        let mut out: Vec<u8> = Vec::new();
        write_usize(&mut out, self.id);
        out.push(self.typ);
        write_usize(&mut out, self.byte_ref);
        write_usize(&mut out, self.off);
        write_usize(&mut out, self.len);
        out
    }

    /// The property whose record starts at position `off` of `bytes`.
    pub fn from_bytes(bytes: &Vec<u8>, off: usize) -> (p: DataProperty)
        requires
            off + PROPERTY_SIZE <= bytes.len(),
        ensures
            p == spec_property_from_bytes(bytes@, off as int),
    {
        let id = read_usize(bytes, off);
        let typ = bytes[off + 8];
        let byte_ref = read_usize(bytes, off + 9);
        let o = read_usize(bytes, off + 17);
        let len = read_usize(bytes, off + 25);
        DataProperty { id, typ, byte_ref, off: o, len }
    }
}

} // verus!
