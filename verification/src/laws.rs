use vstd::prelude::*;
use vstd::bytes::{
    spec_u64_from_le_bytes, spec_u64_to_le_bytes, spec_u64_to_le_bytes_open,
    spec_u64_to_le_bytes_to_open,
};
use crate::bytesutil::{lemma_map_of_dom, spec_bytes_to_i64, spec_i64_to_bytes, spec_map_of};
use crate::dataproperty::DataProperty;
use crate::dataobject::{
    spec_entries, spec_holds_json, spec_put, spec_put_object, spec_set, spec_table_props,
    DataObject,
};
use crate::dataproperty::{
    TYPE_BOOLEAN, TYPE_FLOAT, TYPE_INT, TYPE_LIST, TYPE_OBJECT, TYPE_STRING,
};
use crate::datastore::{spec_count_down, spec_count_up, spec_prop_id, BytesRef, DataStore};
use crate::json::{spec_json_wf, JsonValue};

verus! {

/// Byte `j` of the encoding of `val` is bits `8j .. 8j + 8` of its two's complement
/// form: the encoding is little-endian, eight bytes long.
pub proof fn law_i64_to_bytes(val: i64)
    ensures
        spec_i64_to_bytes(val).len() == 8,
        spec_i64_to_bytes(val) == spec_u64_to_le_bytes(val as u64),
        forall|j: int|
            0 <= j < 8 ==> #[trigger] spec_i64_to_bytes(val)[j] == (((val as u64) >> ((8 * j)
                as u64)) & 0xff) as u8,
{
    spec_u64_to_le_bytes_to_open(val as u64);
    let x = val as u64;
    assert((x >> 0u64) == x) by (bit_vector);
    assert forall|j: int| 0 <= j < 8 implies #[trigger] spec_i64_to_bytes(val)[j] == ((x >> ((8
        * j) as u64)) & 0xff) as u8 by {
        if j == 0 {
        } else if j == 1 {
            assert((8 * j) as u64 == 8);
        } else if j == 2 {
            assert((8 * j) as u64 == 16);
        } else if j == 3 {
            assert((8 * j) as u64 == 24);
        } else if j == 4 {
            assert((8 * j) as u64 == 32);
        } else if j == 5 {
            assert((8 * j) as u64 == 40);
        } else if j == 6 {
            assert((8 * j) as u64 == 48);
        } else {
            assert((8 * j) as u64 == 56);
        }
    }
}

/// The integer read from eight bytes is the one whose little-endian two's complement
/// encoding they are.
pub proof fn law_bytes_to_i64(bytes: Seq<u8>, off: int)
    ensures
        spec_bytes_to_i64(bytes, off) == spec_u64_from_le_bytes(bytes.subrange(off, off + 8)) as i64,
{
}

/// One more reference adds one to a count (a count at `usize::MAX` stays there);
/// one reference fewer takes one away (a count at zero stays there).
pub proof fn law_counts(c: usize)
    ensures
        c < usize::MAX ==> spec_count_up(c) == c + 1,
        c == usize::MAX ==> spec_count_up(c) == c,
        c > 0 ==> spec_count_down(c) == c - 1,
        c == 0 ==> spec_count_down(c) == 0,
{
}

/// Setting a property: the value's buffer gains exactly one reference; the buffer of
/// the property it displaces, if that is another buffer, loses exactly one, whatever
/// the displaced property's type; if it is the same buffer, its count is unchanged;
/// every other count stays.
pub proof fn law_set_property_counts(
    o: DataObject,
    s1: DataStore,
    s2: DataStore,
    key: Seq<char>,
    typ: u8,
    bytesref: BytesRef,
)
    requires
        o.wf(s1),
        bytesref.byte_ref < s1.buffers().len(),
        spec_set(o, s1, s2, key, typ, bytesref),
    ensures
        ({
            let id = spec_prop_id(s2.names(), key);
            let b = bytesref.byte_ref as int;
            let old_props = o.properties(s1);
            &&& s2.counts().len() == s1.counts().len()
            &&& old_props.contains_key(id) && old_props[id].byte_ref as int != b ==> {
                let d = old_props[id].byte_ref as int;
                &&& s1.counts()[d] > 0 ==> s2.counts()[d] == s1.counts()[d] - 1
                &&& s1.counts()[d] == 0 ==> s2.counts()[d] == 0
            }
            &&& (old_props.contains_key(id) && old_props[id].byte_ref as int == b
                && s1.counts()[b] < usize::MAX) ==> s2.counts()[b] == s1.counts()[b]
            &&& (!(old_props.contains_key(id) && old_props[id].byte_ref as int == b)
                && s1.counts()[b] < usize::MAX) ==> s2.counts()[b] == s1.counts()[b] + 1
            &&& forall|x: int|
                0 <= x < s1.counts().len() && x != b && !(old_props.contains_key(id)
                    && x == old_props[id].byte_ref as int) ==> #[trigger] s2.counts()[x]
                    == s1.counts()[x]
        }),
{
    o.lemma_wf(s1);
    o.lemma_wf(s2);
    s1.lemma_wf();
    s2.lemma_wf();
}

/// Putting a value (`put_str`, `put_bool`, `put_i64`, `put_list`): the new buffer
/// holds one reference; the buffer of the property it displaces, if any, loses
/// exactly one, whatever that property's type; every other count stays.
pub proof fn law_put_counts(
    o: DataObject,
    s1: DataStore,
    s2: DataStore,
    key: Seq<char>,
    typ: u8,
    value: Seq<u8>,
)
    requires
        o.wf(s1),
        spec_put(o, s1, s2, key, typ, value),
    ensures
        ({
            let id = spec_prop_id(s2.names(), key);
            let n = s1.buffers().len() as int;
            let old_props = o.properties(s1);
            &&& s2.counts().len() == n + 1
            &&& s2.counts()[n] == 1
            &&& old_props.contains_key(id) ==> {
                let d = old_props[id].byte_ref as int;
                &&& 0 <= d < n
                &&& s1.counts()[d] > 0 ==> s2.counts()[d] == s1.counts()[d] - 1
                &&& s1.counts()[d] == 0 ==> s2.counts()[d] == 0
            }
            &&& forall|x: int|
                0 <= x < n && !(old_props.contains_key(id) && x == old_props[id].byte_ref as int)
                    ==> #[trigger] s2.counts()[x] == s1.counts()[x]
        }),
{
    o.lemma_wf(s1);
    o.lemma_wf(s2);
    s1.lemma_wf();
    s2.lemma_wf();
    let n = s1.buffers().len() as int;
    assert(s1.counts().push(0)[n] == 0);
}

/// Putting a nested object: its table's buffer holds one reference; the buffer of the
/// property it displaces, if any, loses exactly one, whatever that property's type;
/// every other existing count stays.
pub proof fn law_put_object_counts(
    o: DataObject,
    s1: DataStore,
    s2: DataStore,
    key: Seq<char>,
    val: JsonValue,
)
    requires
        o.wf(s1),
        spec_put_object(o, s1, s2, key, val),
    ensures
        ({
            let id = spec_prop_id(s2.names(), key);
            let n = s1.buffers().len() as int;
            let old_props = o.properties(s1);
            &&& s2.counts()[n] == 1
            &&& old_props.contains_key(id) ==> {
                let d = old_props[id].byte_ref as int;
                &&& 0 <= d < n
                &&& s1.counts()[d] > 0 ==> s2.counts()[d] == s1.counts()[d] - 1
                &&& s1.counts()[d] == 0 ==> s2.counts()[d] == 0
            }
            &&& forall|x: int|
                0 <= x < n && !(old_props.contains_key(id) && x == old_props[id].byte_ref as int)
                    ==> #[trigger] s2.counts()[x] == s1.counts()[x]
        }),
{
    o.lemma_wf(s1);
    s1.lemma_wf();
    let id = spec_prop_id(s2.names(), key);
    let old_props = o.properties(s1);
    if old_props.contains_key(id) {
        let d = old_props[id].byte_ref as int;
        assert(s2.counts()[d] == s1.counts().update(d, spec_count_down(s1.counts()[d]))[d]);
    }
}

/// An object built from a JSON object files each entry by the kind of its value:
/// a string under `TYPE_STRING` with its UTF-8 bytes; a boolean under `TYPE_BOOLEAN`
/// with one byte, 1 or 0; an integer, of either sign, under `TYPE_INT` with its eight
/// little-endian bytes; a float under `TYPE_FLOAT` with the eight little-endian bytes
/// of its bits; a list under `TYPE_LIST` with the one byte 1; a nested object under
/// `TYPE_OBJECT`, in a buffer that holds the object built from it. Each value is a
/// whole buffer of its own with one reference. A null entry files nothing.
pub proof fn law_from_json_entry(
    store: DataStore,
    names: Seq<Seq<char>>,
    h: int,
    v: JsonValue,
    j: int,
)
    requires
        store.wf(),
        v is Object,
        spec_json_wf(v),
        names.no_duplicates(),
        names.len() <= usize::MAX,
        spec_holds_json(store, names, h, v),
        0 <= j < spec_entries(v).len(),
    ensures
        ({
            let e = spec_entries(v)[j];
            let props = spec_table_props(store, h);
            let id = spec_prop_id(names, e.0@);
            let p = props[id];
            let b = p.byte_ref as int;
            &&& e.1 is Null && names.contains(e.0@) ==> !props.contains_key(id)
            &&& e.1 !is Null ==> {
                &&& names.contains(e.0@)
                &&& props.contains_key(id)
                &&& p.off == 0
                &&& h < b < store.buffers().len()
                &&& p.len == store.buffers()[b].len()
                &&& store.counts()[b] == 1
            }
            &&& (e.1 matches JsonValue::Str(s) ==> p.typ == TYPE_STRING && store.buffers()[b]
                == vstd::utf8::encode_utf8(s@))
            &&& (e.1 matches JsonValue::Bool(x) ==> p.typ == TYPE_BOOLEAN && store.buffers()[b]
                == seq![if x { 1u8 } else { 0u8 }])
            &&& (e.1 matches JsonValue::Int(x) ==> p.typ == TYPE_INT && store.buffers()[b]
                == spec_u64_to_le_bytes(x as u64))
            &&& (e.1 matches JsonValue::Float(bits) ==> p.typ == TYPE_FLOAT && store.buffers()[b]
                == spec_u64_to_le_bytes(bits))
            &&& (e.1 is Array ==> p.typ == TYPE_LIST && store.buffers()[b] == seq![1u8])
            &&& (e.1 is Object ==> p.typ == TYPE_OBJECT && spec_holds_json(store, names, b, e.1))
        }),
{
    store.lemma_wf();
    let entries = spec_entries(v);
    match v {
        JsonValue::Object(es) => {
            assert(entries == es@);
        },
        _ => {},
    }
    let e = entries[j];
    let props = spec_table_props(store, h);
    let id = spec_prop_id(names, e.0@);
    if e.1 is Null && names.contains(e.0@) && props.contains_key(id) {
        let k = choose|k: int|
            0 <= k < entries.len() && (#[trigger] entries[k]).1 !is Null && id == spec_prop_id(
                names,
                entries[k].0@,
            );
        assert(names.contains(entries[k].0@));
        let c1 = names.index_of(e.0@);
        let c2 = names.index_of(entries[k].0@);
        assert(names[c1] == e.0@);
        assert(names[c2] == entries[k].0@);
        assert(entries[k].0@ == e.0@);
        if k < j {
            assert(entries[k].0@ != entries[j].0@);
        } else if k > j {
            assert(entries[j].0@ != entries[k].0@);
        }
    }
    if e.1 !is Null {
        assert(names.contains(e.0@));
        assert(props.contains_key(id));
        assert(props[id].typ == crate::dataobject::spec_json_type(e.1));
    }
    let p = props[id];
    let b = p.byte_ref as int;
    if e.1 !is Null {
        assert(p.off == 0);
        assert(h < b < store.buffers().len());
        assert(p.len == store.buffers()[b].len());
        assert(store.counts()[b] == 1);
    }
    match e.1 {
        JsonValue::Float(bits) => {
            assert(((bits as i64) as u64) == bits) by (bit_vector);
            assert(store.buffers()[b] == spec_u64_to_le_bytes(bits));
        },
        JsonValue::Str(st) => {
            assert(store.buffers()[b] == vstd::utf8::encode_utf8(st@));
        },
        JsonValue::Int(x) => {
            assert(store.buffers()[b] == spec_u64_to_le_bytes(x as u64));
        },
        JsonValue::Object(_) => {
            assert(spec_holds_json(store, names, b, e.1));
        },
        _ => {},
    }
}

/// Setting a property files it under the id of its name, with the given type and value
/// reference, and leaves every other property as it was.
pub proof fn law_set_property_props(
    o: DataObject,
    s1: DataStore,
    s2: DataStore,
    key: Seq<char>,
    typ: u8,
    bytesref: BytesRef,
)
    requires
        spec_set(o, s1, s2, key, typ, bytesref),
    ensures
        ({
            let id = spec_prop_id(s2.names(), key);
            let p = o.properties(s2)[id];
            &&& s2.names()[id as int] == key
            &&& o.properties(s2).contains_key(id)
            &&& p.id == id && p.typ == typ && p.byte_ref == bytesref.byte_ref && p.off
                == bytesref.off && p.len == bytesref.len
            &&& forall|k: usize|
                k != id ==> (#[trigger] o.properties(s2).contains_key(k) == o.properties(
                    s1,
                ).contains_key(k) && (o.properties(s1).contains_key(k) ==> o.properties(s2)[k]
                    == o.properties(s1)[k]))
        }),
{
    s2.lemma_wf();
    let n1 = s1.names();
    if !n1.contains(key) {
        assert(n1.push(key)[n1.len() as int] == key);
    }
    let c = s2.names().index_of(key);
    assert(s2.names()[c] == key);
}

/// Putting a value files, under the id of its name, a property of the given type that
/// refers to the whole of a new buffer holding the value, and leaves every other
/// property as it was.
pub proof fn law_put_value(
    o: DataObject,
    s1: DataStore,
    s2: DataStore,
    key: Seq<char>,
    typ: u8,
    value: Seq<u8>,
)
    requires
        spec_put(o, s1, s2, key, typ, value),
    ensures
        ({
            let id = spec_prop_id(s2.names(), key);
            let n = s1.buffers().len();
            let p = o.properties(s2)[id];
            &&& s2.names()[id as int] == key
            &&& o.properties(s2).contains_key(id)
            &&& p.id == id && p.typ == typ && p.byte_ref == n && p.off == 0 && p.len == value.len()
            &&& s2.buffers()[n as int] == value
            &&& forall|k: usize|
                k != id ==> (#[trigger] o.properties(s2).contains_key(k) == o.properties(
                    s1,
                ).contains_key(k) && (o.properties(s1).contains_key(k) ==> o.properties(s2)[k]
                    == o.properties(s1)[k]))
        }),
{
    s2.lemma_wf();
    let n1 = s1.names();
    if !n1.contains(key) {
        assert(n1.push(key)[n1.len() as int] == key);
    }
    let c = s2.names().index_of(key);
    assert(s2.names()[c] == key);
}

/// Filing a list of properties under their ids keeps, for each id, the last property
/// of the list with that id, and files nothing under an id absent from the list.
pub proof fn law_map_of_last(props: Seq<DataProperty>, id: usize)
    ensures
        spec_map_of(props).contains_key(id) <==> exists|j: int|
            0 <= j < props.len() && (#[trigger] props[j]).id == id,
        spec_map_of(props).contains_key(id) ==> exists|j: int|
            0 <= j < props.len() && #[trigger] props[j] == spec_map_of(props)[id] && props[j].id
                == id && forall|k: int| j < k < props.len() ==> (#[trigger] props[k]).id != id,
    decreases props.len(),
{
    lemma_map_of_dom(props);
    if props.len() > 0 {
        let init = props.drop_last();
        let n = props.len() as int;
        law_map_of_last(init, id);
        if props.last().id == id {
            assert(props[n - 1] == spec_map_of(props)[id]);
        } else if spec_map_of(props).contains_key(id) {
            let j = choose|j: int|
                0 <= j < init.len() && #[trigger] init[j] == spec_map_of(init)[id] && init[j].id
                    == id && forall|k: int| j < k < init.len() ==> (#[trigger] init[k]).id != id;
            assert(props[j] == init[j]);
            assert forall|k: int| j < k < props.len() implies (#[trigger] props[k]).id != id by {
                if k < n - 1 {
                    assert(props[k] == init[k]);
                }
            }
        }
    }
}

} // verus!
