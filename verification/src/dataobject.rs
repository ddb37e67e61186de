use vstd::prelude::*;
use vstd::slice::slice_to_vec;
use vstd::string::StringSliceAdditionalSpecFns;
use crate::bytesutil::{
    bytes_to_propertymap, i64_to_bytes, lemma_propertymap_roundtrip, propertymap_to_bytes,
    spec_i64_to_bytes, spec_is_table_of, spec_listing, spec_map_of, spec_properties_to_bytes,
    spec_records, spec_well_keyed,
};
use crate::dataproperty::{
    DataProperty, TYPE_BOOLEAN, TYPE_FLOAT, TYPE_INT, TYPE_LIST, TYPE_OBJECT, TYPE_STRING,
};
use crate::json::{spec_json_wf, JsonValue};
use crate::datastore::{
    spec_count_down, spec_count_up, spec_names_after, spec_prop_id, BytesRef, DataStore,
};

verus! {

/// Every property of `m` refers to one of the first `n` buffers.
pub open spec fn spec_refs_within(m: Map<usize, DataProperty>, n: int) -> bool {
    forall|k: usize| #[trigger] m.contains_key(k) ==> m[k].byte_ref < n
}

/// The reference counts after a property referring to buffer `value_ref` has been
/// filed under `id` in an object whose properties were `props`: one more reference
/// to `value_ref`, then one fewer to the buffer of the property it displaced, if any.
pub open spec fn spec_counts_after_set(
    counts: Seq<usize>,
    value_ref: usize,
    props: Map<usize, DataProperty>,
    id: usize,
) -> Seq<usize> {
    let c1 = counts.update(value_ref as int, spec_count_up(counts[value_ref as int]));
    if props.contains_key(id) {
        let d = props[id].byte_ref as int;
        c1.update(d, spec_count_down(c1[d]))
    } else {
        c1
    }
}

/// What putting a value does: `value` becomes a new buffer of the store, with one
/// reference; the property named `key`, of type `typ`, referring to all of that buffer,
/// is filed in the object in place of any property with that name (whose buffer loses
/// a reference); the other buffers keep their contents.
pub open spec fn spec_put(
    o: DataObject,
    s1: DataStore,
    s2: DataStore,
    key: Seq<char>,
    typ: u8,
    value: Seq<u8>,
) -> bool {
    let n = s1.buffers().len();
    let id = spec_prop_id(s2.names(), key);
    &&& s2.wf()
    &&& o.wf(s2)
    &&& s2.names() == spec_names_after(s1.names(), key)
    &&& s2.buffers().len() == n + 1
    &&& s2.buffers()[n as int] == value
    &&& forall|i: int|
        0 <= i < n && i != o.handle() ==> #[trigger] s2.buffers()[i] == s1.buffers()[i]
    &&& o.properties(s2) == o.properties(s1).insert(
        id,
        DataProperty { id, typ, byte_ref: n as usize, off: 0, len: value.len() as usize },
    )
    &&& s2.counts() == spec_counts_after_set(s1.counts().push(0), n as usize, o.properties(s1), id)
}

/// What putting a nested object does: the store stays well-formed, the object too;
/// the name `key` is registered and every name keeps its id; new buffers are added
/// after the existing ones, the first of them holding the object built from `val`
/// with one reference; among the existing buffers only the object's table changes;
/// the property named `key`, of the object type, referring to all of that first new
/// buffer, is filed in place of any property with that id, whose buffer loses a reference.
pub open spec fn spec_put_object(
    o: DataObject,
    s1: DataStore,
    s2: DataStore,
    key: Seq<char>,
    val: JsonValue,
) -> bool {
    let n = s1.buffers().len();
    let id = spec_prop_id(s2.names(), key);
    &&& s2.wf()
    &&& o.wf(s2)
    &&& spec_names_extend(s1.names(), s2.names())
    &&& s2.names().contains(key)
    &&& s2.buffers().len() > n
    &&& s2.counts()[n as int] == 1
    &&& forall|i: int|
        0 <= i < n && i != o.handle() ==> #[trigger] s2.buffers()[i] == s1.buffers()[i]
    &&& forall|i: int|
        0 <= i < n ==> #[trigger] s2.counts()[i] == spec_counts_displace(
            s1.counts(),
            o.properties(s1),
            id,
        )[i]
    &&& o.properties(s2) == o.properties(s1).insert(
        id,
        DataProperty {
            id,
            typ: TYPE_OBJECT,
            byte_ref: n as usize,
            off: 0,
            len: s2.buffers()[n as int].len() as usize,
        },
    )
    &&& spec_holds_json(s2, s2.names(), n as int, val)
}

/// What setting a property does: the store stays well-formed, the object too; the
/// name `key` is registered; only the object's table changes among the buffers; the
/// property named `key`, of type `typ`, referring to what `bytesref` refers to, is
/// filed in place of any property with that id; the value's buffer gains a reference
/// and the displaced property's buffer, if any, loses one.
pub open spec fn spec_set(
    o: DataObject,
    s1: DataStore,
    s2: DataStore,
    key: Seq<char>,
    typ: u8,
    bytesref: BytesRef,
) -> bool {
    let id = spec_prop_id(s2.names(), key);
    &&& s2.wf()
    &&& o.wf(s2)
    &&& s2.names() == spec_names_after(s1.names(), key)
    &&& s2.buffers().len() == s1.buffers().len()
    &&& forall|i: int|
        0 <= i < s1.buffers().len() && i != o.handle() ==> #[trigger] s2.buffers()[i]
            == s1.buffers()[i]
    &&& o.properties(s2) == o.properties(s1).insert(
        id,
        DataProperty {
            id,
            typ,
            byte_ref: bytesref.byte_ref,
            off: bytesref.off,
            len: bytesref.len,
        },
    )
    &&& s2.counts() == spec_counts_after_set(s1.counts(), bytesref.byte_ref, o.properties(s1), id)
}

/// Setting the same property twice in a row: the second time changes nothing, neither
/// the properties, nor the registry, nor any reference count (the value's buffer gains
/// a reference and loses the one of the property it displaces, itself). A count
/// already at `usize::MAX` stays there instead of growing, so it is left out.
pub proof fn lemma_set_property_twice(
    o: DataObject,
    s1: DataStore,
    s2: DataStore,
    s3: DataStore,
    key: Seq<char>,
    typ: u8,
    bytesref: BytesRef,
)
    requires
        o.wf(s1),
        bytesref.byte_ref < s1.buffers().len(),
        spec_set(o, s1, s2, key, typ, bytesref),
        spec_set(o, s2, s3, key, typ, bytesref),
        s2.counts()[bytesref.byte_ref as int] < usize::MAX,
    ensures
        s3.names() == s2.names(),
        o.properties(s3) == o.properties(s2),
        s3.counts() == s2.counts(),
{
    lemma_names_after(s1.names(), key);
    o.lemma_wf(s2);
    let id = spec_prop_id(s2.names(), key);
    assert(s3.names() == s2.names());
    assert(o.properties(s2).contains_key(id));
    assert(o.properties(s3) =~= o.properties(s2));
    s2.lemma_wf();
    let c = s2.counts();
    let b = bytesref.byte_ref as int;
    let c1 = c.update(b, spec_count_up(c[b]));
    assert(c1.update(b, spec_count_down(c1[b])) =~= c);
}

/// The type tag under which a JSON value is filed (a null value is never filed,
/// so its tag is never read).
pub open spec fn spec_json_type(v: JsonValue) -> u8 {
    match v {
        JsonValue::Str(_) => TYPE_STRING,
        JsonValue::Bool(_) => TYPE_BOOLEAN,
        JsonValue::Int(_) => TYPE_INT,
        JsonValue::Float(_) => TYPE_FLOAT,
        JsonValue::Object(_) => TYPE_OBJECT,
        JsonValue::Array(_) => TYPE_LIST,
        JsonValue::Null => 0,
    }
}

/// `s2`'s registry holds all of `s1`'s names, at the same ids.
pub open spec fn spec_names_extend(s1: Seq<Seq<char>>, s2: Seq<Seq<char>>) -> bool {
    &&& s1.len() <= s2.len()
    &&& forall|j: int| 0 <= j < s1.len() ==> #[trigger] s2[j] == s1[j]
}

/// A registered name keeps its id as the registry grows.
proof fn lemma_prop_id_stable(n1: Seq<Seq<char>>, n2: Seq<Seq<char>>, k: Seq<char>)
    requires
        n2.no_duplicates(),
        n2.len() <= usize::MAX,
        spec_names_extend(n1, n2),
        n1.contains(k),
    ensures
        n2.contains(k),
        spec_prop_id(n2, k) == spec_prop_id(n1, k),
{
    let c = n1.index_of(k);
    assert(n2[c] == k);
    let c2 = n2.index_of(k);
    assert(n2[c2] == k);
}

/// Different registered names have different ids.
proof fn lemma_prop_id_distinct(names: Seq<Seq<char>>, k1: Seq<char>, k2: Seq<char>)
    requires
        names.no_duplicates(),
        names.len() <= usize::MAX,
        names.contains(k1),
        names.contains(k2),
        k1 != k2,
    ensures
        spec_prop_id(names, k1) != spec_prop_id(names, k2),
        names[spec_prop_id(names, k1) as int] == k1,
{
    let c1 = names.index_of(k1);
    let c2 = names.index_of(k2);
    assert(names[c1] == k1);
    assert(names[c2] == k2);
}

/// The entries of a JSON object (none for any other value).
pub open spec fn spec_entries(v: JsonValue) -> Seq<(String, JsonValue)> {
    match v {
        JsonValue::Object(entries) => entries@,
        _ => Seq::empty(),
    }
}

/// The reference counts after the property filed under `id` in an object whose
/// properties were `props`, if there is one, has lost a reference to its buffer.
pub open spec fn spec_counts_displace(
    counts: Seq<usize>,
    props: Map<usize, DataProperty>,
    id: usize,
) -> Seq<usize> {
    if props.contains_key(id) {
        let d = props[id].byte_ref as int;
        counts.update(d, spec_count_down(counts[d]))
    } else {
        counts
    }
}

/// What building an object from the entries of a JSON object gives, as far as
/// the properties go: one property for each entry whose value is not null, filed
/// under the id of the entry's key, with the type tag of the entry's value.
pub open spec fn spec_built_from(
    props: Map<usize, DataProperty>,
    names: Seq<Seq<char>>,
    entries: Seq<(String, JsonValue)>,
) -> bool {
    &&& forall|j: int|
        0 <= j < entries.len() && (#[trigger] entries[j]).1 !is Null ==> {
            &&& names.contains(entries[j].0@)
            &&& props.contains_key(spec_prop_id(names, entries[j].0@))
            &&& props[spec_prop_id(names, entries[j].0@)].typ == spec_json_type(entries[j].1)
        }
    &&& forall|id: usize|
        #[trigger] props.contains_key(id) ==> exists|j: int|
            0 <= j < entries.len() && (#[trigger] entries[j]).1 !is Null && id == spec_prop_id(
                names,
                entries[j].0@,
            )
}

/// Looking a name up registers it, and keeps every name registered before at its id.
proof fn lemma_names_after(names: Seq<Seq<char>>, k: Seq<char>)
    ensures
        spec_names_after(names, k).contains(k),
        spec_names_extend(names, spec_names_after(names, k)),
{
    if !names.contains(k) {
        assert(names.push(k)[names.len() as int] == k);
    }
}

/// The bytes under which a JSON value other than an object or null is filed:
/// the UTF-8 bytes of a string; one byte, 1 or 0, for a boolean; the eight
/// little-endian bytes of an integer, or of the bits of a float; and, for a list
/// (which is not stored yet), the one byte of `true`.
pub open spec fn spec_json_value_bytes(v: JsonValue) -> Seq<u8> {
    match v {
        JsonValue::Str(s) => vstd::utf8::encode_utf8(s@),
        JsonValue::Bool(b) => seq![if b { 1u8 } else { 0u8 }],
        JsonValue::Int(x) => spec_i64_to_bytes(x),
        JsonValue::Float(bits) => spec_i64_to_bytes(bits as i64),
        JsonValue::Array(_) => seq![1u8],
        _ => Seq::empty(),
    }
}

/// Where the values of an object built from JSON entries stand: each property of
/// a non-null entry refers to the whole of a buffer of its own, added after the
/// object's table (buffer `h`), with exactly one reference; for a value other than an
/// object, that buffer holds the value's bytes (for an object, the nested table).
pub open spec fn spec_values_from(
    props: Map<usize, DataProperty>,
    names: Seq<Seq<char>>,
    store: DataStore,
    h: usize,
    entries: Seq<(String, JsonValue)>,
) -> bool {
    forall|j: int|
        0 <= j < entries.len() && (#[trigger] entries[j]).1 !is Null ==> {
            let p = props[spec_prop_id(names, entries[j].0@)];
            &&& p.off == 0
            &&& h < p.byte_ref < store.buffers().len()
            &&& p.len == store.buffers()[p.byte_ref as int].len()
            &&& store.counts()[p.byte_ref as int] == 1
            &&& (entries[j].1 !is Object ==> store.buffers()[p.byte_ref as int]
                == spec_json_value_bytes(entries[j].1))
        }
}

/// The values of the entries taken into account stay where they were as one more
/// entry is put, and the new entry's value is where it should be.
proof fn lemma_values_step(
    props1: Map<usize, DataProperty>,
    props2: Map<usize, DataProperty>,
    names1: Seq<Seq<char>>,
    names2: Seq<Seq<char>>,
    s1: DataStore,
    s2: DataStore,
    h: usize,
    entries: Seq<(String, JsonValue)>,
    i: int,
)
    requires
        0 <= i < entries.len(),
        spec_values_from(props1, names1, s1, h, entries.take(i)),
        forall|j: int|
            0 <= j < i && (#[trigger] entries[j]).1 !is Null ==> props2[spec_prop_id(
                names2,
                entries[j].0@,
            )] == props1[spec_prop_id(names1, entries[j].0@)],
        s2.buffers().len() >= s1.buffers().len(),
        forall|x: int|
            0 <= x < s1.buffers().len() && x != h ==> #[trigger] s2.buffers()[x]
                == s1.buffers()[x],
        forall|x: int| 0 <= x < s1.buffers().len() ==> #[trigger] s2.counts()[x] == s1.counts()[x],
        entries[i].1 !is Null ==> {
            let p = props2[spec_prop_id(names2, entries[i].0@)];
            &&& p.off == 0
            &&& h < p.byte_ref < s2.buffers().len()
            &&& p.len == s2.buffers()[p.byte_ref as int].len()
            &&& s2.counts()[p.byte_ref as int] == 1
            &&& (entries[i].1 !is Object ==> s2.buffers()[p.byte_ref as int]
                == spec_json_value_bytes(entries[i].1))
        },
    ensures
        spec_values_from(props2, names2, s2, h, entries.take(i + 1)),
{
    let e1 = entries.take(i);
    let e2 = entries.take(i + 1);
    assert forall|j: int| 0 <= j < e2.len() && (#[trigger] e2[j]).1 !is Null implies {
        let p = props2[spec_prop_id(names2, e2[j].0@)];
        &&& p.off == 0
        &&& h < p.byte_ref < s2.buffers().len()
        &&& p.len == s2.buffers()[p.byte_ref as int].len()
        &&& s2.counts()[p.byte_ref as int] == 1
        &&& (e2[j].1 !is Object ==> s2.buffers()[p.byte_ref as int] == spec_json_value_bytes(
            e2[j].1,
        ))
    } by {
        if j < i {
            assert(e2[j] == e1[j]);
            assert(e1[j] == entries[j]);
            let p = props1[spec_prop_id(names1, e1[j].0@)];
            assert(s2.buffers()[p.byte_ref as int] == s1.buffers()[p.byte_ref as int]);
            assert(s2.counts()[p.byte_ref as int] == s1.counts()[p.byte_ref as int]);
        } else {
            assert(e2[j] == entries[i]);
        }
    }
}

/// The properties that the table in buffer `h` of `store` reads back as.
pub open spec fn spec_table_props(store: DataStore, h: int) -> Map<usize, DataProperty> {
    let t = store.buffers()[h];
    spec_map_of(spec_records(t, 0, t.len() as int))
}

/// Buffer `h` of `store` holds the object built from the JSON object `v`: its table
/// files a property for each non-null entry, with the entry's type and value bytes
/// (`spec_built_from`, `spec_values_from`), and the buffer of each nested object in
/// turn holds the object built from that entry's value.
pub open spec fn spec_holds_json(store: DataStore, names: Seq<Seq<char>>, h: int, v: JsonValue) -> bool
    decreases v,
{
    match v {
        JsonValue::Object(entries) => {
            let props = spec_table_props(store, h);
            &&& 0 <= h < store.buffers().len()
            &&& spec_built_from(props, names, entries@)
            &&& spec_values_from(props, names, store, h as usize, entries@)
            &&& forall|j: int|
                0 <= j < entries@.len() && (#[trigger] entries@[j]).1 is Object ==> spec_holds_json(
                    store,
                    names,
                    props[spec_prop_id(names, entries@[j].0@)].byte_ref as int,
                    entries@[j].1,
                )
        },
        _ => true,
    }
}

/// What a buffer holds of a JSON object depends only on that buffer and the ones
/// after it (the nested objects and the values), and on the ids of the keys.
pub proof fn lemma_holds_frame(
    s1: DataStore,
    s2: DataStore,
    n1: Seq<Seq<char>>,
    n2: Seq<Seq<char>>,
    h: int,
    v: JsonValue,
)
    requires
        s1.wf(),
        spec_holds_json(s1, n1, h, v),
        s2.buffers().len() >= s1.buffers().len(),
        forall|x: int| h <= x < s1.buffers().len() ==> #[trigger] s2.buffers()[x] == s1.buffers()[x],
        forall|x: int| h < x < s1.buffers().len() ==> #[trigger] s2.counts()[x] == s1.counts()[x],
        n2.no_duplicates(),
        n2.len() <= usize::MAX,
        spec_names_extend(n1, n2),
    ensures
        spec_holds_json(s2, n2, h, v),
    decreases v,
{
    s1.lemma_wf();
    match v {
        JsonValue::Object(entries) => {
            let e = entries@;
            let props = spec_table_props(s1, h);
            assert(spec_table_props(s2, h) == props);
            assert forall|j: int| 0 <= j < e.len() && (#[trigger] e[j]).1 !is Null implies spec_prop_id(
                n2,
                e[j].0@,
            ) == spec_prop_id(n1, e[j].0@) && n2.contains(e[j].0@) by {
                lemma_prop_id_stable(n1, n2, e[j].0@);
            }
            assert forall|id: usize| #[trigger] props.contains_key(id) implies exists|j: int|
                0 <= j < e.len() && (#[trigger] e[j]).1 !is Null && id == spec_prop_id(
                    n2,
                    e[j].0@,
                ) by {
                let j = choose|j: int|
                    0 <= j < e.len() && (#[trigger] e[j]).1 !is Null && id == spec_prop_id(
                        n1,
                        e[j].0@,
                    );
                assert(spec_prop_id(n2, e[j].0@) == spec_prop_id(n1, e[j].0@));
            }
            assert forall|j: int| 0 <= j < e.len() && (#[trigger] e[j]).1 !is Null implies {
                let p = props[spec_prop_id(n2, e[j].0@)];
                &&& p.off == 0
                &&& h < p.byte_ref < s2.buffers().len()
                &&& p.len == s2.buffers()[p.byte_ref as int].len()
                &&& s2.counts()[p.byte_ref as int] == 1
                &&& (e[j].1 !is Object ==> s2.buffers()[p.byte_ref as int]
                    == spec_json_value_bytes(e[j].1))
            } by {
                lemma_prop_id_stable(n1, n2, e[j].0@);
                let p = props[spec_prop_id(n1, e[j].0@)];
                assert(h < p.byte_ref < s1.buffers().len());
                assert(s2.buffers()[p.byte_ref as int] == s1.buffers()[p.byte_ref as int]);
                assert(s2.counts()[p.byte_ref as int] == s1.counts()[p.byte_ref as int]);
            }
            assert forall|j: int| 0 <= j < e.len() && (#[trigger] e[j]).1 is Object implies spec_holds_json(
                s2,
                n2,
                props[spec_prop_id(n2, e[j].0@)].byte_ref as int,
                e[j].1,
            ) by {
                lemma_prop_id_stable(n1, n2, e[j].0@);
                let c = props[spec_prop_id(n1, e[j].0@)].byte_ref as int;
                assert(h < c < s1.buffers().len());
                assert(decreases_to!(v => v->Object_0));
                assert(decreases_to!(entries => entries@));
                assert(decreases_to!(entries@ => entries@[j]));
                assert(decreases_to!(entries@[j] => entries@[j].1));
                lemma_holds_frame(s1, s2, n1, n2, c, e[j].1);
            }
        },
        _ => {},
    }
}

/// One more entry of a JSON object, with distinct keys, taken into account.
proof fn lemma_built_step(
    props1: Map<usize, DataProperty>,
    props2: Map<usize, DataProperty>,
    names1: Seq<Seq<char>>,
    names2: Seq<Seq<char>>,
    entries: Seq<(String, JsonValue)>,
    i: int,
)
    requires
        0 <= i < entries.len(),
        forall|a: int, b: int|
            0 <= a < b < entries.len() ==> (#[trigger] entries[a]).0@ != (#[trigger] entries[b]).0@,
        spec_built_from(props1, names1, entries.take(i)),
        names2.no_duplicates(),
        names2.len() <= usize::MAX,
        spec_names_extend(names1, names2),
        entries[i].1 is Null ==> props2 == props1,
        entries[i].1 !is Null ==> {
            &&& names2.contains(entries[i].0@)
            &&& props2 == props1.insert(
                spec_prop_id(names2, entries[i].0@),
                props2[spec_prop_id(names2, entries[i].0@)],
            )
            &&& props2[spec_prop_id(names2, entries[i].0@)].typ == spec_json_type(entries[i].1)
        },
    ensures
        spec_built_from(props2, names2, entries.take(i + 1)),
        entries[i].1 !is Null ==> !props1.contains_key(spec_prop_id(names2, entries[i].0@)),
        forall|j: int|
            0 <= j < i && (#[trigger] entries[j]).1 !is Null ==> props2[spec_prop_id(
                names2,
                entries[j].0@,
            )] == props1[spec_prop_id(names1, entries[j].0@)],
{
    let e1 = entries.take(i);
    let e2 = entries.take(i + 1);
    let ki = entries[i].0@;
    let idi = spec_prop_id(names2, ki);
    assert forall|j: int| 0 <= j < i && (#[trigger] e1[j]).1 !is Null implies {
        &&& names2.contains(e1[j].0@)
        &&& spec_prop_id(names2, e1[j].0@) == spec_prop_id(names1, e1[j].0@)
        &&& (entries[i].1 !is Null ==> spec_prop_id(names2, e1[j].0@) != idi)
        &&& props2[spec_prop_id(names2, entries[j].0@)] == props1[spec_prop_id(names1, entries[j].0@)]
    } by {
        assert(e1[j] == entries[j]);
        lemma_prop_id_stable(names1, names2, e1[j].0@);
        if entries[i].1 !is Null {
            assert(entries[j].0@ != entries[i].0@);
            lemma_prop_id_distinct(names2, e1[j].0@, ki);
        }
    }
    assert forall|j: int| 0 <= j < i && (#[trigger] entries[j]).1 !is Null implies props2[spec_prop_id(
        names2,
        entries[j].0@,
    )] == props1[spec_prop_id(names1, entries[j].0@)] by {
        assert(e1[j] == entries[j]);
    }
    if entries[i].1 !is Null {
        if props1.contains_key(idi) {
            let j = choose|j: int|
                0 <= j < e1.len() && (#[trigger] e1[j]).1 !is Null && idi == spec_prop_id(
                    names1,
                    e1[j].0@,
                );
            assert(false);
        }
    }
    assert forall|j: int|
        0 <= j < e2.len() && (#[trigger] e2[j]).1 !is Null implies {
        &&& names2.contains(e2[j].0@)
        &&& props2.contains_key(spec_prop_id(names2, e2[j].0@))
        &&& props2[spec_prop_id(names2, e2[j].0@)].typ == spec_json_type(e2[j].1)
    } by {
        if j < i {
            assert(e2[j] == e1[j]);
        } else {
            assert(e2[j] == entries[i]);
        }
    }
    assert forall|id: usize| #[trigger] props2.contains_key(id) implies exists|j: int|
        0 <= j < e2.len() && (#[trigger] e2[j]).1 !is Null && id == spec_prop_id(
            names2,
            e2[j].0@,
        ) by {
        if entries[i].1 !is Null && id == idi {
            assert(e2[i] == entries[i]);
        } else {
            assert(props1.contains_key(id));
            let j = choose|j: int|
                0 <= j < e1.len() && (#[trigger] e1[j]).1 !is Null && id == spec_prop_id(
                    names1,
                    e1[j].0@,
                );
            assert(e2[j] == e1[j]);
        }
    }
}

/// No bytes are the table of the empty map.
proof fn lemma_empty_table()
    ensures
        spec_well_keyed(Map::<usize, DataProperty>::empty()),
        spec_is_table_of(Seq::<u8>::empty(), Map::<usize, DataProperty>::empty()),
{
    let m = Map::<usize, DataProperty>::empty();
    let keys = Seq::<usize>::empty();
    assert(keys.to_set() =~= m.dom());
    assert(spec_listing(m, keys) =~= Seq::<DataProperty>::empty());
    assert(Seq::<u8>::empty() =~= spec_properties_to_bytes(spec_listing(m, keys)));
}

/// An object: a handle to the buffer of a `DataStore` that holds its property table
/// (the records of its properties, one after the other). The values of its
/// properties live in other buffers of the same store.
pub struct DataObject {
    handle: usize,
}

impl DataObject {
    /// The buffer that holds the object's property table.
    pub closed spec fn handle(self) -> usize {
        self.handle
    }

    /// The object's table in `store` is the table of a well-keyed map of properties,
    /// each of which refers to a buffer of the store.
    pub closed spec fn wf(self, store: DataStore) -> bool {
        &&& store.wf()
        &&& self.handle < store.buffers().len()
        &&& exists|m: Map<usize, DataProperty>|
            #![trigger spec_well_keyed(m)]
            {
                &&& spec_well_keyed(m)
                &&& spec_refs_within(m, store.buffers().len() as int)
                &&& spec_is_table_of(store.buffers()[self.handle as int], m)
            }
    }

    /// The properties of the object in `store`, by id: what its table reads back as.
    pub closed spec fn properties(self, store: DataStore) -> Map<usize, DataProperty> {
        spec_table_props(store, self.handle as int)
    }

    /// An object's properties are what its table reads back as.
    pub proof fn lemma_properties(self, store: DataStore)
        ensures
            self.properties(store) == spec_table_props(store, self.handle() as int),
    {
    }

    /// What a well-formed object guarantees: a well-formed store holding its table, and
    /// properties filed under their own ids, each referring to a buffer of the store.
    pub proof fn lemma_wf(self, store: DataStore)
        requires
            self.wf(store),
        ensures
            store.wf(),
            self.handle() < store.buffers().len(),
            spec_well_keyed(self.properties(store)),
            spec_refs_within(self.properties(store), store.buffers().len() as int),
            spec_is_table_of(store.buffers()[self.handle() as int], self.properties(store)),
    {
        let m = choose|m: Map<usize, DataProperty>|
            #![trigger spec_well_keyed(m)]
            {
                &&& spec_well_keyed(m)
                &&& spec_refs_within(m, store.buffers().len() as int)
                &&& spec_is_table_of(store.buffers()[self.handle as int], m)
            };
        lemma_propertymap_roundtrip(m, store.buffers()[self.handle as int]);
    }

    /// An object's properties depend on its own table alone: in a store that keeps that
    /// table and at least as many buffers, the object stays well-formed, with the same properties.
    pub proof fn lemma_frame(self, s1: DataStore, s2: DataStore)
        requires
            self.wf(s1),
            s2.wf(),
            s2.buffers().len() >= s1.buffers().len(),
            s2.buffers()[self.handle() as int] == s1.buffers()[self.handle() as int],
        ensures
            self.wf(s2),
            self.properties(s2) == self.properties(s1),
    {
        self.lemma_wf(s1);
        let m = self.properties(s1);
        assert(spec_well_keyed(m) && spec_refs_within(m, s2.buffers().len() as int)
            && spec_is_table_of(s2.buffers()[self.handle as int], m));
    }

    /// A new object with no properties: its (empty) table is added to `store`.
    pub fn new(store: &mut DataStore) -> (o: DataObject)
        requires
            old(store).wf(),
        ensures
            final(store).wf(),
            o.wf(*final(store)),
            o.properties(*final(store)) == Map::<usize, DataProperty>::empty(),
            o.handle() == old(store).buffers().len(),
            final(store).buffers() == old(store).buffers().push(Seq::<u8>::empty()),
            final(store).counts() == old(store).counts().push(0),
            final(store).names() == old(store).names(),
    {
        let bytes: Vec<u8> = Vec::new();
        proof {
            lemma_empty_table();
            assert(bytes@ =~= Seq::<u8>::empty());
            lemma_propertymap_roundtrip(Map::<usize, DataProperty>::empty(), bytes@);
        }
        let ba = store.push(bytes);
        let o = DataObject { handle: ba.byte_ref };
        proof {
            let m = Map::<usize, DataProperty>::empty();
            assert(store.buffers()[o.handle as int] == Seq::<u8>::empty());
            assert(spec_well_keyed(m) && spec_refs_within(m, store.buffers().len() as int)
                && spec_is_table_of(store.buffers()[o.handle as int], m));
        }
        o
    }

    /// The id of property name `name`, registering the name in `store` if it is new.
    pub fn lookup_prop(store: &mut DataStore, name: &str) -> (id: usize)
        requires
            old(store).wf(),
        ensures
            final(store).wf(),
            final(store).buffers() == old(store).buffers(),
            final(store).counts() == old(store).counts(),
            final(store).names() == spec_names_after(old(store).names(), name@),
            id == spec_prop_id(final(store).names(), name@),
    {
        store.lookup_prop(name)
    }

    /// The property name registered under `i` in `store`.
    pub fn lookup_prop_string(&self, store: &DataStore, i: usize) -> (name: String)
        requires
            store.wf(),
            i < store.names().len(),
        ensures
            name@ == store.names()[i as int],
    {
        store.lookup_prop_string(i)
    }

    /// A reference to the object's property table in `store` (not a copy: it reads
    /// whatever the table holds at the time).
    pub fn bytes(&self, store: &DataStore) -> (r: BytesRef)
        requires
            self.wf(*store),
        ensures
            r == (BytesRef {
                byte_ref: self.handle(),
                off: 0,
                len: store.buffers()[self.handle() as int].len() as usize,
            }),
            spec_is_table_of(store.buffers()[r.byte_ref as int], self.properties(*store)),
            spec_well_keyed(self.properties(*store)),
    {
        proof {
            self.lemma_wf(*store);
        }
        let n = store.buffer_len(self.handle);
        BytesRef { byte_ref: self.handle, off: 0, len: n }
    }

    /// Files the property named `key`, of type `typ`, whose value is the bytes that
    /// `bytesref` refers to, in place of any property with that name. The value's
    /// buffer gains a reference; the buffer of the displaced property, if any, loses one.
    pub fn set_property(&mut self, store: &mut DataStore, key: &str, typ: u8, bytesref: BytesRef)
        requires
            old(self).wf(*old(store)),
            bytesref.byte_ref < old(store).buffers().len(),
        ensures
            *final(self) == *old(self),
            spec_set(*old(self), *old(store), *final(store), key@, typ, bytesref),
    {
        proof {
            old(self).lemma_wf(*old(store));
        }
        let ghost old_props = self.properties(*store);
        let h = self.handle;
        store.incr(bytesref.byte_ref);
        let id = store.lookup_prop(key);
        let dp = DataProperty::new(id, typ, bytesref.byte_ref, bytesref.off, bytesref.len);
        let n = store.buffer_len(h);
        let cur = store.get(BytesRef { byte_ref: h, off: 0, len: n });
        proof {
            assert(cur@ =~= old(store).buffers()[h as int]);
            lemma_propertymap_roundtrip(old_props, cur@);
        }
        let mut props = bytes_to_propertymap(cur, 0, n);
        let displaced = props.insert(id, dp);
        match displaced {
            Some(old_dp) => {
                store.decr(old_dp.byte_ref);
            },
            None => {},
        }
        let ghost m = props@;
        let table = propertymap_to_bytes(props);
        store.swap_handle_pointer(h, table);
        proof {
            assert(spec_well_keyed(m));
            assert(spec_refs_within(m, store.buffers().len() as int));
            assert(store.buffers()[h as int] == table@);
            assert(spec_well_keyed(m) && spec_refs_within(m, store.buffers().len() as int)
                && spec_is_table_of(store.buffers()[h as int], m));
            lemma_propertymap_roundtrip(m, table@);
        }
    }

    /// Adds `value` to the store and files it as the property named `key`, of type `typ`.
    fn put_value(&mut self, store: &mut DataStore, key: &str, typ: u8, value: Vec<u8>)
        requires
            old(self).wf(*old(store)),
        ensures
            *final(self) == *old(self),
            spec_put(*old(self), *old(store), *final(store), key@, typ, value@),
    {
        let ghost s1 = *store;
        let ghost v = value@;
        let ba = store.push(value);
        proof {
            self.lemma_frame(s1, *store);
        }
        self.set_property(store, key, typ, ba);
        proof {
            assert(store.buffers()[s1.buffers().len() as int] == v);
        }
    }

    /// Files the string `val` (its UTF-8 bytes) as the property named `key`.
    pub fn put_str(&mut self, store: &mut DataStore, key: &str, val: &str)
        requires
            old(self).wf(*old(store)),
        ensures
            *final(self) == *old(self),
            spec_put(*old(self), *old(store), *final(store), key@, TYPE_STRING, val.spec_bytes()),
    {
        let value = slice_to_vec(val.as_bytes());
        self.put_value(store, key, TYPE_STRING, value);
    }

    /// Files the boolean `val` (one byte: 1 for true, 0 for false) as the property named `key`.
    pub fn put_bool(&mut self, store: &mut DataStore, key: &str, val: bool)
        requires
            old(self).wf(*old(store)),
        ensures
            *final(self) == *old(self),
            spec_put(
                *old(self),
                *old(store),
                *final(store),
                key@,
                TYPE_BOOLEAN,
                seq![if val { 1u8 } else { 0u8 }],
            ),
    {
        let mut value: Vec<u8> = Vec::new();
        value.push(if val { 1u8 } else { 0u8 });
        assert(value@ =~= seq![if val { 1u8 } else { 0u8 }]);
        self.put_value(store, key, TYPE_BOOLEAN, value);
    }

    /// Files the integer `val` (its eight little-endian bytes) as the property named `key`.
    pub fn put_i64(&mut self, store: &mut DataStore, key: &str, val: i64)
        requires
            old(self).wf(*old(store)),
        ensures
            *final(self) == *old(self),
            spec_put(*old(self), *old(store), *final(store), key@, TYPE_INT, spec_i64_to_bytes(val)),
    {
        let value = i64_to_bytes(val);
        self.put_value(store, key, TYPE_INT, value);
    }

    /// Files a list as the property named `key`. Lists are not stored yet: the value
    /// filed is the boolean `true` (one byte, 1), under the list type tag.
    pub fn put_list(&mut self, store: &mut DataStore, key: &str, val: &JsonValue)
        requires
            old(self).wf(*old(store)),
        ensures
            *final(self) == *old(self),
            spec_put(*old(self), *old(store), *final(store), key@, TYPE_LIST, seq![1u8]),
    {
        let mut value: Vec<u8> = Vec::new();
        value.push(1u8);
        assert(value@ =~= seq![1u8]);
        self.put_value(store, key, TYPE_LIST, value);
    }

    /// Builds an object from the JSON object `val` and files its table as the
    /// property named `key`, of the object type.
    pub fn put_object(&mut self, store: &mut DataStore, key: &str, val: &JsonValue)
        requires
            old(self).wf(*old(store)),
            val is Object,
            spec_json_wf(*val),
        ensures
            *final(self) == *old(self),
            final(store).wf(),
            final(self).wf(*final(store)),
            spec_names_extend(old(store).names(), final(store).names()),
            final(store).names().contains(key@),
            final(store).buffers().len() > old(store).buffers().len(),
            final(store).counts()[old(store).buffers().len() as int] == 1,
            forall|i: int|
                0 <= i < old(store).buffers().len() && i != old(self).handle()
                    ==> #[trigger] final(store).buffers()[i] == old(store).buffers()[i],
            forall|i: int|
                0 <= i < old(store).buffers().len() ==> #[trigger] final(store).counts()[i]
                    == spec_counts_displace(
                    old(store).counts(),
                    old(self).properties(*old(store)),
                    spec_prop_id(final(store).names(), key@),
                )[i],
            final(self).properties(*final(store)) == old(self).properties(*old(store)).insert(
                spec_prop_id(final(store).names(), key@),
                DataProperty {
                    id: spec_prop_id(final(store).names(), key@),
                    typ: TYPE_OBJECT,
                    byte_ref: old(store).buffers().len() as usize,
                    off: 0,
                    len: final(store).buffers()[old(store).buffers().len() as int].len() as usize,
                },
            ),
            spec_holds_json(
                *final(store),
                final(store).names(),
                old(store).buffers().len() as int,
                *val,
            ),
            spec_put_object(*old(self), *old(store), *final(store), key@, *val),
        decreases *val, 2nat,
    {
        let ghost s0 = *store;
        proof {
            self.lemma_wf(s0);
            s0.lemma_wf();
        }
        let o = DataObject::from_json(store, val);
        proof {
            self.lemma_frame(s0, *store);
        }
        let ba = o.bytes(store);
        let ghost s1 = *store;
        self.set_property(store, key, TYPE_OBJECT, ba);
        proof {
            lemma_names_after(s1.names(), key@);
            s1.lemma_wf();
            store.lemma_wf();
            assert(self.properties(s1) == self.properties(s0));
            assert(store.buffers()[o.handle as int] == s1.buffers()[o.handle as int]);
            assert forall|i: int|
                0 <= i < s0.buffers().len() implies #[trigger] store.counts()[i]
                == spec_counts_displace(
                s0.counts(),
                self.properties(s0),
                spec_prop_id(store.names(), key@),
            )[i] by {
                assert(s1.counts()[i] == s0.counts()[i]);
            }
            let n = s0.buffers().len() as int;
            assert forall|x: int| n < x < s1.buffers().len() implies #[trigger] store.counts()[x]
                == s1.counts()[x] by {
                let id = spec_prop_id(store.names(), key@);
                if self.properties(s1).contains_key(id) {
                    assert(self.properties(s1)[id].byte_ref < n);
                }
            }
            lemma_holds_frame(s1, *store, s1.names(), store.names(), n, *val);
        }
    }

    /// Builds an object from the JSON object `value`: each entry becomes a property
    /// named by its key, of the type of its value (strings, booleans, integers, floats,
    /// nested objects and lists); entries whose value is null are skipped.
    #[verifier::rlimit(60)]
    pub fn from_json(store: &mut DataStore, value: &JsonValue) -> (o: DataObject)
        requires
            old(store).wf(),
            *value is Object,
            spec_json_wf(*value),
        ensures
            final(store).wf(),
            o.wf(*final(store)),
            o.handle() == old(store).buffers().len(),
            final(store).buffers().len() > old(store).buffers().len(),
            forall|i: int|
                0 <= i < old(store).buffers().len() ==> #[trigger] final(store).buffers()[i]
                    == old(store).buffers()[i],
            forall|i: int|
                0 <= i < old(store).buffers().len() ==> #[trigger] final(store).counts()[i]
                    == old(store).counts()[i],
            spec_names_extend(old(store).names(), final(store).names()),
            final(store).counts()[o.handle() as int] == 0,
            spec_built_from(o.properties(*final(store)), final(store).names(), spec_entries(*value)),
            spec_values_from(
                o.properties(*final(store)),
                final(store).names(),
                *final(store),
                o.handle(),
                spec_entries(*value),
            ),
            spec_holds_json(*final(store), final(store).names(), o.handle() as int, *value),
        decreases *value, 1nat,
    {
        let ghost s0 = *store;
        let mut o = DataObject::new(store);
        match value {
            JsonValue::Object(entries) => {
                let n = entries.len();
                proof {
                    s0.lemma_wf();
                    store.lemma_wf();
                    reveal_with_fuel(spec_json_wf, 2);
                    assert(entries@.take(0) =~= Seq::<(String, JsonValue)>::empty());
                    assert(spec_names_extend(s0.names(), store.names()));
                }
                for i in 0..n
                    invariant
                        n == entries@.len(),
                        *value == JsonValue::Object(*entries),
                        spec_json_wf(*value),
                        forall|a: int, b: int|
                            0 <= a < b < entries@.len() ==> (#[trigger] entries@[a]).0@ != (
                            #[trigger] entries@[b]).0@,
                        forall|a: int|
                            0 <= a < entries@.len() ==> spec_json_wf(#[trigger] entries@[a].1),
                        s0.counts().len() == s0.buffers().len(),
                        store.wf(),
                        o.wf(*store),
                        o.handle() == s0.buffers().len(),
                        store.buffers().len() > s0.buffers().len(),
                        forall|j: int|
                            0 <= j < s0.buffers().len() ==> #[trigger] store.buffers()[j]
                                == s0.buffers()[j],
                        forall|j: int|
                            0 <= j < s0.buffers().len() ==> #[trigger] store.counts()[j]
                                == s0.counts()[j],
                        spec_names_extend(s0.names(), store.names()),
                        spec_built_from(o.properties(*store), store.names(), entries@.take(i as int)),
                        store.counts()[o.handle() as int] == 0,
                        spec_values_from(
                            o.properties(*store),
                            store.names(),
                            *store,
                            o.handle(),
                            entries@.take(i as int),
                        ),
                        forall|j: int|
                            0 <= j < i && (#[trigger] entries@[j]).1 is Object ==> spec_holds_json(
                                *store,
                                store.names(),
                                o.properties(*store)[spec_prop_id(
                                    store.names(),
                                    entries@[j].0@,
                                )].byte_ref as int,
                                entries@[j].1,
                            ),
                {
                    let k = &entries[i].0;
                    let v = &entries[i].1;
                    let ghost s1 = *store;
                    let ghost p1 = o.properties(*store);
                    proof {
                        store.lemma_wf();
                        assert(spec_json_wf(entries@[i as int].1));
                        assert(decreases_to!(*value => (*value)->Object_0));
                        assert(decreases_to!(*entries => entries@));
                        assert(decreases_to!(entries@ => entries@[i as int]));
                        assert(decreases_to!(entries@[i as int] => entries@[i as int].1));
                        assert(decreases_to!(*value => entries@[i as int].1));
                    }
                    match v {
                        JsonValue::Str(s) => o.put_str(store, k.as_str(), s.as_str()),
                        JsonValue::Bool(b) => o.put_bool(store, k.as_str(), *b),
                        JsonValue::Int(x) => o.put_i64(store, k.as_str(), *x),
                        JsonValue::Float(bits) => {
                            let bytes = i64_to_bytes(#[verifier::truncate] (*bits as i64));
                            o.put_value(store, k.as_str(), TYPE_FLOAT, bytes);
                        },
                        JsonValue::Object(_) => o.put_object(store, k.as_str(), v),
                        JsonValue::Array(_) => o.put_list(store, k.as_str(), v),
                        JsonValue::Null => {},
                    }
                    proof {
                        store.lemma_wf();
                        s1.lemma_wf();
                        lemma_names_after(s1.names(), k@);
                        lemma_built_step(
                            p1,
                            o.properties(*store),
                            s1.names(),
                            store.names(),
                            entries@,
                            i as int,
                        );
                        assert forall|j: int| 0 <= j < s1.buffers().len() implies #[trigger] store.counts()[j]
                            == s1.counts()[j] by {
                            let id = spec_prop_id(store.names(), k@);
                            let m = s1.buffers().len() as usize;
                            if *v is Null {
                                assert(*store == s1);
                            } else if *v is Object {
                                assert(!p1.contains_key(id));
                                assert(spec_counts_displace(s1.counts(), p1, id) == s1.counts());
                            } else {
                                assert(!p1.contains_key(id));
                                assert(store.counts() == spec_counts_after_set(s1.counts().push(0), m, p1, id));
                                assert(j < m);
                                assert(s1.counts().push(0)[j] == s1.counts()[j]);
                                assert(spec_counts_after_set(s1.counts().push(0), m, p1, id)[j] == s1.counts()[j]);
                            }
                        }
                        assert forall|j: int| 0 <= j < s0.buffers().len() implies #[trigger] store.counts()[j]
                            == s0.counts()[j] by {
                            assert(s1.counts()[j] == s0.counts()[j]);
                            assert(store.counts()[j] == s1.counts()[j]);
                        }
                        assert(store.counts()[o.handle as int] == s1.counts()[o.handle as int]);
                        if *v !is Null {
                            let m = s1.buffers().len() as usize;
                            let id = spec_prop_id(store.names(), k@);
                            let p = o.properties(*store)[id];
                            assert(o.handle < m);
                            assert(store.buffers()[m as int].len() <= usize::MAX);
                            if *v is Object {
                                assert(p.byte_ref == m);
                            } else {
                                assert(!p1.contains_key(id));
                                assert(store.counts() == spec_counts_after_set(s1.counts().push(0), m, p1, id));
                                assert(store.counts()[m as int] == 1);
                                assert(p.byte_ref == m);
                                assert(p.off == 0);
                                assert(p.len == store.buffers()[m as int].len());
                                assert(store.buffers()[m as int] == spec_json_value_bytes(*v));
                            }
                        }
                        lemma_values_step(
                            p1,
                            o.properties(*store),
                            s1.names(),
                            store.names(),
                            s1,
                            *store,
                            o.handle,
                            entries@,
                            i as int,
                        );
                        assert forall|j: int|
                            0 <= j < i + 1 && (#[trigger] entries@[j]).1 is Object implies spec_holds_json(
                            *store,
                            store.names(),
                            o.properties(*store)[spec_prop_id(store.names(), entries@[j].0@)].byte_ref as int,
                            entries@[j].1,
                        ) by {
                            if j < i {
                                assert(entries@.take(i as int)[j] == entries@[j]);
                                let c = p1[spec_prop_id(s1.names(), entries@[j].0@)].byte_ref as int;
                                assert(o.handle < c < s1.buffers().len());
                                lemma_holds_frame(s1, *store, s1.names(), store.names(), c, entries@[j].1);
                            }
                        }
                    }
                }
                proof {
                    assert(entries@.take(n as int) =~= entries@);
                    assert(o.properties(*store) == spec_table_props(*store, o.handle as int));
                }
            },
            _ => {},
        }
        o
    }
}

} // verus!
