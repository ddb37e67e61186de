use vstd::prelude::*;
use vstd::bytes::{
    lemma_auto_spec_u64_to_from_le_bytes, spec_u64_from_le_bytes, spec_u64_to_le_bytes,
    u64_from_le_bytes, u64_to_le_bytes,
};
use vstd::slice::slice_subrange;
use std::collections::HashMap;
use crate::dataproperty::{
    lemma_property_roundtrip, spec_property_from_bytes, spec_property_to_bytes, DataProperty,
    PROPERTY_SIZE,
};

verus! {

/// The eight little-endian bytes of a signed 64-bit integer (two's complement).
pub open spec fn spec_i64_to_bytes(val: i64) -> Seq<u8> {
    spec_u64_to_le_bytes(val as u64)
}

/// The signed 64-bit integer whose little-endian bytes start at position `off`.
pub open spec fn spec_bytes_to_i64(bytes: Seq<u8>, off: int) -> i64 {
    spec_u64_from_le_bytes(bytes.subrange(off, off + 8)) as i64
}

/// Encodes `val` as its eight little-endian bytes.
pub fn i64_to_bytes(val: i64) -> (bytes: Vec<u8>)
    ensures
        bytes@ == spec_i64_to_bytes(val),
        bytes@.len() == 8,
{
    u64_to_le_bytes(val as u64)
}

/// Decodes the signed 64-bit integer stored little-endian in `bytes[off..off + 8]`.
pub fn bytes_to_i64(bytes: &Vec<u8>, off: usize) -> (val: i64)
    requires
        off + 8 <= bytes.len(),
    ensures
        val == spec_bytes_to_i64(bytes@, off as int),
{
    let s = slice_subrange(bytes.as_slice(), off, off + 8);
    let v = u64_from_le_bytes(s);
    #[verifier::truncate] (v as i64)
}

/// Decoding what `i64_to_bytes` wrote, wherever it stands in a buffer, gives back the integer;
/// and encoding the integer read from eight bytes gives back those bytes.
pub proof fn lemma_i64_roundtrip(val: i64, pre: Seq<u8>, post: Seq<u8>, eight: Seq<u8>)
    requires
        eight.len() == 8,
    ensures
        spec_i64_to_bytes(val).len() == 8,
        spec_bytes_to_i64(pre + spec_i64_to_bytes(val) + post, pre.len() as int) == val,
        spec_i64_to_bytes(spec_bytes_to_i64(eight, 0)) == eight,
{
    lemma_auto_spec_u64_to_from_le_bytes();
    let e = spec_i64_to_bytes(val);
    assert(e.len() == 8);
    let all = pre + e + post;
    assert(all.subrange(pre.len() as int, pre.len() as int + 8) =~= e);
    let u = val as u64;
    assert((u as i64) == val) by (bit_vector)
        requires
            u == val as u64,
    ;
    assert(eight.subrange(0, 8) =~= eight);
    let x = spec_u64_from_le_bytes(eight);
    assert(((x as i64) as u64) == x) by (bit_vector);
}

// ---------------------------------------------------------------------------
// Property tables: consecutive property records.
// ---------------------------------------------------------------------------

/// The records of the properties of `props`, one after the other, in order.
pub open spec fn spec_properties_to_bytes(props: Seq<DataProperty>) -> Seq<u8>
    decreases props.len(),
{
    if props.len() == 0 {
        Seq::empty()
    } else {
        spec_properties_to_bytes(props.drop_last()) + spec_property_to_bytes(props.last())
    }
}

/// How many records a scan reads that starts at `off` and starts a new record
/// at every position below `end`, stepping by `PROPERTY_SIZE`.
pub open spec fn spec_record_count(off: int, end: int) -> nat {
    if off < end {
        ((end - off + PROPERTY_SIZE - 1) / PROPERTY_SIZE as int) as nat
    } else {
        0
    }
}

/// The properties read by such a scan of `bytes`: the records starting at
/// `off`, `off + PROPERTY_SIZE`, `off + 2 * PROPERTY_SIZE`, ..., each below `end`.
pub open spec fn spec_records(bytes: Seq<u8>, off: int, end: int) -> Seq<DataProperty> {
    Seq::new(
        spec_record_count(off, end),
        |k: int| spec_property_from_bytes(bytes, off + k * PROPERTY_SIZE),
    )
}

/// Every record that such a scan reads lies inside a buffer of `blen` bytes.
pub open spec fn spec_records_fit(blen: int, off: int, end: int) -> bool {
    spec_record_count(off, end) == 0 || off + spec_record_count(off, end) * PROPERTY_SIZE <= blen
}

/// A scan starting at `off` reads one more record exactly when its position is below `end`.
pub proof fn lemma_record_count(off: int, end: int, k: int)
    requires
        0 <= k,
    ensures
        (k < spec_record_count(off, end)) <==> (off + k * PROPERTY_SIZE < end),
{
    if off < end {
        let c = spec_record_count(off, end) as int;
        assert(c == (end - off + 32) / 33);
        assert((k < (end - off + 32) / 33) <==> (off + k * 33 < end)) by (nonlinear_arith)
            requires
                off < end,
                0 <= k,
        ;
    } else {
        assert(off + k * 33 >= off) by (nonlinear_arith)
            requires
                0 <= k,
        ;
    }
}

/// A table of `n` records is `n * PROPERTY_SIZE` bytes long.
pub proof fn lemma_properties_to_bytes_len(props: Seq<DataProperty>)
    ensures
        spec_properties_to_bytes(props).len() == props.len() * PROPERTY_SIZE,
    decreases props.len(),
{
    if props.len() > 0 {
        lemma_properties_to_bytes_len(props.drop_last());
        lemma_property_roundtrip(props.last(), Seq::empty(), Seq::empty());
    }
}

/// The `k`-th record of a table, read from wherever the table stands, is the `k`-th property.
pub proof fn lemma_properties_to_bytes_index(
    props: Seq<DataProperty>,
    pre: Seq<u8>,
    post: Seq<u8>,
    k: int,
)
    requires
        0 <= k < props.len(),
    ensures
        spec_property_from_bytes(
            pre + spec_properties_to_bytes(props) + post,
            pre.len() + k * PROPERTY_SIZE,
        ) == props[k],
    decreases props.len(),
{
    let init = props.drop_last();
    let last_rec = spec_property_to_bytes(props.last());
    lemma_properties_to_bytes_len(init);
    assert(pre + spec_properties_to_bytes(props) + post =~= pre + spec_properties_to_bytes(init) + (
    last_rec + post));
    if k < props.len() - 1 {
        lemma_properties_to_bytes_index(init, pre, last_rec + post, k);
    } else {
        assert(pre + spec_properties_to_bytes(init) + last_rec + post =~= pre
            + spec_properties_to_bytes(props) + post);
        assert((pre + spec_properties_to_bytes(init)).len() == pre.len() + k * PROPERTY_SIZE);
        lemma_property_roundtrip(props.last(), pre + spec_properties_to_bytes(init), post);
    }
}

/// Scanning a whole table from its start reads back exactly the properties it was written from.
pub proof fn lemma_propertyvec_roundtrip(props: Seq<DataProperty>)
    ensures
        spec_properties_to_bytes(props).len() == props.len() * PROPERTY_SIZE,
        spec_records_fit(
            spec_properties_to_bytes(props).len() as int,
            0,
            spec_properties_to_bytes(props).len() as int,
        ),
        spec_records(
            spec_properties_to_bytes(props),
            0,
            spec_properties_to_bytes(props).len() as int,
        ) == props,
{
    let bytes = spec_properties_to_bytes(props);
    lemma_properties_to_bytes_len(props);
    let n = props.len() as int;
    let c = spec_record_count(0, bytes.len() as int);
    lemma_record_count(0, bytes.len() as int, n);
    if n > 0 {
        lemma_record_count(0, bytes.len() as int, n - 1);
    }
    assert(c == n);
    let recs = spec_records(bytes, 0, bytes.len() as int);
    assert forall|k: int| 0 <= k < n implies recs[k] == props[k] by {
        lemma_properties_to_bytes_index(props, Seq::empty(), Seq::empty(), k);
        assert(Seq::<u8>::empty() + bytes + Seq::<u8>::empty() =~= bytes);
    }
    assert(recs =~= props);
}

/// Writes the records of `props`, in order, one after the other.
pub fn propertyvec_to_bytes(props: Vec<DataProperty>) -> (bytes: Vec<u8>)
    ensures
        bytes@ == spec_properties_to_bytes(props@),
{
    let mut bytes: Vec<u8> = Vec::new();
    let n = props.len();
    for i in 0..n
        invariant
            n == props@.len(),
            bytes@ == spec_properties_to_bytes(props@.take(i as int)),
    {
        let mut rec = props[i].to_bytes();
        bytes.append(&mut rec);
        assert(props@.take(i + 1).drop_last() =~= props@.take(i as int));
    }
    assert(props@.take(n as int) =~= props@);
    bytes
}

/// Reads the properties whose records start at `off`, `off + PROPERTY_SIZE`, ...,
/// for every such position below `len - off`.
pub fn bytes_to_propertyvec(bytes: Vec<u8>, off: usize, len: usize) -> (props: Vec<DataProperty>)
    requires
        off <= len,
        spec_records_fit(bytes.len() as int, off as int, len - off),
    ensures
        props@ == spec_records(bytes@, off as int, len - off),
{
    let mut vec: Vec<DataProperty> = Vec::new();
    let n = len - off;
    let mut i = off;
    let ghost end = n as int;
    let ghost count = spec_record_count(off as int, end);
    let ghost mut k: int = 0;
    while i < n
        invariant
            n == len - off,
            end == n,
            count == spec_record_count(off as int, end),
            spec_records_fit(bytes.len() as int, off as int, end),
            0 <= k <= count,
            i == off + k * PROPERTY_SIZE,
            vec@ == spec_records(bytes@, off as int, end).take(k),
        decreases count - k,
    {
        proof {
            lemma_record_count(off as int, end, k);
            lemma_record_count(off as int, end, count as int);
            assert(k + 1 <= count);
            assert(off + (k + 1) * 33 <= off + count * 33) by (nonlinear_arith)
                requires
                    k + 1 <= count,
            ;
        }
        let dp: DataProperty = DataProperty::from_bytes(&bytes, i);
        vec.push(dp);
        i = i + PROPERTY_SIZE;
        proof {
            assert(spec_records(bytes@, off as int, end).take(k + 1) =~= spec_records(
                bytes@,
                off as int,
                end,
            ).take(k).push(dp));
            k = k + 1;
        }
    }
    proof {
        lemma_record_count(off as int, end, k);
        assert(k == count);
        assert(spec_records(bytes@, off as int, end).take(k) =~= spec_records(
            bytes@,
            off as int,
            end,
        ));
    }
    vec
}

// ---------------------------------------------------------------------------
// Property maps: a table keyed by property id.
// ---------------------------------------------------------------------------

/// The map that results from inserting `props`, in order, under their ids:
/// where two properties share an id, the later one stays.
pub open spec fn spec_map_of(props: Seq<DataProperty>) -> Map<usize, DataProperty>
    decreases props.len(),
{
    if props.len() == 0 {
        Map::empty()
    } else {
        spec_map_of(props.drop_last()).insert(props.last().id, props.last())
    }
}

/// Every property of `m` is filed under its own id.
pub open spec fn spec_well_keyed(m: Map<usize, DataProperty>) -> bool {
    forall|k: usize| #[trigger] m.contains_key(k) ==> m[k].id == k
}

/// The properties of `m` listed in the order of `keys`.
pub open spec fn spec_listing(m: Map<usize, DataProperty>, keys: Seq<usize>) -> Seq<DataProperty> {
    keys.map_values(|k: usize| m[k])
}

/// `bytes` is a table of the properties of `m`: their records one after the other,
/// each key of `m` exactly once, in some order.
pub open spec fn spec_is_table_of(bytes: Seq<u8>, m: Map<usize, DataProperty>) -> bool {
    exists|keys: Seq<usize>|
        #![trigger spec_listing(m, keys)]
        {
            &&& keys.no_duplicates()
            &&& keys.to_set() == m.dom()
            &&& bytes == spec_properties_to_bytes(spec_listing(m, keys))
        }
}

/// Writes the records of the properties of `props`, one after the other, in the
/// order in which the map hands them out (which the map decides).
pub fn propertymap_to_bytes(props: HashMap<usize, DataProperty>) -> (bytes: Vec<u8>)
    ensures
        spec_is_table_of(bytes@, props@),
{
    let mut bytes: Vec<u8> = Vec::new();
    let ghost m = props@;
    let ghost mut keys: Seq<usize> = Seq::empty();
    for (key, val) in it: props.iter()
        invariant
            m == props@,
            it.seq().len() == m.dom().len(),
            it.seq().no_duplicates(),
            forall|i: int|
                #![trigger it.seq()[i]]
                0 <= i < it.seq().len() ==> m.contains_key(*it.seq()[i].0) && m[*it.seq()[i].0]
                    == *it.seq()[i].1,
            keys.len() == it.index(),
            forall|i: int| 0 <= i < keys.len() ==> keys[i] == *it.seq()[i].0,
            keys.no_duplicates(),
            forall|i: int| 0 <= i < keys.len() ==> m.contains_key(#[trigger] keys[i]),
            bytes@ == spec_properties_to_bytes(spec_listing(m, keys)),
    {
        proof {
            let idx = it.index() as int;
            assert forall|j: int| 0 <= j < keys.len() implies keys[j] != *key by {
                assert(it.seq()[j] != it.seq()[idx]);
            }
        }
        let mut rec = val.to_bytes();
        bytes.append(&mut rec);
        proof {
            let old_keys = keys;
            keys = keys.push(*key);
            assert(spec_listing(m, keys).drop_last() =~= spec_listing(m, old_keys));
        }
    }
    proof {
        keys.unique_seq_to_set();
        vstd::set_lib::lemma_subset_equality(keys.to_set(), m.dom());
    }
    bytes
}

/// Reads the properties whose records start at `off`, `off + PROPERTY_SIZE`, ...,
/// for every such position below `len - off`, and files each under its id
/// (a later record replaces an earlier one with the same id).
pub fn bytes_to_propertymap(bytes: Vec<u8>, off: usize, len: usize) -> (map: HashMap<
    usize,
    DataProperty,
>)
    requires
        off <= len,
        spec_records_fit(bytes.len() as int, off as int, len - off),
    ensures
        map@ == spec_map_of(spec_records(bytes@, off as int, len - off)),
{
    let mut map: HashMap<usize, DataProperty> = HashMap::new();
    let n = len - off;
    let mut i = off;
    let ghost end = n as int;
    let ghost count = spec_record_count(off as int, end);
    let ghost mut k: int = 0;
    while i < n
        invariant
            n == len - off,
            end == n,
            count == spec_record_count(off as int, end),
            spec_records_fit(bytes.len() as int, off as int, end),
            0 <= k <= count,
            i == off + k * PROPERTY_SIZE,
            map@ == spec_map_of(spec_records(bytes@, off as int, end).take(k)),
        decreases count - k,
    {
        proof {
            lemma_record_count(off as int, end, k);
            lemma_record_count(off as int, end, count as int);
            assert(off + (k + 1) * 33 <= off + count * 33) by (nonlinear_arith)
                requires
                    k + 1 <= count,
            ;
        }
        let dp: DataProperty = DataProperty::from_bytes(&bytes, i);
        map.insert(dp.id, dp);
        i = i + PROPERTY_SIZE;
        proof {
            let recs = spec_records(bytes@, off as int, end);
            assert(recs.take(k + 1).drop_last() =~= recs.take(k));
            assert(recs.take(k + 1).last() == dp);
            k = k + 1;
        }
    }
    proof {
        lemma_record_count(off as int, end, k);
        assert(spec_records(bytes@, off as int, end).take(k) =~= spec_records(
            bytes@,
            off as int,
            end,
        ));
    }
    map
}

/// Every map built by filing properties under their ids files each under its own id.
pub proof fn lemma_map_of_well_keyed(props: Seq<DataProperty>)
    ensures
        spec_well_keyed(spec_map_of(props)),
        spec_map_of(props).dom().finite(),
    decreases props.len(),
{
    if props.len() > 0 {
        lemma_map_of_well_keyed(props.drop_last());
    }
}

/// Filing the properties of a well-keyed map, listed by some of its keys, rebuilds
/// the part of the map under those keys.
pub proof fn lemma_map_of_listing(m: Map<usize, DataProperty>, keys: Seq<usize>)
    requires
        spec_well_keyed(m),
        forall|i: int| 0 <= i < keys.len() ==> m.contains_key(#[trigger] keys[i]),
    ensures
        spec_map_of(spec_listing(m, keys)) == m.restrict(keys.to_set()),
    decreases keys.len(),
{
    if keys.len() > 0 {
        let init = keys.drop_last();
        lemma_map_of_listing(m, init);
        assert(spec_listing(m, keys).drop_last() =~= spec_listing(m, init));
        let k = keys.last();
        assert(m.contains_key(k));
        assert(keys.to_set() =~= init.to_set().insert(k)) by {
            assert(keys =~= init.push(k));
            init.lemma_push_to_set_commute(k);
        }
        assert(m.restrict(keys.to_set()) =~= m.restrict(init.to_set()).insert(k, m[k]));
    } else {
        assert(keys.to_set() =~= Set::<usize>::empty());
        assert(m.restrict(keys.to_set()) =~= Map::<usize, DataProperty>::empty());
    }
}

/// Reading back a whole table of a well-keyed map, from its start to its end,
/// gives back the map, whatever order the records were written in.
pub proof fn lemma_propertymap_roundtrip(m: Map<usize, DataProperty>, bytes: Seq<u8>)
    requires
        spec_well_keyed(m),
        spec_is_table_of(bytes, m),
    ensures
        bytes.len() == m.len() * PROPERTY_SIZE,
        spec_records_fit(bytes.len() as int, 0, bytes.len() as int),
        spec_map_of(spec_records(bytes, 0, bytes.len() as int)) == m,
{
    let keys = choose|keys: Seq<usize>|
        #![trigger spec_listing(m, keys)]
        {
            &&& keys.no_duplicates()
            &&& keys.to_set() == m.dom()
            &&& bytes == spec_properties_to_bytes(spec_listing(m, keys))
        };
    let listing = spec_listing(m, keys);
    lemma_propertyvec_roundtrip(listing);
    keys.unique_seq_to_set();
    assert forall|i: int| 0 <= i < keys.len() implies m.contains_key(#[trigger] keys[i]) by {
        assert(keys.to_set().contains(keys[i]));
    }
    lemma_map_of_listing(m, keys);
    assert(m.restrict(m.dom()) =~= m);
}

/// The table of two lists of properties, one after the other, is the table of the
/// first followed by the table of the second.
pub proof fn lemma_properties_to_bytes_append(a: Seq<DataProperty>, b: Seq<DataProperty>)
    ensures
        spec_properties_to_bytes(a + b) == spec_properties_to_bytes(a) + spec_properties_to_bytes(
            b,
        ),
    decreases b.len(),
{
    if b.len() == 0 {
        assert(a + b =~= a);
        assert(spec_properties_to_bytes(a) + spec_properties_to_bytes(b) =~= spec_properties_to_bytes(
            a,
        ));
    } else {
        lemma_properties_to_bytes_append(a, b.drop_last());
        assert((a + b).drop_last() =~= a + b.drop_last());
        assert((a + b).last() == b.last());
        assert(spec_properties_to_bytes(a) + spec_properties_to_bytes(b.drop_last())
            + spec_property_to_bytes(b.last()) =~= spec_properties_to_bytes(a) + (
        spec_properties_to_bytes(b.drop_last()) + spec_property_to_bytes(b.last())));
    }
}

/// The properties of a list have pairwise different ids.
pub open spec fn spec_ids_distinct(props: Seq<DataProperty>) -> bool {
    forall|i: int, j: int|
        0 <= i < j < props.len() ==> (#[trigger] props[i]).id != (#[trigger] props[j]).id
}

/// Filing a list of properties under their ids files something under exactly the
/// ids that occur in the list.
pub proof fn lemma_map_of_dom(props: Seq<DataProperty>)
    ensures
        spec_map_of(props).dom().finite(),
        forall|id: usize|
            #[trigger] spec_map_of(props).contains_key(id) <==> exists|j: int|
                0 <= j < props.len() && (#[trigger] props[j]).id == id,
    decreases props.len(),
{
    if props.len() > 0 {
        let init = props.drop_last();
        lemma_map_of_dom(init);
        assert forall|id: usize| #[trigger] spec_map_of(props).contains_key(id) <==> exists|j: int|
            0 <= j < props.len() && (#[trigger] props[j]).id == id by {
            if spec_map_of(props).contains_key(id) && id != props.last().id {
                let j = choose|j: int| 0 <= j < init.len() && (#[trigger] init[j]).id == id;
                assert(props[j] == init[j]);
            }
            if exists|j: int| 0 <= j < props.len() && (#[trigger] props[j]).id == id {
                let j = choose|j: int| 0 <= j < props.len() && (#[trigger] props[j]).id == id;
                if j < props.len() - 1 {
                    assert(init[j] == props[j]);
                }
            }
        }
    }
}

/// Filing a list of properties under their ids gives at most one property per list
/// entry, and exactly one per entry when no two entries share an id.
pub proof fn lemma_map_of_len(props: Seq<DataProperty>)
    ensures
        spec_map_of(props).len() <= props.len(),
        spec_map_of(props).len() == props.len() <==> spec_ids_distinct(props),
    decreases props.len(),
{
    if props.len() > 0 {
        let init = props.drop_last();
        let last = props.last();
        let n = props.len() as int;
        lemma_map_of_len(init);
        lemma_map_of_dom(init);
        if spec_map_of(init).contains_key(last.id) {
            let j = choose|j: int| 0 <= j < init.len() && (#[trigger] init[j]).id == last.id;
            assert(props[j].id == props[n - 1].id);
            assert(!spec_ids_distinct(props));
        } else {
            if spec_ids_distinct(init) {
                assert forall|a: int, b: int| 0 <= a < b < n implies (#[trigger] props[a]).id != (
                #[trigger] props[b]).id by {
                    if b == n - 1 {
                        assert(props[a] == init[a]);
                    } else {
                        assert(props[a] == init[a] && props[b] == init[b]);
                    }
                }
            } else {
                let (a, b) = choose|a: int, b: int|
                    0 <= a < b < init.len() && (#[trigger] init[a]).id == (#[trigger] init[b]).id;
                assert(props[a] == init[a] && props[b] == init[b]);
            }
        }
    } else {
        assert(spec_map_of(props) =~= Map::<usize, DataProperty>::empty());
    }
}

} // verus!
