use databytes::bytesutil::{bytes_to_propertymap, i64_to_bytes};
use databytes::dataobject::DataObject;
use databytes::dataproperty::{
    DataProperty, PROPERTY_SIZE, TYPE_BOOLEAN, TYPE_FLOAT, TYPE_INT, TYPE_LIST, TYPE_OBJECT,
    TYPE_STRING,
};
use databytes::datastore::{BytesRef, DataStore};
use databytes::json::JsonValue;
use std::collections::HashMap;

fn props_of(o: &DataObject, store: &DataStore) -> HashMap<usize, DataProperty> {
    let r = o.bytes(store);
    let table = store.get(r);
    let n = table.len();
    bytes_to_propertymap(table, 0, n)
}

#[test]
fn new_object_is_empty() {
    let mut store = DataStore::new();
    let o = DataObject::new(&mut store);
    let r = o.bytes(&store);
    assert_eq!(r, BytesRef { byte_ref: 0, off: 0, len: 0 });
    assert_eq!(store.count(0), 0);
}

#[test]
fn lookup_prop_registers_names_once() {
    let mut store = DataStore::new();
    assert_eq!(DataObject::lookup_prop(&mut store, "a"), 0);
    assert_eq!(DataObject::lookup_prop(&mut store, "b"), 1);
    assert_eq!(DataObject::lookup_prop(&mut store, "a"), 0);
    let o = DataObject::new(&mut store);
    assert_eq!(o.lookup_prop_string(&store, 1), "b".to_string());
}

#[test]
fn set_property_then_read_back() {
    let mut store = DataStore::new();
    let mut o = DataObject::new(&mut store);
    let v1 = store.push(vec![1, 2, 3]);
    let v2 = store.push(vec![4]);
    o.set_property(&mut store, "x", TYPE_INT, v1);
    o.set_property(&mut store, "y", TYPE_BOOLEAN, v2);
    let m = props_of(&o, &store);
    assert_eq!(m.len(), 2);
    assert_eq!(m[&0], DataProperty::new(0, TYPE_INT, 1, 0, 3));
    assert_eq!(m[&1], DataProperty::new(1, TYPE_BOOLEAN, 2, 0, 1));
    assert_eq!(store.count(1), 1);
    assert_eq!(store.count(2), 1);
    assert_eq!(o.bytes(&store).len, 2 * PROPERTY_SIZE);
}

#[test]
fn set_property_replaces_and_releases_old_value() {
    let mut store = DataStore::new();
    let mut o = DataObject::new(&mut store);
    let v1 = store.push(vec![1]);
    let v2 = store.push(vec![2]);
    o.set_property(&mut store, "x", TYPE_BOOLEAN, v1);
    assert_eq!(store.count(v1.byte_ref), 1);
    o.set_property(&mut store, "x", TYPE_BOOLEAN, v2);
    assert_eq!(store.count(v1.byte_ref), 0);
    assert_eq!(store.count(v2.byte_ref), 1);
    let m = props_of(&o, &store);
    assert_eq!(m.len(), 1);
    assert_eq!(m[&0], DataProperty::new(0, TYPE_BOOLEAN, v2.byte_ref, 0, 1));
}

#[test]
fn bytes_is_a_reference_that_follows_the_table() {
    let mut store = DataStore::new();
    let mut o = DataObject::new(&mut store);
    let before = o.bytes(&store);
    o.put_i64(&mut store, "n", 7);
    let after = o.bytes(&store);
    assert_eq!(before.byte_ref, after.byte_ref);
    assert_eq!(after.len, PROPERTY_SIZE);
}

#[test]
fn put_values() {
    let mut store = DataStore::new();
    let mut o = DataObject::new(&mut store);
    o.put_str(&mut store, "s", "hi");
    o.put_bool(&mut store, "b", true);
    o.put_i64(&mut store, "i", -2);
    o.put_list(&mut store, "l", &JsonValue::Array(Vec::new()));
    let m = props_of(&o, &store);
    assert_eq!(m.len(), 4);
    let s = m[&0];
    assert_eq!(s.typ, TYPE_STRING);
    assert_eq!(store.get(BytesRef { byte_ref: s.byte_ref, off: s.off, len: s.len }), b"hi".to_vec());
    let b = m[&1];
    assert_eq!(b.typ, TYPE_BOOLEAN);
    assert_eq!(store.get(BytesRef { byte_ref: b.byte_ref, off: 0, len: b.len }), vec![1]);
    let i = m[&2];
    assert_eq!(i.typ, TYPE_INT);
    assert_eq!(store.get(BytesRef { byte_ref: i.byte_ref, off: 0, len: i.len }), i64_to_bytes(-2));
    let l = m[&3];
    assert_eq!(l.typ, TYPE_LIST);
    assert_eq!(store.get(BytesRef { byte_ref: l.byte_ref, off: 0, len: l.len }), vec![1]);
    assert_eq!(store.count(s.byte_ref), 1);
}

#[test]
fn put_bool_false_is_zero() {
    let mut store = DataStore::new();
    let mut o = DataObject::new(&mut store);
    o.put_bool(&mut store, "b", false);
    let m = props_of(&o, &store);
    let b = m[&0];
    assert_eq!(store.get(BytesRef { byte_ref: b.byte_ref, off: 0, len: b.len }), vec![0]);
}

#[test]
fn from_json_builds_properties() {
    let mut store = DataStore::new();
    let nested = JsonValue::Object(vec![("inner".to_string(), JsonValue::Int(5))]);
    let value = JsonValue::Object(vec![
        ("name".to_string(), JsonValue::Str("abc".to_string())),
        ("ok".to_string(), JsonValue::Bool(true)),
        ("n".to_string(), JsonValue::Int(42)),
        ("f".to_string(), JsonValue::Float(1.5f64.to_bits())),
        ("o".to_string(), nested),
        ("l".to_string(), JsonValue::Array(vec![JsonValue::Int(1)])),
        ("z".to_string(), JsonValue::Null),
    ]);
    let o = DataObject::from_json(&mut store, &value);
    let m = props_of(&o, &store);
    assert_eq!(m.len(), 6);
    let id = |store: &mut DataStore, k: &str| DataObject::lookup_prop(store, k);
    let name = m[&id(&mut store, "name")];
    assert_eq!(name.typ, TYPE_STRING);
    assert_eq!(store.get(BytesRef { byte_ref: name.byte_ref, off: 0, len: name.len }), b"abc".to_vec());
    assert_eq!(m[&id(&mut store, "ok")].typ, TYPE_BOOLEAN);
    let n = m[&id(&mut store, "n")];
    assert_eq!(n.typ, TYPE_INT);
    assert_eq!(store.get(BytesRef { byte_ref: n.byte_ref, off: 0, len: n.len }), i64_to_bytes(42));
    let f = m[&id(&mut store, "f")];
    assert_eq!(f.typ, TYPE_FLOAT);
    assert_eq!(
        store.get(BytesRef { byte_ref: f.byte_ref, off: 0, len: f.len }),
        1.5f64.to_le_bytes().to_vec()
    );
    let sub = m[&id(&mut store, "o")];
    assert_eq!(sub.typ, TYPE_OBJECT);
    assert_eq!(store.count(sub.byte_ref), 1);
    let sub_table = store.get(BytesRef { byte_ref: sub.byte_ref, off: 0, len: sub.len });
    let sn = sub_table.len();
    let sub_props = bytes_to_propertymap(sub_table, 0, sn);
    assert_eq!(sub_props.len(), 1);
    assert_eq!(sub_props[&id(&mut store, "inner")].typ, TYPE_INT);
    assert_eq!(m[&id(&mut store, "l")].typ, TYPE_LIST);
    let z = id(&mut store, "z");
    assert!(!m.contains_key(&z));
}

#[test]
fn put_object_files_nested_table() {
    let mut store = DataStore::new();
    let mut o = DataObject::new(&mut store);
    let nested = JsonValue::Object(vec![("a".to_string(), JsonValue::Bool(false))]);
    o.put_object(&mut store, "child", &nested);
    let m = props_of(&o, &store);
    assert_eq!(m.len(), 1);
    let c = m.values().next().unwrap();
    assert_eq!(c.typ, TYPE_OBJECT);
    assert_eq!(c.byte_ref, 1);
    assert_eq!(c.len, PROPERTY_SIZE);
}

#[test]
fn store_counts_saturate_at_zero() {
    let mut store = DataStore::new();
    let r = store.push(vec![9]);
    store.decr(r.byte_ref);
    assert_eq!(store.count(r.byte_ref), 0);
    store.incr(r.byte_ref);
    store.incr(r.byte_ref);
    store.decr(r.byte_ref);
    assert_eq!(store.count(r.byte_ref), 1);
}

#[test]
fn store_swap_handle_pointer_replaces_contents() {
    let mut store = DataStore::new();
    let r = store.push(vec![1, 2, 3]);
    store.swap_handle_pointer(r.byte_ref, vec![7, 8]);
    assert_eq!(store.buffer_len(r.byte_ref), 2);
    assert_eq!(store.get(BytesRef { byte_ref: r.byte_ref, off: 1, len: 1 }), vec![8]);
}

#[test]
fn set_property_twice_changes_nothing_more() {
    let mut store = DataStore::new();
    let mut o = DataObject::new(&mut store);
    let v = store.push(vec![5, 6]);
    o.set_property(&mut store, "k", TYPE_INT, v);
    let after_first = props_of(&o, &store);
    let count_first = store.count(v.byte_ref);
    o.set_property(&mut store, "k", TYPE_INT, v);
    assert_eq!(props_of(&o, &store), after_first);
    assert_eq!(store.count(v.byte_ref), count_first);
    assert_eq!(count_first, 1);
}

#[test]
fn from_json_nested_object_holds_its_entries() {
    let mut store = DataStore::new();
    let inner = JsonValue::Object(vec![
        ("x".to_string(), JsonValue::Int(-1)),
        ("y".to_string(), JsonValue::Str("q".to_string())),
    ]);
    let value = JsonValue::Object(vec![("child".to_string(), inner)]);
    let o = DataObject::from_json(&mut store, &value);
    let m = props_of(&o, &store);
    let child = m[&DataObject::lookup_prop(&mut store, "child")];
    let t = store.get(BytesRef { byte_ref: child.byte_ref, off: 0, len: child.len });
    let tn = t.len();
    let cm = bytes_to_propertymap(t, 0, tn);
    assert_eq!(cm.len(), 2);
    let x = cm[&DataObject::lookup_prop(&mut store, "x")];
    assert_eq!(store.get(BytesRef { byte_ref: x.byte_ref, off: 0, len: x.len }), i64_to_bytes(-1));
    let y = cm[&DataObject::lookup_prop(&mut store, "y")];
    assert_eq!(y.typ, TYPE_STRING);
    assert_eq!(store.get(BytesRef { byte_ref: y.byte_ref, off: 0, len: y.len }), b"q".to_vec());
}
