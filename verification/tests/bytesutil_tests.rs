use databytes::bytesutil::{
    bytes_to_i64, bytes_to_propertymap, bytes_to_propertyvec, i64_to_bytes,
    propertymap_to_bytes, propertyvec_to_bytes,
};
use databytes::dataproperty::{DataProperty, PROPERTY_SIZE};
use std::collections::HashMap;

fn prop(id: usize, typ: u8, byte_ref: usize, off: usize, len: usize) -> DataProperty {
    DataProperty::new(id, typ, byte_ref, off, len)
}

#[test]
fn i64_to_bytes_is_little_endian() {
    assert_eq!(i64_to_bytes(0), vec![0u8; 8]);
    assert_eq!(i64_to_bytes(1), vec![1, 0, 0, 0, 0, 0, 0, 0]);
    assert_eq!(i64_to_bytes(-1), vec![255u8; 8]);
    assert_eq!(
        i64_to_bytes(0x0102030405060708),
        vec![8, 7, 6, 5, 4, 3, 2, 1]
    );
    assert_eq!(
        i64_to_bytes(i64::MIN),
        vec![0, 0, 0, 0, 0, 0, 0, 0x80]
    );
}

#[test]
fn bytes_to_i64_reads_at_offset() {
    let bytes: Vec<u8> = vec![9, 9, 8, 7, 6, 5, 4, 3, 2, 1, 9];
    assert_eq!(bytes_to_i64(&bytes, 2), 0x0102030405060708);
    let neg: Vec<u8> = vec![0xfe, 0xff, 0xff, 0xff, 0xff, 0xff, 0xff, 0xff];
    assert_eq!(bytes_to_i64(&neg, 0), -2);
}

#[test]
fn i64_roundtrip() {
    for v in [0i64, 1, -1, 42, -123456789, i64::MAX, i64::MIN] {
        let mut buf: Vec<u8> = vec![7, 7, 7];
        buf.extend(i64_to_bytes(v));
        buf.push(7);
        assert_eq!(bytes_to_i64(&buf, 3), v);
    }
}

#[test]
fn property_record_layout() {
    let p = prop(0x0102, 3, 4, 0x0506, 7);
    let b = p.to_bytes();
    assert_eq!(b.len(), PROPERTY_SIZE);
    assert_eq!(PROPERTY_SIZE, 33);
    assert_eq!(
        b,
        vec![
            0x02, 0x01, 0, 0, 0, 0, 0, 0, // id
            3, // type
            4, 0, 0, 0, 0, 0, 0, 0, // buffer
            0x06, 0x05, 0, 0, 0, 0, 0, 0, // offset
            7, 0, 0, 0, 0, 0, 0, 0, // length
        ]
    );
    let mut buf = vec![0u8; 5];
    buf.extend(b);
    assert_eq!(DataProperty::from_bytes(&buf, 5), p);
}

#[test]
fn propertyvec_roundtrip() {
    let props = vec![prop(1, 2, 3, 4, 5), prop(6, 7, 8, 9, 10), prop(1, 0, 0, 0, 0)];
    let bytes = propertyvec_to_bytes(props.clone());
    assert_eq!(bytes.len(), 3 * PROPERTY_SIZE);
    assert_eq!(bytes[0..33].to_vec(), props[0].to_bytes());
    assert_eq!(bytes[33..66].to_vec(), props[1].to_bytes());
    assert_eq!(bytes[66..99].to_vec(), props[2].to_bytes());
    let n = bytes.len();
    assert_eq!(bytes_to_propertyvec(bytes, 0, n), props);
}

#[test]
fn propertyvec_empty() {
    let bytes = propertyvec_to_bytes(Vec::new());
    assert!(bytes.is_empty());
    assert!(bytes_to_propertyvec(bytes, 0, 0).is_empty());
}

#[test]
fn propertyvec_scan_stops_below_len_minus_off() {
    // With a start offset, the scan starts at `off` and stops before `len - off`.
    let props = vec![prop(1, 1, 1, 1, 1), prop(2, 2, 2, 2, 2), prop(3, 3, 3, 3, 3)];
    let bytes = propertyvec_to_bytes(props.clone());
    let read = bytes_to_propertyvec(bytes.clone(), 33, 99);
    assert_eq!(read, vec![props[1]]);
    let read = bytes_to_propertyvec(bytes, 33, 100);
    assert_eq!(read, vec![props[1], props[2]]);
}

#[test]
fn propertymap_roundtrip() {
    let mut m: HashMap<usize, DataProperty> = HashMap::new();
    m.insert(10, prop(10, 1, 2, 3, 4));
    m.insert(20, prop(20, 5, 6, 7, 8));
    m.insert(30, prop(30, 9, 10, 11, 12));
    let bytes = propertymap_to_bytes(m.clone());
    assert_eq!(bytes.len(), 3 * PROPERTY_SIZE);
    let n = bytes.len();
    assert_eq!(bytes_to_propertymap(bytes, 0, n), m);
}

#[test]
fn propertymap_table_holds_each_property_once() {
    let mut m: HashMap<usize, DataProperty> = HashMap::new();
    m.insert(1, prop(1, 1, 0, 0, 8));
    m.insert(2, prop(2, 2, 0, 8, 1));
    let bytes = propertymap_to_bytes(m.clone());
    let n = bytes.len();
    let listed = bytes_to_propertyvec(bytes, 0, n);
    assert_eq!(listed.len(), 2);
    assert!(listed.contains(&m[&1]));
    assert!(listed.contains(&m[&2]));
}

#[test]
fn propertymap_later_record_wins() {
    let props = vec![prop(4, 1, 1, 1, 1), prop(5, 2, 2, 2, 2), prop(4, 3, 3, 3, 3)];
    let bytes = propertyvec_to_bytes(props);
    let n = bytes.len();
    let m = bytes_to_propertymap(bytes, 0, n);
    assert_eq!(m.len(), 2);
    assert_eq!(m[&4], prop(4, 3, 3, 3, 3));
    assert_eq!(m[&5], prop(5, 2, 2, 2, 2));
}

#[test]
fn propertymap_files_under_record_id() {
    // A property filed under a key other than its id comes back under its id.
    let mut m: HashMap<usize, DataProperty> = HashMap::new();
    m.insert(5, prop(7, 1, 1, 1, 1));
    let bytes = propertymap_to_bytes(m);
    let n = bytes.len();
    let back = bytes_to_propertymap(bytes, 0, n);
    assert!(!back.contains_key(&5));
    assert_eq!(back[&7], prop(7, 1, 1, 1, 1));
}

#[test]
fn table_of_concatenation_is_concatenation_of_tables() {
    let a = vec![prop(1, 1, 1, 1, 1)];
    let b = vec![prop(2, 2, 2, 2, 2), prop(3, 3, 3, 3, 3)];
    let mut ab = a.clone();
    ab.extend(b.clone());
    let mut expected = propertyvec_to_bytes(a);
    expected.extend(propertyvec_to_bytes(b));
    assert_eq!(propertyvec_to_bytes(ab), expected);
}

#[test]
fn map_has_one_entry_per_record_when_ids_differ() {
    let props = vec![prop(4, 1, 1, 1, 1), prop(5, 2, 2, 2, 2), prop(6, 3, 3, 3, 3)];
    let bytes = propertyvec_to_bytes(props);
    let n = bytes.len();
    assert_eq!(bytes_to_propertymap(bytes, 0, n).len(), 3);
}
