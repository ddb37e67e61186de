# databytes

A verified library of property tables: objects whose properties are fixed-size
records (id, type tag, and the buffer, offset and length of the value) kept in a
shared store of reference-counted byte buffers.

- `src/bytesutil.rs`: little-endian `i64` encoding, property tables as vectors and
  as maps keyed by id, and the round-trip laws between writing and reading them.
- `src/dataproperty.rs`: the property record, its layout and type tags.
- `src/datastore.rs`: the store of buffers, their reference counts and the
  registry of property names.
- `src/dataobject.rs`: objects built on the store, their setters, and the
  construction of an object from a JSON value.
- `src/json.rs`: the JSON value the object builder reads.
- `app/`: what stays outside the verified library: `f64` values, and the
  conversion from `serde_json` values.
