use vstd::prelude::*;

verus! {

/// A reference to `len` bytes at offset `off` of buffer `byte_ref` of a `DataStore`.
#[derive(Clone, Copy, Debug, PartialEq, Eq, Structural)]
pub struct BytesRef {
    pub byte_ref: usize,
    pub off: usize,
    pub len: usize,
}

/// A reference count after one more reference (it stops at `usize::MAX`).
pub open spec fn spec_count_up(c: usize) -> usize {
    if c < usize::MAX {
        (c + 1) as usize
    } else {
        c
    }
}

/// A reference count after one reference fewer (it stops at zero).
pub open spec fn spec_count_down(c: usize) -> usize {
    if c > 0 {
        (c - 1) as usize
    } else {
        c
    }
}

/// The registry of property names after `name` has been looked up: unchanged
/// where the name is known, with the name appended where it is new.
pub open spec fn spec_names_after(names: Seq<Seq<char>>, name: Seq<char>) -> Seq<Seq<char>> {
    if names.contains(name) {
        names
    } else {
        names.push(name)
    }
}

/// The id of a registered property name: its position in the registry.
pub open spec fn spec_prop_id(names: Seq<Seq<char>>, name: Seq<char>) -> usize {
    names.index_of(name) as usize
}

/// The shared store of an application's data: byte buffers, each with a
/// reference count, and the registry of property names (a name's id is its position).
pub struct DataStore {
    buffers: Vec<Vec<u8>>,
    counts: Vec<usize>,
    names: Vec<String>,
}

impl DataStore {
    /// The contents of the buffers.
    pub closed spec fn buffers(self) -> Seq<Seq<u8>> {
        self.buffers@.map_values(|b: Vec<u8>| b@)
    }

    /// The reference count of each buffer.
    pub closed spec fn counts(self) -> Seq<usize> {
        self.counts@
    }

    /// The registered property names.
    pub closed spec fn names(self) -> Seq<Seq<char>> {
        self.names@.map_values(|s: String| s@)
    }

    /// Every buffer has a count, and no name is registered twice.
    pub closed spec fn wf(self) -> bool {
        &&& self.buffers@.len() == self.counts@.len()
        &&& self.names().no_duplicates()
        &&& self.names().len() <= usize::MAX
        &&& self.buffers().len() <= usize::MAX
        &&& forall|i: int|
            0 <= i < self.buffers().len() ==> #[trigger] self.buffers()[i].len() <= usize::MAX
    }

    /// What a well-formed store guarantees.
    pub proof fn lemma_wf(self)
        requires
            self.wf(),
        ensures
            self.counts().len() == self.buffers().len(),
            self.names().no_duplicates(),
            self.names().len() <= usize::MAX,
            self.buffers().len() <= usize::MAX,
            forall|i: int|
                0 <= i < self.buffers().len() ==> #[trigger] self.buffers()[i].len() <= usize::MAX,
    {
    }

    /// An empty store.
    pub fn new() -> (s: DataStore)
        ensures
            s.wf(),
            s.buffers() == Seq::<Seq<u8>>::empty(),
            s.counts() == Seq::<usize>::empty(),
            s.names() == Seq::<Seq<char>>::empty(),
    {
        let s = DataStore { buffers: Vec::new(), counts: Vec::new(), names: Vec::new() };
        assert(s.buffers() =~= Seq::<Seq<u8>>::empty());
        assert(s.names() =~= Seq::<Seq<char>>::empty());
        s
    }

    /// Adds `bytes` as a new buffer, with no references yet, and refers to all of it.
    pub fn push(&mut self, bytes: Vec<u8>) -> (r: BytesRef)
        requires
            old(self).wf(),
        ensures
            final(self).wf(),
            final(self).buffers() == old(self).buffers().push(bytes@),
            final(self).counts() == old(self).counts().push(0),
            final(self).names() == old(self).names(),
            r.byte_ref == old(self).buffers().len(),
            r.off == 0,
            r.len == bytes@.len(),
    {
        let ghost b = bytes@;
        assert(b.len() == bytes.len());
        let r = BytesRef { byte_ref: self.buffers.len(), off: 0, len: bytes.len() };
        self.buffers.push(bytes);
        self.counts.push(0);
        assert(self.buffers@.len() == self.buffers.len());
        assert(self.buffers() =~= old(self).buffers().push(b));
        r
    }

    /// One more reference to buffer `byte_ref`.
    pub fn incr(&mut self, byte_ref: usize)
        requires
            old(self).wf(),
            byte_ref < old(self).buffers().len(),
        ensures
            final(self).wf(),
            final(self).buffers() == old(self).buffers(),
            final(self).counts() == old(self).counts().update(
                byte_ref as int,
                spec_count_up(old(self).counts()[byte_ref as int]),
            ),
            final(self).names() == old(self).names(),
    {
        let c = self.counts[byte_ref];
        if c < usize::MAX {
            self.counts[byte_ref] = c + 1;
        }
        assert(self.counts@ =~= old(self).counts().update(byte_ref as int, spec_count_up(c)));
    }

    /// One reference fewer to buffer `byte_ref`.
    pub fn decr(&mut self, byte_ref: usize)
        requires
            old(self).wf(),
            byte_ref < old(self).buffers().len(),
        ensures
            final(self).wf(),
            final(self).buffers() == old(self).buffers(),
            final(self).counts() == old(self).counts().update(
                byte_ref as int,
                spec_count_down(old(self).counts()[byte_ref as int]),
            ),
            final(self).names() == old(self).names(),
    {
        let c = self.counts[byte_ref];
        if c > 0 {
            self.counts[byte_ref] = c - 1;
        }
        assert(self.counts@ =~= old(self).counts().update(byte_ref as int, spec_count_down(c)));
    }

    /// The reference count of buffer `byte_ref`.
    pub fn count(&self, byte_ref: usize) -> (c: usize)
        requires
            self.wf(),
            byte_ref < self.buffers().len(),
        ensures
            c == self.counts()[byte_ref as int],
    {
        self.counts[byte_ref]
    }

    /// The length of buffer `byte_ref`.
    pub fn buffer_len(&self, byte_ref: usize) -> (n: usize)
        requires
            self.wf(),
            byte_ref < self.buffers().len(),
        ensures
            n == self.buffers()[byte_ref as int].len(),
    {
        self.buffers[byte_ref].len()
    }

    /// A copy of the bytes that `r` refers to.
    pub fn get(&self, r: BytesRef) -> (bytes: Vec<u8>)
        requires
            self.wf(),
            r.byte_ref < self.buffers().len(),
            r.off + r.len <= self.buffers()[r.byte_ref as int].len(),
        ensures
            bytes@ == self.buffers()[r.byte_ref as int].subrange(r.off as int, r.off + r.len),
    {
        let buf = &self.buffers[r.byte_ref];
        assert(buf@ == self.buffers()[r.byte_ref as int]);
        assert(r.off + r.len <= buf.len());
        let mut out: Vec<u8> = Vec::new();
        let mut i = r.off;
        let end = r.off + r.len;
        while i < end
            invariant
                r.off <= i <= end,
                end == r.off + r.len,
                end <= buf@.len(),
                self.wf(),
                r.byte_ref < self.buffers().len(),
                buf@ == self.buffers()[r.byte_ref as int],
                out@ == buf@.subrange(r.off as int, i as int),
            decreases end - i,
        {
            out.push(buf[i]);
            i = i + 1;
            assert(out@ =~= buf@.subrange(r.off as int, i as int));
        }
        out
    }

    /// Puts `bytes` in place of the contents of buffer `byte_ref`; every reference
    /// to that buffer now reads the new contents.
    pub fn swap_handle_pointer(&mut self, byte_ref: usize, bytes: Vec<u8>)
        requires
            old(self).wf(),
            byte_ref < old(self).buffers().len(),
        ensures
            final(self).wf(),
            final(self).buffers() == old(self).buffers().update(byte_ref as int, bytes@),
            final(self).counts() == old(self).counts(),
            final(self).names() == old(self).names(),
    {
        let ghost b = bytes@;
        assert(b.len() == bytes.len());
        self.buffers[byte_ref] = bytes;
        assert(self.buffers() =~= old(self).buffers().update(byte_ref as int, b));
    }

    /// The id of property name `name`, registering the name if it is new.
    pub fn lookup_prop(&mut self, name: &str) -> (id: usize)
        requires
            old(self).wf(),
        ensures
            final(self).wf(),
            final(self).buffers() == old(self).buffers(),
            final(self).counts() == old(self).counts(),
            final(self).names() == spec_names_after(old(self).names(), name@),
            id == spec_prop_id(final(self).names(), name@),
            id < final(self).names().len(),
            final(self).names()[id as int] == name@,
    {
        let key: String = name.to_owned();
        let n = self.names.len();
        let mut i: usize = 0;
        while i < n
            invariant
                n == self.names@.len(),
                *self == *old(self),
                self.wf(),
                key@ == name@,
                0 <= i <= n,
                forall|j: int| 0 <= j < i ==> self.names()[j] != name@,
            decreases n - i,
        {
            if self.names[i] == key {
                proof {
                    assert(self.names()[i as int] == name@);
                    assert(self.names().contains(name@));
                    let c = self.names().index_of(name@);
                    assert(self.names()[c] == name@);
                }
                return i;
            }
            i = i + 1;
        }
        proof {
            assert(!self.names().contains(name@));
        }
        self.names.push(key);
        proof {
            assert(self.names@.len() == self.names.len());
            let nm = self.names();
            assert(nm =~= old(self).names().push(name@));
            assert(nm[n as int] == name@);
            assert(nm.contains(name@));
            let c = nm.index_of(name@);
            assert(nm[c] == name@);
        }
        n
    }

    /// The property name registered under `id`.
    pub fn lookup_prop_string(&self, id: usize) -> (name: String)
        requires
            self.wf(),
            id < self.names().len(),
        ensures
            name@ == self.names()[id as int],
    {
        self.names[id].clone()
    }
}

} // verus!
