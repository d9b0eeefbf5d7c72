//! Storage held in memory.
use vstd::prelude::*;
use crate::bytes::{byte_views, copy_bytes, is_prefix};
use crate::table::ByteTable;

verus! {

/// Byte-string values by byte-string key, held in memory.
pub struct MemoryStorage {
    name: String,
    data: ByteTable,
}

/// The values of a table of values with write times.
pub open spec fn values_only(m: Map<Seq<u8>, (Seq<u8>, u64)>) -> Map<Seq<u8>, Seq<u8>> {
    m.map_values(|e: (Seq<u8>, u64)| e.0)
}

impl View for MemoryStorage {
    type V = Map<Seq<u8>, Seq<u8>>;

    closed spec fn view(&self) -> Map<Seq<u8>, Seq<u8>> {
        values_only(self.data@)
    }
}

impl MemoryStorage {
    /// The table is consistent.
    pub closed spec fn wf(&self) -> bool {
        self.data.wf()
    }

    /// The storage's name.
    pub closed spec fn name_view(&self) -> Seq<char> {
        self.name@
    }

    /// An empty storage called `name`.
    pub fn new(name: String) -> (r: MemoryStorage)
        ensures
            r.wf(),
            r.name_view() == name@,
            r@ == Map::<Seq<u8>, Seq<u8>>::empty(),
    {
        let r = MemoryStorage { name, data: ByteTable::new() };
        proof {
            assert(r@ =~= Map::<Seq<u8>, Seq<u8>>::empty());
        }
        r
    }

    /// The storage's name.
    pub fn name(&self) -> (r: &str)
        ensures
            r@ == self.name_view(),
    {
        self.name.as_str()
    }

    /// Stores `value` under `key`, replacing any earlier value.
    pub fn put(&mut self, key: &[u8], value: &[u8])
        requires
            old(self).wf(),
        ensures
            final(self).wf(),
            final(self)@ == old(self)@.insert(key@, value@),
            final(self).name_view() == old(self).name_view(),
    {
        self.data.insert(key, value, 0);
        proof {
            assert(self@ =~= old(self)@.insert(key@, value@));
        }
    }

    /// The value stored under `key`, if any.
    pub fn get(&self, key: &[u8]) -> (r: Option<Vec<u8>>)
        requires
            self.wf(),
        ensures
            r.is_some() == self@.contains_key(key@),
            r.is_some() ==> r.unwrap()@ == self@[key@],
    {
        match self.data.get(key) {
            Some(v) => Some(copy_bytes(v.as_slice())),
            None => None,
        }
    }

    /// Removes `key` and its value, if present.
    pub fn delete(&mut self, key: &[u8])
        requires
            old(self).wf(),
        ensures
            final(self).wf(),
            final(self)@ == old(self)@.remove(key@),
            final(self).name_view() == old(self).name_view(),
    {
        self.data.remove(key);
        proof {
            assert(self@ =~= old(self)@.remove(key@));
        }
    }

    /// Whether a value is stored under `key`.
    pub fn has(&self, key: &[u8]) -> (r: bool)
        requires
            self.wf(),
        ensures
            r == self@.contains_key(key@),
    {
        self.data.contains(key)
    }

    /// Every stored key that begins with `prefix`, each once.
    pub fn keys_with_prefix(&self, prefix: &[u8]) -> (r: Vec<Vec<u8>>)
        requires
            self.wf(),
        ensures
            byte_views(r@).no_duplicates(),
            forall|k: Seq<u8>|
                #[trigger] byte_views(r@).contains(k) <==> self@.contains_key(k) && is_prefix(
                    prefix@,
                    k,
                ),
    {
        self.data.keys_with_prefix(prefix)
    }

    /// Closing storage held in memory has nothing to release.
    pub fn close(&mut self)
        ensures
            final(self)@ == old(self)@,
            final(self).wf() == old(self).wf(),
            final(self).name_view() == old(self).name_view(),
    {
    }
}

} // verus!
