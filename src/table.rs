//! A table from byte-string keys to byte-string values, each stamped with the
//! time of its last write. Keys are unique; the table keeps insertion order.
use vstd::prelude::*;
use crate::bytes::{byte_views, bytes_eq, copy_bytes, is_prefix, starts_with};
use crate::clock::elapsed;

verus! {

/// One row of a [`ByteTable`].
pub struct TableEntry {
    key: Vec<u8>,
    value: Vec<u8>,
    stamp: u64,
}

/// Byte-string keys mapped to values and write times, keys unique.
pub struct ByteTable {
    entries: Vec<TableEntry>,
    contents: Ghost<Map<Seq<u8>, (Seq<u8>, u64)>>,
}

impl View for ByteTable {
    type V = Map<Seq<u8>, (Seq<u8>, u64)>;

    closed spec fn view(&self) -> Map<Seq<u8>, (Seq<u8>, u64)> {
        self.contents@
    }
}

/// The entries of `m` written at most `ttl` milliseconds before `now`.
pub open spec fn fresh_part(m: Map<Seq<u8>, (Seq<u8>, u64)>, now: u64, ttl: u64) -> Map<
    Seq<u8>,
    (Seq<u8>, u64),
> {
    m.restrict(m.dom().filter(|k: Seq<u8>| elapsed(m[k].1, now) <= ttl))
}

impl ByteTable {
    /// Keys unique, and the ghost contents match the rows exactly.
    pub closed spec fn wf(&self) -> bool {
        &&& forall|i: int, j: int|
            0 <= i < self.entries@.len() && 0 <= j < self.entries@.len() && i != j
                ==> self.entries@[i].key@ != self.entries@[j].key@
        &&& forall|i: int|
            #![trigger self.entries@[i]]
            0 <= i < self.entries@.len() ==> self.contents@.contains_key(self.entries@[i].key@)
                && self.contents@[self.entries@[i].key@] == (
                self.entries@[i].value@,
                self.entries@[i].stamp,
            )
        &&& forall|k: Seq<u8>|
            #[trigger] self.contents@.contains_key(k) ==> exists|i: int|
                0 <= i < self.entries@.len() && self.entries@[i].key@ == k
    }

    /// An empty table.
    pub fn new() -> (r: ByteTable)
        ensures
            r.wf(),
            r@ == Map::<Seq<u8>, (Seq<u8>, u64)>::empty(),
    {
        ByteTable { entries: Vec::new(), contents: Ghost(Map::empty()) }
    }

    /// Index of the row holding `key`, if any.
    fn find(&self, key: &[u8]) -> (r: Option<usize>)
        requires
            self.wf(),
        ensures
            match r {
                Some(i) => i < self.entries@.len() && self.entries@[i as int].key@ == key@,
                None => !self@.contains_key(key@),
            },
    {
        let mut i: usize = 0;
        while i < self.entries.len()
            invariant
                self.wf(),
                i <= self.entries@.len(),
                forall|j: int| 0 <= j < i ==> self.entries@[j].key@ != key@,
            decreases self.entries@.len() - i,
        {
            if bytes_eq(self.entries[i].key.as_slice(), key) {
                return Some(i);
            }
            i = i + 1;
        }
        None
    }

    /// The value stored under `key`.
    pub fn get(&self, key: &[u8]) -> (r: Option<&Vec<u8>>)
        requires
            self.wf(),
        ensures
            match r {
                Some(v) => self@.contains_key(key@) && v@ == self@[key@].0,
                None => !self@.contains_key(key@),
            },
    {
        match self.find(key) {
            Some(i) => {
                assert(self.entries@[i as int].key@ == key@);
                Some(&self.entries[i].value)
            },
            None => None,
        }
    }

    /// Whether a value is stored under `key`.
    pub fn contains(&self, key: &[u8]) -> (r: bool)
        requires
            self.wf(),
        ensures
            r == self@.contains_key(key@),
    {
        match self.find(key) {
            Some(i) => {
                assert(self.entries@[i as int].key@ == key@);
                true
            },
            None => false,
        }
    }

    /// Stores `value` under `key` with write time `stamp`, replacing what was
    /// there.
    pub fn insert(&mut self, key: &[u8], value: &[u8], stamp: u64)
        requires
            old(self).wf(),
        ensures
            final(self).wf(),
            final(self)@ == old(self)@.insert(key@, (value@, stamp)),
    {
        let entry = TableEntry { key: copy_bytes(key), value: copy_bytes(value), stamp };
        let ghost old_entries = self.entries@;
        match self.find(key) {
            Some(i) => {
                self.entries.set(i, entry);
                proof {
                    self.contents@ = self.contents@.insert(key@, (value@, stamp));
                    assert forall|k: Seq<u8>| #[trigger]
                        self.contents@.contains_key(k) implies exists|j: int|
                        0 <= j < self.entries@.len() && self.entries@[j].key@ == k by {
                        if k != key@ {
                            let j = choose|j: int|
                                0 <= j < old_entries.len() && old_entries[j].key@ == k;
                            assert(self.entries@[j].key@ == k);
                        } else {
                            assert(self.entries@[i as int].key@ == k);
                        }
                    }
                }
            },
            None => {
                self.entries.push(entry);
                proof {
                    self.contents@ = self.contents@.insert(key@, (value@, stamp));
                    let n = old_entries.len() as int;
                    assert(self.entries@[n].key@ == key@);
                    assert forall|j: int| 0 <= j < n implies old_entries[j].key@ != key@ by {
                        assert(old(self).contents@.contains_key(old_entries[j].key@));
                    }
                    assert forall|k: Seq<u8>| #[trigger]
                        self.contents@.contains_key(k) implies exists|j: int|
                        0 <= j < self.entries@.len() && self.entries@[j].key@ == k by {
                        if k != key@ {
                            let j = choose|j: int|
                                0 <= j < old_entries.len() && old_entries[j].key@ == k;
                            assert(self.entries@[j].key@ == k);
                        }
                    }
                }
            },
        }
    }

    /// Removes `key` and its value, if present.
    pub fn remove(&mut self, key: &[u8])
        requires
            old(self).wf(),
        ensures
            final(self).wf(),
            final(self)@ == old(self)@.remove(key@),
    {
        let ghost old_entries = self.entries@;
        match self.find(key) {
            Some(i) => {
                self.entries.remove(i);
                proof {
                    self.contents@ = self.contents@.remove(key@);
                    assert forall|a: int, b: int|
                        0 <= a < self.entries@.len() && 0 <= b < self.entries@.len() && a
                            != b implies self.entries@[a].key@ != self.entries@[b].key@ by {
                        let oa = if a < i { a } else { a + 1 };
                        let ob = if b < i { b } else { b + 1 };
                        assert(self.entries@[a] == old_entries[oa]);
                        assert(self.entries@[b] == old_entries[ob]);
                    }
                    assert forall|a: int|
                        #![trigger self.entries@[a]]
                        0 <= a < self.entries@.len() implies self.contents@.contains_key(
                        self.entries@[a].key@,
                    ) && self.contents@[self.entries@[a].key@] == (
                        self.entries@[a].value@,
                        self.entries@[a].stamp,
                    ) by {
                        let oa = if a < i { a } else { a + 1 };
                        assert(self.entries@[a] == old_entries[oa]);
                        assert(old_entries[oa].key@ != old_entries[i as int].key@);
                    }
                    assert forall|k: Seq<u8>| #[trigger]
                        self.contents@.contains_key(k) implies exists|j: int|
                        0 <= j < self.entries@.len() && self.entries@[j].key@ == k by {
                        let j = choose|j: int|
                            0 <= j < old_entries.len() && old_entries[j].key@ == k;
                        if j < i {
                            assert(self.entries@[j].key@ == k);
                        } else {
                            assert(j != i);
                            assert(self.entries@[j - 1].key@ == k);
                        }
                    }
                }
            },
            None => {
                assert(self@ =~= old(self)@.remove(key@));
            },
        }
    }

    /// Keeps only the entries written at most `ttl` milliseconds before
    /// `now`.
    pub fn retain_fresh(&mut self, now: u64, ttl: u64)
        requires
            old(self).wf(),
        ensures
            final(self).wf(),
            final(self)@ == fresh_part(old(self)@, now, ttl),
    {
        let ghost before = self@;
        let mut kept: Vec<TableEntry> = Vec::new();
        let ghost mut kept_map: Map<Seq<u8>, (Seq<u8>, u64)> = Map::empty();
        let mut i: usize = 0;
        while i < self.entries.len()
            invariant
                self.wf(),
                self@ == before,
                i <= self.entries@.len(),
                forall|a: int, b: int|
                    0 <= a < kept@.len() && 0 <= b < kept@.len() && a != b ==> kept@[a].key@
                        != kept@[b].key@,
                forall|a: int|
                    #![trigger kept@[a]]
                    0 <= a < kept@.len() ==> kept_map.contains_key(kept@[a].key@)
                        && kept_map[kept@[a].key@] == (kept@[a].value@, kept@[a].stamp),
                forall|k: Seq<u8>| #[trigger]
                    kept_map.contains_key(k) ==> exists|a: int|
                        0 <= a < kept@.len() && kept@[a].key@ == k,
                forall|a: int|
                    0 <= a < kept@.len() ==> exists|j: int|
                        0 <= j < i && #[trigger] kept@[a].key@ == self.entries@[j].key@,
                forall|k: Seq<u8>|
                    #[trigger] kept_map.contains_key(k) <==> (exists|j: int|
                        0 <= j < i && self.entries@[j].key@ == k) && before.contains_key(k)
                        && elapsed(before[k].1, now) <= ttl,
                forall|k: Seq<u8>| #[trigger]
                    kept_map.contains_key(k) ==> kept_map[k] == before[k],
            decreases self.entries@.len() - i,
        {
            let e = &self.entries[i];
            proof {
                assert(self.contents@.contains_key(self.entries@[i as int].key@));
            }
            if elapsed_within(e.stamp, now, ttl) {
                let copy = TableEntry {
                    key: copy_bytes(e.key.as_slice()),
                    value: copy_bytes(e.value.as_slice()),
                    stamp: e.stamp,
                };
                let ghost n = kept@.len() as int;
                let ghost old_kept = kept@;
                proof {
                    assert forall|a: int| 0 <= a < n implies kept@[a].key@ != copy.key@ by {
                        let j = choose|j: int|
                            0 <= j < i && #[trigger] kept@[a].key@ == self.entries@[j].key@;
                        assert(j != i);
                    }
                    kept_map = kept_map.insert(copy.key@, (copy.value@, copy.stamp));
                }
                kept.push(copy);
                proof {
                    assert(kept@[n].key@ == self.entries@[i as int].key@);
                    assert forall|k: Seq<u8>| #[trigger]
                        kept_map.contains_key(k) implies exists|a: int|
                        0 <= a < kept@.len() && kept@[a].key@ == k by {
                        if k != copy.key@ {
                            let a = choose|a: int|
                                0 <= a < n && old_kept[a].key@ == k;
                            assert(kept@[a].key@ == k);
                        } else {
                            assert(kept@[n].key@ == k);
                        }
                    }
                }
            } else {
                proof {
                    assert forall|k: Seq<u8>| #[trigger]
                        kept_map.contains_key(k) implies k != self.entries@[i as int].key@ by {}
                }
            }
            i = i + 1;
        }
        self.entries = kept;
        proof {
            self.contents@ = kept_map;
            assert(self.entries@ == kept@);
            assert forall|a: int|
                #![trigger self.entries@[a]]
                0 <= a < self.entries@.len() implies self.contents@.contains_key(
                self.entries@[a].key@,
            ) && self.contents@[self.entries@[a].key@] == (
                self.entries@[a].value@,
                self.entries@[a].stamp,
            ) by {
                assert(kept@[a] == self.entries@[a]);
            }
            assert(self@ =~= fresh_part(before, now, ttl)) by {
                assert forall|k: Seq<u8>| self@.contains_key(k) <==> fresh_part(
                    before,
                    now,
                    ttl,
                ).contains_key(k) by {
                    if before.contains_key(k) {
                        let j = choose|j: int|
                            0 <= j < old(self).entries@.len() && old(self).entries@[j].key@ == k;
                    }
                }
            }
        }
    }

    /// The keys that begin with `prefix`, each once.
    pub fn keys_with_prefix(&self, prefix: &[u8]) -> (r: Vec<Vec<u8>>)
        requires
            self.wf(),
        ensures
            byte_views(r@).no_duplicates(),
            forall|k: Seq<u8>|
                #[trigger] byte_views(r@).contains(k) <==> self@.contains_key(k) && is_prefix(
                    prefix@,
                    k,
                ),
    {
        let mut r: Vec<Vec<u8>> = Vec::new();
        let mut i: usize = 0;
        while i < self.entries.len()
            invariant
                self.wf(),
                i <= self.entries@.len(),
                r@.len() <= i,
                forall|a: int|
                    0 <= a < r@.len() ==> exists|j: int|
                        0 <= j < i && #[trigger] r@[a]@ == self.entries@[j].key@,
                forall|a: int, b: int|
                    0 <= a < r@.len() && 0 <= b < r@.len() && a != b ==> r@[a]@ != r@[b]@,
                forall|j: int|
                    0 <= j < i && is_prefix(prefix@, #[trigger] self.entries@[j].key@)
                        ==> exists|a: int| 0 <= a < r@.len() && r@[a]@ == self.entries@[j].key@,
                forall|a: int| 0 <= a < r@.len() ==> is_prefix(prefix@, #[trigger] r@[a]@),
            decreases self.entries@.len() - i,
        {
            let ghost old_r = r@;
            let ghost n = r@.len() as int;
            if starts_with(self.entries[i].key.as_slice(), prefix) {
                proof {
                    assert forall|a: int| 0 <= a < n implies r@[a]@ != self.entries@[i as int].key@ by {
                        let j = choose|j: int|
                            0 <= j < i && #[trigger] r@[a]@ == self.entries@[j].key@;
                        assert(j != i);
                    }
                }
                r.push(copy_bytes(self.entries[i].key.as_slice()));
                proof {
                    assert(r@[n]@ == self.entries@[i as int].key@);
                }
            }
            proof {
                assert forall|j: int|
                    0 <= j <= i && is_prefix(prefix@, #[trigger] self.entries@[j].key@) implies exists|
                    a: int,
                | 0 <= a < r@.len() && r@[a]@ == self.entries@[j].key@ by {
                    if j < i {
                        let a = choose|a: int|
                            0 <= a < old_r.len() && old_r[a]@ == self.entries@[j].key@;
                        assert(r@[a] == old_r[a]);
                    } else {
                        assert(r@[n]@ == self.entries@[j].key@);
                    }
                }
            }
            i = i + 1;
        }
        proof {
            let keys = byte_views(r@);
            assert forall|k: Seq<u8>|
                keys.contains(k) <==> self@.contains_key(k) && is_prefix(prefix@, k) by {
                if keys.contains(k) {
                    let a = choose|a: int| 0 <= a < keys.len() && keys[a] == k;
                    assert(r@[a]@ == k);
                    let j = choose|j: int|
                        0 <= j < self.entries@.len() && #[trigger] r@[a]@ == self.entries@[j].key@;
                    assert(self@.contains_key(self.entries@[j].key@));
                }
                if self@.contains_key(k) && is_prefix(prefix@, k) {
                    let j = choose|j: int| 0 <= j < self.entries@.len() && self.entries@[j].key@ == k;
                    let a = choose|a: int| 0 <= a < r@.len() && r@[a]@ == self.entries@[j].key@;
                    assert(keys[a] == k);
                }
            }
        }
        r
    }
}

/// Whether at most `ttl` milliseconds lie between `stamp` and `now`.
fn elapsed_within(stamp: u64, now: u64, ttl: u64) -> (r: bool)
    ensures
        r == (elapsed(stamp, now) <= ttl),
{
    crate::clock::elapsed_millis(stamp, now) <= ttl
}

} // verus!
