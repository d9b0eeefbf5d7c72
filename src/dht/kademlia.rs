//! Kademlia routing table and value store of one node.
use vstd::prelude::*;
use vstd::seq_lib::group_to_multiset_ensures;
use vstd::seq_lib::lemma_multiset_commutative;
use crate::clock::unix_time_millis;
use crate::dht::metric::{
    bucket_of, lemma_lex_irreflexive, lemma_msb_bound, lemma_xor_self, lemma_xor_zero_equal,
    lemma_zeros_least, zeros, lemma_lex_transitive, leading_zero_bits, lex_less, lex_lt,
    msb_from, xor_seq,
};
use crate::table::{fresh_part, ByteTable};
use crate::types::{PeerId, PeerInfo, PeerInfoView};

verus! {

/// Capacity of a bucket.
pub const K: usize = 20;

/// Number of buckets: one per bit of a 256-bit identifier.
pub const ID_BITS: usize = 256;

/// Longest local identifier, in bytes, that the buckets can index.
pub const ID_BYTES: usize = 32;

/// Age beyond which a stored value may be dropped by maintenance: 24 hours.
pub const VALUE_TTL_MS: u64 = 24 * 60 * 60 * 1000;

/// Abstract value of a [`KademliaDht`].
pub struct KademliaDhtView {
    /// The local node's identifier.
    pub local_id: Seq<u8>,
    /// The buckets, by index.
    pub buckets: Seq<Seq<PeerInfoView>>,
    /// Stored values with their write times.
    pub values: Map<Seq<u8>, (Seq<u8>, u64)>,
    /// Whether maintenance is running.
    pub started: bool,
}

/// The views of a sequence of peer records.
pub open spec fn infos_view(s: Seq<PeerInfo>) -> Seq<PeerInfoView> {
    s.map_values(|p: PeerInfo| p@)
}

/// Bucket that the peer `id` belongs to, seen from `local`.
pub open spec fn bucket_for(local: Seq<u8>, id: Seq<u8>) -> int {
    bucket_of(xor_seq(local, id)) as int
}

/// XOR distance from `target` to a peer.
pub open spec fn distance_to(target: Seq<u8>, p: PeerInfoView) -> Seq<u8> {
    xor_seq(target, p.id)
}

/// Routing-table invariant: one bucket per bit, each within capacity, each
/// peer in the bucket its distance selects, and no identifier twice in a
/// bucket.
pub open spec fn table_wf(buckets: Seq<Seq<PeerInfoView>>, local: Seq<u8>) -> bool {
    &&& buckets.len() == ID_BITS
    &&& forall|b: int| 0 <= b < buckets.len() ==> #[trigger] buckets[b].len() <= K
    &&& forall|b: int, j: int|
        0 <= b < buckets.len() && 0 <= j < buckets[b].len() ==> bucket_for(
            local,
            #[trigger] buckets[b][j].id,
        ) == b
    &&& forall|b: int, i: int, j: int|
        0 <= b < buckets.len() && 0 <= i < buckets[b].len() && 0 <= j < buckets[b].len() && i
            != j ==> #[trigger] buckets[b][i].id != #[trigger] buckets[b][j].id
}

/// Whether `bucket` holds a peer with identifier `id`.
pub open spec fn holds_id(bucket: Seq<PeerInfoView>, id: Seq<u8>) -> bool {
    exists|j: int| 0 <= j < bucket.len() && bucket[j].id == id
}

/// The routing table after adding `info`: a full bucket is left as it is;
/// below capacity, a peer already known by that identifier is replaced and
/// a new one is appended.
pub open spec fn table_after_add(
    buckets: Seq<Seq<PeerInfoView>>,
    local: Seq<u8>,
    info: PeerInfoView,
) -> Seq<Seq<PeerInfoView>> {
    let b = bucket_for(local, info.id);
    let bucket = buckets[b];
    if bucket.len() >= K {
        buckets
    } else if holds_id(bucket, info.id) {
        let j = choose|j: int| 0 <= j < bucket.len() && bucket[j].id == info.id;
        buckets.update(b, bucket.update(j, info))
    } else {
        buckets.update(b, bucket.push(info))
    }
}

/// Candidates gathered around bucket `start`: from step `i` on, the buckets
/// `start - i` and `start + i` are appended while fewer than `limit` are
/// gathered and either exists.
pub open spec fn gather_from(
    buckets: Seq<Seq<PeerInfoView>>,
    start: int,
    limit: nat,
    i: int,
    acc: Seq<PeerInfoView>,
) -> Seq<PeerInfoView>
    decreases buckets.len() + start + 1 - i,
{
    if 0 <= start && 1 <= i && acc.len() < limit && (start >= i || start + i < buckets.len()) {
        let lower = if start >= i {
            acc + buckets[start - i]
        } else {
            acc
        };
        let both = if start + i < buckets.len() {
            lower + buckets[start + i]
        } else {
            lower
        };
        gather_from(buckets, start, limit, i + 1, both)
    } else {
        acc
    }
}

/// The candidates a lookup of `target` considers: the bucket of the target,
/// then neighbouring buckets outwards until `limit` are gathered.
pub open spec fn gathered(
    buckets: Seq<Seq<PeerInfoView>>,
    local: Seq<u8>,
    target: Seq<u8>,
    limit: nat,
) -> Seq<PeerInfoView> {
    let s = bucket_for(local, target);
    gather_from(buckets, s, limit, 1, buckets[s])
}

/// `r` is in non-decreasing order of distance to `target`.
pub open spec fn sorted_by_distance(r: Seq<PeerInfoView>, target: Seq<u8>) -> bool {
    forall|i: int, j: int|
        0 <= i < j < r.len() ==> !lex_lt(distance_to(target, r[j]), distance_to(target, r[i]))
}

/// `r` answers a lookup of the `limit` peers closest to `target`: it holds
/// the `limit` nearest of the gathered candidates (all of them if fewer),
/// nearest first.
pub open spec fn closest_result(
    buckets: Seq<Seq<PeerInfoView>>,
    local: Seq<u8>,
    target: Seq<u8>,
    limit: nat,
    r: Seq<PeerInfoView>,
) -> bool {
    let g = gathered(buckets, local, target, limit);
    &&& r.len() == (if limit < g.len() {
        limit
    } else {
        g.len()
    })
    &&& sorted_by_distance(r, target)
    &&& exists|rest: Seq<PeerInfoView>|
        #![trigger (r + rest).to_multiset()]
        (r + rest).to_multiset() == g.to_multiset() && forall|i: int, j: int|
            0 <= i < r.len() && 0 <= j < rest.len() ==> !lex_lt(
                distance_to(target, rest[j]),
                distance_to(target, r[i]),
            )
}

/// State after a start request, and whether maintenance has to be launched.
pub open spec fn after_start(v: KademliaDhtView) -> (KademliaDhtView, bool) {
    (KademliaDhtView { started: true, ..v }, !v.started)
}

/// State after a stop request, and whether running maintenance has to be
/// cancelled.
pub open spec fn after_stop(v: KademliaDhtView) -> (KademliaDhtView, bool) {
    (KademliaDhtView { started: false, ..v }, v.started)
}

/// The value stored under `key`, if any.
pub open spec fn value_of(values: Map<Seq<u8>, (Seq<u8>, u64)>, key: Seq<u8>) -> Option<Seq<u8>> {
    if values.contains_key(key) {
        Some(values[key].0)
    } else {
        None
    }
}

/// The bytes of an optional byte vector.
pub open spec fn opt_bytes(o: Option<Vec<u8>>) -> Option<Seq<u8>> {
    match o {
        Some(v) => Some(v@),
        None => None,
    }
}

/// Kademlia DHT of one node: routing table of distance buckets and value
/// store.
///
/// A full bucket rejects new peers; a peer already known by its identifier
/// is refreshed in place.
pub struct KademliaDht {
    local_id: PeerId,
    routing_table: Vec<Vec<PeerInfo>>,
    storage: ByteTable,
    id_bits: usize,
    started: bool,
}

impl View for KademliaDht {
    type V = KademliaDhtView;

    closed spec fn view(&self) -> KademliaDhtView {
        KademliaDhtView {
            local_id: self.local_id@,
            buckets: self.routing_table@.map_values(|b: Vec<PeerInfo>| infos_view(b@)),
            values: self.storage@,
            started: self.started,
        }
    }
}

/// Adding a peer keeps the routing-table invariant.
pub proof fn lemma_add_keeps_table_wf(
    buckets: Seq<Seq<PeerInfoView>>,
    local: Seq<u8>,
    info: PeerInfoView,
)
    requires
        table_wf(buckets, local),
        0 <= bucket_for(local, info.id) < ID_BITS,
    ensures
        table_wf(table_after_add(buckets, local, info), local),
{
    let b = bucket_for(local, info.id);
    let bucket = buckets[b];
    let nb = table_after_add(buckets, local, info);
    if bucket.len() >= K {
    } else if holds_id(bucket, info.id) {
        let j = choose|j: int| 0 <= j < bucket.len() && bucket[j].id == info.id;
        assert forall|c: int, x: int, y: int|
            0 <= c < nb.len() && 0 <= x < nb[c].len() && 0 <= y < nb[c].len() && x
                != y implies #[trigger] nb[c][x].id != #[trigger] nb[c][y].id by {
            if c == b {
                assert(buckets[c][x].id != buckets[c][y].id);
            }
        }
        assert forall|c: int, x: int|
            0 <= c < nb.len() && 0 <= x < nb[c].len() implies bucket_for(
            local,
            #[trigger] nb[c][x].id,
        ) == c by {
            if c == b && x != j {
                assert(nb[c][x] == buckets[c][x]);
            }
        }
    } else {
        assert forall|c: int, x: int, y: int|
            0 <= c < nb.len() && 0 <= x < nb[c].len() && 0 <= y < nb[c].len() && x
                != y implies #[trigger] nb[c][x].id != #[trigger] nb[c][y].id by {
            if c == b {
                if x < bucket.len() && y < bucket.len() {
                    assert(buckets[c][x].id != buckets[c][y].id);
                } else if x < bucket.len() {
                    assert(nb[c][x] == bucket[x]);
                } else {
                    assert(nb[c][y] == bucket[y]);
                }
            }
        }
        assert forall|c: int, x: int|
            0 <= c < nb.len() && 0 <= x < nb[c].len() implies bucket_for(
            local,
            #[trigger] nb[c][x].id,
        ) == c by {
            if c == b && x < bucket.len() {
                assert(nb[c][x] == buckets[c][x]);
            }
        }
        assert forall|c: int| 0 <= c < nb.len() implies #[trigger] nb[c].len() <= K by {
            if c != b {
                assert(nb[c] == buckets[c]);
            }
        }
    }
}

/// Appends copies of the peers of `bucket` to `out`.
fn append_bucket(out: &mut Vec<PeerInfo>, bucket: &Vec<PeerInfo>)
    ensures
        infos_view(final(out)@) == infos_view(old(out)@) + infos_view(bucket@),
{
    let ghost start = infos_view(out@);
    let mut j: usize = 0;
    while j < bucket.len()
        invariant
            j <= bucket@.len(),
            infos_view(out@) == start + infos_view(bucket@.subrange(0, j as int)),
        decreases bucket@.len() - j,
    {
        let ghost before = out@;
        out.push(bucket[j].clone());
        proof {
            assert(infos_view(out@) =~= infos_view(before).push(bucket@[j as int]@));
            assert(infos_view(bucket@.subrange(0, j + 1)) =~= infos_view(
                bucket@.subrange(0, j as int),
            ).push(bucket@[j as int]@));
        }
        j = j + 1;
    }
    assert(bucket@.subrange(0, bucket@.len() as int) =~= bucket@);
}

/// Index of a peer of `bucket` with identifier `id`.
fn position_of(bucket: &Vec<PeerInfo>, id: &PeerId) -> (r: Option<usize>)
    ensures
        match r {
            Some(j) => j < bucket@.len() && bucket@[j as int]@.id == id@,
            None => !holds_id(infos_view(bucket@), id@),
        },
{
    let mut j: usize = 0;
    while j < bucket.len()
        invariant
            j <= bucket@.len(),
            forall|k: int| 0 <= k < j ==> bucket@[k]@.id != id@,
        decreases bucket@.len() - j,
    {
        if bucket[j].id == *id {
            return Some(j);
        }
        j = j + 1;
    }
    proof {
        let v = infos_view(bucket@);
        assert forall|k: int| 0 <= k < v.len() implies v[k].id != id@ by {
            assert(v[k] == bucket@[k]@);
        }
    }
    None
}

/// Index of a peer of `cands` nearest to `target`, the first of them on a
/// tie.
fn closest_index(cands: &Vec<PeerInfo>, target: &PeerId) -> (m: usize)
    requires
        cands@.len() > 0,
    ensures
        m < cands@.len(),
        forall|j: int|
            0 <= j < cands@.len() ==> !lex_lt(
                distance_to(target@, #[trigger] cands@[j]@),
                distance_to(target@, cands@[m as int]@),
            ),
{
    let mut m: usize = 0;
    let mut best = KademliaDht::xor_distance(target, &cands[0].id);
    let mut j: usize = 1;
    proof {
        lemma_lex_irreflexive(best@);
    }
    while j < cands.len()
        invariant
            1 <= j <= cands@.len(),
            m < j,
            best@ == distance_to(target@, cands@[m as int]@),
            forall|k: int|
                0 <= k < j ==> !lex_lt(
                    distance_to(target@, #[trigger] cands@[k]@),
                    distance_to(target@, cands@[m as int]@),
                ),
        decreases cands@.len() - j,
    {
        let d = KademliaDht::xor_distance(target, &cands[j].id);
        if lex_less(d.as_slice(), best.as_slice()) {
            proof {
                lemma_lex_irreflexive(d@);
                assert forall|k: int| 0 <= k < j + 1 implies !lex_lt(
                    distance_to(target@, #[trigger] cands@[k]@),
                    d@,
                ) by {
                    if k < j && lex_lt(distance_to(target@, cands@[k]@), d@) {
                        lemma_lex_transitive(distance_to(target@, cands@[k]@), d@, best@);
                    }
                }
            }
            m = j;
            best = d;
        }
        j = j + 1;
    }
    m
}

impl KademliaDht {
    /// Well-formed: a local identifier of at most 256 bits, the routing-table
    /// invariant, and a consistent value store.
    pub open spec fn wf(&self) -> bool {
        &&& self.inner_wf()
        &&& self@.local_id.len() <= ID_BYTES
        &&& table_wf(self@.buckets, self@.local_id)
    }

    /// The representation matches the view.
    pub closed spec fn inner_wf(&self) -> bool {
        &&& self.id_bits == ID_BITS
        &&& self.routing_table@.len() == ID_BITS
        &&& self.storage.wf()
    }

    /// An empty DHT for the node `local_id`, not started.
    pub fn new(local_id: PeerId) -> (r: KademliaDht)
        requires
            local_id@.len() <= ID_BYTES,
        ensures
            r.wf(),
            r@.local_id == local_id@,
            r@.buckets == Seq::new(ID_BITS as nat, |b: int| Seq::<PeerInfoView>::empty()),
            r@.values == Map::<Seq<u8>, (Seq<u8>, u64)>::empty(),
            !r@.started,
    {
        let id_bits: usize = ID_BITS;
        let mut routing_table: Vec<Vec<PeerInfo>> = Vec::new();
        let mut i: usize = 0;
        while i < id_bits
            invariant
                id_bits == ID_BITS,
                i <= id_bits,
                routing_table@.len() == i,
                forall|b: int| 0 <= b < i ==> (#[trigger] routing_table@[b])@.len() == 0,
            decreases id_bits - i,
        {
            routing_table.push(Vec::new());
            i = i + 1;
        }
        let r = KademliaDht { local_id, routing_table, storage: ByteTable::new(), id_bits, started: false };
        proof {
            assert forall|b: int| 0 <= b < ID_BITS implies r@.buckets[b] =~= Seq::<
                PeerInfoView,
            >::empty() by {
                assert(r.routing_table@[b]@.len() == 0);
            }
            assert(r@.buckets =~= Seq::new(ID_BITS as nat, |b: int| Seq::<PeerInfoView>::empty()));
        }
        r
    }

    /// XOR distance of two identifiers over their common length.
    pub fn xor_distance(id1: &PeerId, id2: &PeerId) -> (r: Vec<u8>)
        ensures
            r@ == xor_seq(id1@, id2@),
    {
        let a = id1.as_bytes();
        let b = id2.as_bytes();
        let len = if a.len() <= b.len() {
            a.len()
        } else {
            b.len()
        };
        let mut result: Vec<u8> = Vec::new();
        let mut i: usize = 0;
        while i < len
            invariant
                len <= a@.len(),
                len <= b@.len(),
                len == xor_seq(id1@, id2@).len(),
                a@ == id1@,
                b@ == id2@,
                i <= len,
                result@ =~= xor_seq(id1@, id2@).subrange(0, i as int),
            decreases len - i,
        {
            result.push(a[i] ^ b[i]);
            i = i + 1;
        }
        result
    }

    /// Bucket index of a distance: the offset of its most significant set
    /// bit, counted from bit 7 of the first byte; 0 for a zero distance.
    pub fn bucket_index(distance: &[u8]) -> (r: usize)
        requires
            distance@.len() * 8 <= usize::MAX,
        ensures
            r == bucket_of(distance@),
    {
        let mut byte_idx: usize = 0;
        while byte_idx < distance.len()
            invariant
                byte_idx <= distance@.len(),
                distance@.len() * 8 <= usize::MAX,
                msb_from(distance@, 0) == msb_from(distance@, byte_idx as nat),
            decreases distance@.len() - byte_idx,
        {
            let byte = distance[byte_idx];
            if byte != 0 {
                assert(byte_idx * 8 + 8 <= distance@.len() * 8) by (nonlinear_arith)
                    requires
                        byte_idx < distance@.len(),
                ;
                return byte_idx * 8 + leading_zero_bits(byte);
            }
            byte_idx = byte_idx + 1;
        }
        0
    }

    /// Adds `peer` to the bucket selected by its distance from the local
    /// node. A full bucket is left unchanged and the peer dropped; below
    /// capacity, a peer with the same identifier is replaced and a new one
    /// appended.
    pub fn add_peer(&mut self, peer: PeerInfo)
        requires
            old(self).wf(),
        ensures
            final(self).wf(),
            final(self)@ == (KademliaDhtView {
                buckets: table_after_add(old(self)@.buckets, old(self)@.local_id, peer@),
                ..old(self)@
            }),
    {
        let distance = Self::xor_distance(&self.local_id, &peer.id);
        let b = Self::bucket_index(distance.as_slice());
        let ghost old_rt = self.routing_table@;
        let ghost info = peer@;
        proof {
            lemma_msb_bound(distance@, 0);
            lemma_add_keeps_table_wf(self@.buckets, self@.local_id, info);
            assert(old_rt[b as int]@.len() <= K) by {
                assert(self@.buckets[b as int].len() <= K);
            }
        }
        if self.routing_table[b].len() < K {
            match position_of(&self.routing_table[b], &peer.id) {
                Some(j) => {
                    proof {
                        let bucket = self@.buckets[b as int];
                        assert(bucket[j as int].id == info.id);
                        let c = choose|c: int| 0 <= c < bucket.len() && bucket[c].id == info.id;
                        assert(c == j as int);
                    }
                    self.routing_table[b].set(j, peer);
                    proof {
                        assert(self.routing_table@ == old_rt.update(
                            b as int,
                            self.routing_table@[b as int],
                        ));
                        assert(infos_view(self.routing_table@[b as int]@) =~= infos_view(
                            old_rt[b as int]@,
                        ).update(j as int, info));
                    }
                },
                None => {
                    self.routing_table[b].push(peer);
                    proof {
                        assert(self.routing_table@ == old_rt.update(
                            b as int,
                            self.routing_table@[b as int],
                        ));
                        assert(infos_view(self.routing_table@[b as int]@) =~= infos_view(
                            old_rt[b as int]@,
                        ).push(info));
                    }
                },
            }
        }
        proof {
            assert(self@.buckets =~= table_after_add(old(self)@.buckets, old(self)@.local_id, info));
        }
    }

    /// Up to `limit` peers ordered by XOR distance to `target`, nearest
    /// first. Candidates are gathered from the target's bucket outwards
    /// (one below, one above, two below, ...) until `limit` are found or the
    /// buckets run out; the nearest `limit` of them are returned.
    pub fn get_closest_peers(&self, target: &PeerId, limit: usize) -> (r: Vec<PeerInfo>)
        requires
            self.wf(),
        ensures
            closest_result(self@.buckets, self@.local_id, target@, limit as nat, infos_view(r@)),
    {
        let ghost buckets = self@.buckets;
        let target_distance = Self::xor_distance(&self.local_id, target);
        let start = Self::bucket_index(target_distance.as_slice());
        proof {
            lemma_msb_bound(target_distance@, 0);
        }
        let ghost g = gather_from(buckets, start as int, limit as nat, 1, buckets[start as int]);
        let mut result: Vec<PeerInfo> = Vec::new();
        append_bucket(&mut result, &self.routing_table[start]);
        proof {
            assert(infos_view(result@) =~= buckets[start as int]);
        }
        let mut i: usize = 1;
        while result.len() < limit && (start >= i || start + i < self.id_bits)
            invariant
                self.wf(),
                buckets == self@.buckets,
                start < ID_BITS,
                1 <= i <= ID_BITS + 1,
                gather_from(buckets, start as int, limit as nat, i as int, infos_view(result@))
                    == g,
            decreases ID_BITS + start + 1 - i,
        {
            if start >= i {
                append_bucket(&mut result, &self.routing_table[start - i]);
            }
            if start + i < self.id_bits {
                append_bucket(&mut result, &self.routing_table[start + i]);
            }
            i = i + 1;
        }
        proof {
            assert(infos_view(result@) == g);
        }
        let mut rem = result;
        let mut out: Vec<PeerInfo> = Vec::new();
        while out.len() < limit && rem.len() > 0
            invariant
                (infos_view(out@) + infos_view(rem@)).to_multiset() == g.to_multiset(),
                out@.len() <= limit,
                sorted_by_distance(infos_view(out@), target@),
                forall|a: int, c: int|
                    0 <= a < out@.len() && 0 <= c < rem@.len() ==> !lex_lt(
                        distance_to(target@, #[trigger] rem@[c]@),
                        distance_to(target@, #[trigger] out@[a]@),
                    ),
            decreases rem@.len(),
        {
            let m = closest_index(&rem, target);
            let ghost ov = infos_view(out@);
            let ghost rv = infos_view(rem@);
            let ghost old_out = out@;
            let ghost old_rem = rem@;
            let p = rem.remove(m);
            out.push(p);
            proof {
                broadcast use group_to_multiset_ensures;
                let x = rv[m as int];
                assert(infos_view(out@) =~= ov.push(x));
                assert(infos_view(rem@) =~= rv.remove(m as int));
                lemma_multiset_commutative(ov.push(x), rv.remove(m as int));
                lemma_multiset_commutative(ov, rv);
                assert(rv.to_multiset().count(x) > 0) by {
                    assert(rv.contains(x)) by {
                        assert(rv[m as int] == x);
                    }
                }
                assert((infos_view(out@) + infos_view(rem@)).to_multiset() =~= (ov
                    + rv).to_multiset());
                assert forall|a: int, c: int|
                    0 <= a < out@.len() && 0 <= c < rem@.len() implies !lex_lt(
                    distance_to(target@, #[trigger] rem@[c]@),
                    distance_to(target@, #[trigger] out@[a]@),
                ) by {
                    let oc = if c < m { c } else { c + 1 };
                    assert(rem@[c] == old_rem[oc]);
                    if a < old_out.len() {
                        assert(out@[a] == old_out[a]);
                    }
                }
                assert forall|a: int, c: int|
                    0 <= a < c < infos_view(out@).len() implies !lex_lt(
                    distance_to(target@, infos_view(out@)[c]),
                    distance_to(target@, infos_view(out@)[a]),
                ) by {
                    if c < old_out.len() {
                        assert(infos_view(out@)[c] == ov[c]);
                        assert(infos_view(out@)[a] == ov[a]);
                    } else {
                        assert(out@[a] == old_out[a]);
                        assert(old_rem[m as int] == out@[c]);
                    }
                }
            }
        }
        proof {
            broadcast use group_to_multiset_ensures;
            let rv = infos_view(rem@);
            let ov = infos_view(out@);
            assert((ov + rv).len() == g.len()) by {
                assert((ov + rv).to_multiset().len() == (ov + rv).len());
                assert(g.to_multiset().len() == g.len());
            }
            assert forall|a: int, c: int| 0 <= a < ov.len() && 0 <= c < rv.len() implies !lex_lt(
                distance_to(target@, rv[c]),
                distance_to(target@, ov[a]),
            ) by {
                assert(rv[c] == rem@[c]@);
                assert(ov[a] == out@[a]@);
            }
            assert(gathered(buckets, self@.local_id, target@, limit as nat) == g);
        }
        out
    }

    /// The peers of the local routing table closest to `target`: the
    /// nearest `K` by the lookup of [`Self::get_closest_peers`].
    pub fn find_nodes(&self, target: &PeerId) -> (r: Vec<PeerInfo>)
        requires
            self.wf(),
        ensures
            closest_result(self@.buckets, self@.local_id, target@, K as nat, infos_view(r@)),
    {
        self.get_closest_peers(target, K)
    }

    /// Launches maintenance unless it runs already. Returns whether a
    /// maintenance process has to be started now.
    pub fn start(&mut self) -> (launch: bool)
        ensures
            (final(self)@, launch) == after_start(old(self)@),
            old(self).wf() ==> final(self).wf(),
    {
        if self.started {
            return false;
        }
        self.started = true;
        true
    }

    /// Stops maintenance. Returns whether a running maintenance process has
    /// to be cancelled now.
    pub fn stop(&mut self) -> (cancel: bool)
        ensures
            (final(self)@, cancel) == after_stop(old(self)@),
            old(self).wf() ==> final(self).wf(),
    {
        if !self.started {
            return false;
        }
        self.started = false;
        true
    }

    /// Whether maintenance runs.
    pub fn is_started(&self) -> (r: bool)
        ensures
            r == self@.started,
    {
        self.started
    }

    /// One maintenance cycle at time `now`: drops the values whose age
    /// exceeds the TTL.
    pub fn expire_values(&mut self, now: u64)
        requires
            old(self).wf(),
        ensures
            final(self).wf(),
            final(self)@ == (KademliaDhtView {
                values: fresh_part(old(self)@.values, now, VALUE_TTL_MS),
                ..old(self)@
            }),
    {
        self.storage.retain_fresh(now, VALUE_TTL_MS);
    }

    /// The locally stored value of `key`, if any.
    pub fn find_value(&self, key: &[u8]) -> (r: Option<Vec<u8>>)
        requires
            self.wf(),
        ensures
            opt_bytes(r) == value_of(self@.values, key@),
    {
        match self.storage.get(key) {
            Some(v) => Some(crate::bytes::copy_bytes(v.as_slice())),
            None => None,
        }
    }

    /// Stores `value` under `key`, stamped with the current time, replacing
    /// any earlier value.
    pub fn store(&mut self, key: &[u8], value: &[u8])
        requires
            old(self).wf(),
        ensures
            final(self).wf(),
            final(self)@.values == old(self)@.values.insert(
                key@,
                (value@, final(self)@.values[key@].1),
            ),
            final(self)@.local_id == old(self)@.local_id,
            final(self)@.buckets == old(self)@.buckets,
            final(self)@.started == old(self)@.started,
    {
        let now = unix_time_millis();
        self.storage.insert(key, value, now);
    }
}

proof fn lemma_gather_keeps(
    buckets: Seq<Seq<PeerInfoView>>,
    start: int,
    limit: nat,
    i: int,
    acc: Seq<PeerInfoView>,
    x: PeerInfoView,
)
    requires
        acc.contains(x),
    ensures
        gather_from(buckets, start, limit, i, acc).contains(x),
    decreases buckets.len() + start + 1 - i,
{
    if 0 <= start && 1 <= i && acc.len() < limit && (start >= i || start + i < buckets.len()) {
        let lower = if start >= i {
            acc + buckets[start - i]
        } else {
            acc
        };
        let both = if start + i < buckets.len() {
            lower + buckets[start + i]
        } else {
            lower
        };
        let k = choose|k: int| 0 <= k < acc.len() && acc[k] == x;
        assert(lower[k] == x);
        assert(both[k] == x);
        lemma_gather_keeps(buckets, start, limit, i + 1, both, x);
    }
}

proof fn lemma_gather_origin(
    buckets: Seq<Seq<PeerInfoView>>,
    start: int,
    limit: nat,
    i: int,
    acc: Seq<PeerInfoView>,
    x: PeerInfoView,
)
    requires
        start < buckets.len(),
        gather_from(buckets, start, limit, i, acc).contains(x),
    ensures
        acc.contains(x) || exists|b: int, j: int|
            0 <= b < buckets.len() && 0 <= j < buckets[b].len() && buckets[b][j] == x,
    decreases buckets.len() + start + 1 - i,
{
    if 0 <= start && 1 <= i && acc.len() < limit && (start >= i || start + i < buckets.len()) {
        let lower = if start >= i {
            acc + buckets[start - i]
        } else {
            acc
        };
        let both = if start + i < buckets.len() {
            lower + buckets[start + i]
        } else {
            lower
        };
        lemma_gather_origin(buckets, start, limit, i + 1, both, x);
        if both.contains(x) && !acc.contains(x) {
            let k = choose|k: int| 0 <= k < both.len() && both[k] == x;
            if k >= lower.len() {
                let b = start + i;
                let j = k - lower.len();
                assert(0 <= b < buckets.len() && 0 <= j < buckets[b].len() && buckets[b][j] == x);
            } else if k < acc.len() {
                assert(lower[k] == acc[k]);
            } else {
                if start < i {
                    assert(lower == acc);
                }
                let b = start - i;
                let j = k - acc.len();
                assert(lower[k] == x);
                assert(0 <= b < buckets.len() && 0 <= j < buckets[b].len() && buckets[b][j] == x);
            }
        }
    }
}

/// A lookup returns at most `limit` peers, in non-decreasing order of XOR
/// distance to the target.
pub proof fn closest_result_is_bounded_and_sorted(
    buckets: Seq<Seq<PeerInfoView>>,
    local: Seq<u8>,
    target: Seq<u8>,
    limit: nat,
    r: Seq<PeerInfoView>,
)
    requires
        closest_result(buckets, local, target, limit, r),
    ensures
        r.len() <= limit,
        forall|i: int, j: int|
            0 <= i < j < r.len() ==> !lex_lt(distance_to(target, r[j]), distance_to(target, r[i])),
{
}

/// A peer added while its bucket has room is among the `K` closest peers
/// that a lookup of its own identifier returns, when all identifiers in the
/// table have one length.
pub proof fn added_peer_is_found(
    buckets: Seq<Seq<PeerInfoView>>,
    local: Seq<u8>,
    info: PeerInfoView,
    r: Seq<PeerInfoView>,
)
    requires
        table_wf(buckets, local),
        local.len() <= ID_BYTES,
        buckets[bucket_for(local, info.id)].len() < K,
        forall|b: int, j: int|
            0 <= b < table_after_add(buckets, local, info).len() && 0 <= j < table_after_add(
                buckets,
                local,
                info,
            )[b].len()
                ==> (#[trigger] table_after_add(buckets, local, info)[b][j]).id.len()
                == info.id.len(),
        closest_result(table_after_add(buckets, local, info), local, info.id, K as nat, r),
    ensures
        r.contains(info),
{
    broadcast use group_to_multiset_ensures;
    let nb = table_after_add(buckets, local, info);
    let s = bucket_for(local, info.id);
    lemma_msb_bound(xor_seq(local, info.id), 0);
    lemma_add_keeps_table_wf(buckets, local, info);
    let bucket = buckets[s];
    let ji = if holds_id(bucket, info.id) {
        choose|j: int| 0 <= j < bucket.len() && bucket[j].id == info.id
    } else {
        bucket.len() as int
    };
    assert(0 <= ji < nb[s].len() && nb[s][ji] == info);
    let g = gathered(nb, local, info.id, K as nat);
    assert(nb[s].contains(info)) by {
        assert(nb[s][ji] == info);
    }
    lemma_gather_keeps(nb, s, K as nat, 1, nb[s], info);
    let rest = choose|rest: Seq<PeerInfoView>|
        #![trigger (r + rest).to_multiset()]
        (r + rest).to_multiset() == g.to_multiset() && forall|i: int, j: int|
            0 <= i < r.len() && 0 <= j < rest.len() ==> !lex_lt(
                distance_to(info.id, rest[j]),
                distance_to(info.id, r[i]),
            );
    assert(g.to_multiset().count(info) > 0);
    assert((r + rest).to_multiset().count(info) > 0);
    assert((r + rest).contains(info));
    if !r.contains(info) {
        let k = choose|k: int| 0 <= k < (r + rest).len() && (r + rest)[k] == info;
        assert(k >= r.len());
        let c = k - r.len();
        assert(rest[c] == info);
        assert(g.len() > 0);
        let r0 = r[0];
        assert((r + rest)[0] == r0);
        assert((r + rest).contains(r0));
        assert((r + rest).to_multiset().count(r0) > 0);
        assert(g.to_multiset().count(r0) > 0);
        assert(g.contains(r0));
        lemma_gather_origin(nb, s, K as nat, 1, nb[s], r0);
        let (b0, j0) = if nb[s].contains(r0) {
            let j = choose|j: int| 0 <= j < nb[s].len() && nb[s][j] == r0;
            (s, j)
        } else {
            choose|b: int, j: int| 0 <= b < nb.len() && 0 <= j < nb[b].len() && nb[b][j] == r0
        };
        assert(nb[b0][j0] == r0);
        assert(r0.id.len() == info.id.len());
        lemma_xor_self(info.id);
        assert(!lex_lt(distance_to(info.id, rest[c]), distance_to(info.id, r[0])));
        assert(distance_to(info.id, rest[c]) == zeros(info.id.len()));
        assert(distance_to(info.id, r0).len() == info.id.len());
        assert(!lex_lt(zeros(info.id.len()), distance_to(info.id, r0)));
        lemma_zeros_least(distance_to(info.id, r0));
        lemma_xor_zero_equal(info.id, r0.id);
        assert(bucket_for(local, nb[b0][j0].id) == b0);
        assert(b0 == s);
        if j0 != ji {
            assert(nb[s][j0].id != nb[s][ji].id);
        }
        assert(r0 == info);
    }
}

/// After `store(key, value)`, `find_value(key)` returns `value`.
pub proof fn stored_value_is_found(
    before: Map<Seq<u8>, (Seq<u8>, u64)>,
    after: Map<Seq<u8>, (Seq<u8>, u64)>,
    key: Seq<u8>,
    value: Seq<u8>,
)
    requires
        after == before.insert(key, (value, after[key].1)),
    ensures
        value_of(after, key) == Some(value),
{
}

/// Starting twice leaves the state of starting once, and the second start
/// launches no maintenance.
pub proof fn start_is_idempotent(v: KademliaDhtView)
    ensures
        after_start(after_start(v).0).0 == after_start(v).0,
        !after_start(after_start(v).0).1,
{
}

/// Stopping twice leaves the state of stopping once, and the second stop
/// cancels nothing.
pub proof fn stop_is_idempotent(v: KademliaDhtView)
    ensures
        after_stop(after_stop(v).0).0 == after_stop(v).0,
        !after_stop(after_stop(v).0).1,
{
}

} // verus!
