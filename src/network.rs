//! The overlay's message envelope, per-peer state, and the decisions of the
//! node orchestrator.
//!
//! [`Node`] owns the identity, the listen settings, the kinds of the
//! registered transports, the optional DHT and the peer registry. The work
//! that needs a network (listening, sending, discovery) is carried out by
//! the caller: the node says what to do and records what happened.

pub mod message;
pub mod peer;

use vstd::prelude::*;
use crate::dht::kademlia::{
    after_start, after_stop, closest_result, holds_id, infos_view, KademliaDht, KademliaDhtView, K,
    VALUE_TTL_MS,
};
use crate::table::fresh_part;
use crate::clock::unix_time_millis;
use crate::error::Error;
use crate::types::{PeerId, PeerInfo, PeerInfoView, TransportType};
use self::message::{Message, MessageType};
use self::peer::{Peer, PeerStatus, PeerView};
use vstd::string::StringExecFns;

verus! {

/// Abstract value of a [`Node`].
pub struct NodeView {
    pub peer_id: Seq<u8>,
    pub listen_addr: Seq<char>,
    pub port: u16,
    pub transports: Seq<TransportType>,
    pub dht: Option<KademliaDhtView>,
    pub peers: Seq<PeerView>,
    pub connected: bool,
}

/// A message ready to be handed to a transport.
pub struct Outgoing {
    /// The transport to use.
    pub transport: TransportType,
    /// The recipient's address.
    pub address: String,
    /// The envelope to send.
    pub message: Message,
}

/// The metadata of the registered peers, in registry order.
pub open spec fn peer_infos(peers: Seq<PeerView>) -> Seq<PeerInfoView> {
    peers.map_values(|p: PeerView| p.info)
}

/// No identifier is registered twice.
pub open spec fn ids_unique(peers: Seq<PeerView>) -> bool {
    forall|i: int, j: int|
        0 <= i < peers.len() && 0 <= j < peers.len() && i != j ==> peers[i].info.id
            != peers[j].info.id
}

/// The registry after taking in `found` in order: each record whose
/// identifier is not yet known is appended.
pub open spec fn register(known: Seq<PeerInfoView>, found: Seq<PeerInfoView>) -> Seq<PeerInfoView>
    decreases found.len(),
{
    if found.len() == 0 {
        known
    } else {
        let before = register(known, found.drop_last());
        if holds_id(before, found.last().id) {
            before
        } else {
            before.push(found.last())
        }
    }
}

/// Transports to listen on for a connect request: all of them, or none when
/// the node is connected already.
pub open spec fn listen_targets(v: NodeView) -> Seq<TransportType> {
    if v.connected {
        Seq::empty()
    } else {
        v.transports
    }
}

/// Transports to close for a disconnect request: all of them, or none when
/// the node is not connected.
pub open spec fn close_targets(v: NodeView) -> Seq<TransportType> {
    if v.connected {
        v.transports
    } else {
        Seq::empty()
    }
}

/// Why a send to `id` cannot be made, if it cannot: the peer is unknown,
/// no transport is registered, or the peer's address is unknown.
pub open spec fn send_refused(v: NodeView, id: Seq<u8>) -> bool {
    ||| !holds_id(peer_infos(v.peers), id)
    ||| v.transports.len() == 0
    ||| (exists|i: int|
        0 <= i < v.peers.len() && v.peers[i].info.id == id && v.peers[i].info.address.is_none())
}

/// `o` carries `data` from the node to the registered peer `i`, by the first
/// registered transport, to the peer's address.
pub open spec fn delivers(v: NodeView, i: int, data: Seq<u8>, o: Outgoing) -> bool {
    &&& v.transports.len() > 0
    &&& o.transport == v.transports[0]
    &&& Some(o.address@) == v.peers[i].info.address
    &&& o.message.from@ == v.peer_id
    &&& o.message.to.is_some() && o.message.to.unwrap()@ == v.peers[i].info.id
    &&& o.message.message_type == MessageType::Data
    &&& o.message.data@ == data
}

/// The registered peers that can be sent to: those with a known address,
/// when a transport is registered.
pub open spec fn reachable(v: NodeView, i: int) -> bool {
    v.transports.len() > 0 && v.peers[i].info.address.is_some()
}

/// Indices of the registered peers below `n` that can be sent to, in
/// registry order.
pub open spec fn reachable_below(v: NodeView, n: int) -> Seq<int>
    decreases n,
{
    if n <= 0 {
        Seq::empty()
    } else if reachable(v, n - 1) {
        reachable_below(v, n - 1).push(n - 1)
    } else {
        reachable_below(v, n - 1)
    }
}

/// `found` followed by what the DHT lookup of the node's own identifier
/// may return, if the node has a DHT.
pub open spec fn discovered(v: NodeView, found: Seq<PeerInfoView>, r: Seq<PeerInfoView>) -> bool {
    match v.dht {
        Some(d) => exists|tail: Seq<PeerInfoView>|
            closest_result(d.buckets, d.local_id, v.peer_id, K as nat, tail) && r == found + tail,
        None => r == found,
    }
}

/// `plan` is the broadcast of `data`: one send to each registered peer that
/// can be sent to, in registry order.
pub open spec fn broadcast_sends(v: NodeView, data: Seq<u8>, plan: Seq<Outgoing>) -> bool {
    &&& plan.len() == reachable_below(v, v.peers.len() as int).len()
    &&& forall|k: int|
        0 <= k < plan.len() ==> delivers(
            v,
            #[trigger] reachable_below(v, v.peers.len() as int)[k],
            data,
            plan[k],
        )
}

/// A registered peer after a contact with `id` at `now`: the peer `id`
/// was last seen at `now`; any other peer is unchanged.
pub open spec fn contact_at(before: PeerView, id: Seq<u8>, now: u64) -> PeerView {
    if before.info.id == id {
        PeerView { last_seen: now, ..before }
    } else {
        before
    }
}

/// `after` is the registry `before` once a contact with `id` at `now` is
/// recorded.
pub open spec fn contacts_recorded(
    before: Seq<PeerView>,
    after: Seq<PeerView>,
    id: Seq<u8>,
    now: u64,
) -> bool {
    &&& after.len() == before.len()
    &&& forall|i: int| 0 <= i < before.len() ==> #[trigger] after[i] == contact_at(before[i], id, now)
}

/// The orchestrator of one node.
pub struct Node {
    peer_id: PeerId,
    listen_addr: String,
    port: u16,
    transports: Vec<TransportType>,
    dht: Option<KademliaDht>,
    peers: Vec<Peer>,
    connected: bool,
}

impl View for Node {
    type V = NodeView;

    closed spec fn view(&self) -> NodeView {
        NodeView {
            peer_id: self.peer_id@,
            listen_addr: self.listen_addr@,
            port: self.port,
            transports: self.transports@,
            dht: match self.dht {
                Some(d) => Some(d@),
                None => None,
            },
            peers: self.peers@.map_values(|p: Peer| p@),
            connected: self.connected,
        }
    }
}

impl Node {
    /// Registry identifiers unique, and the DHT, if any, well-formed.
    pub open spec fn wf(&self) -> bool {
        &&& ids_unique(self@.peers)
        &&& self.dht_wf()
    }

    /// The DHT, if any, is well-formed.
    pub closed spec fn dht_wf(&self) -> bool {
        match self.dht {
            Some(d) => d.wf(),
            None => true,
        }
    }

    /// A node with no known peers, not connected, with transports of the
    /// given kinds.
    pub fn new(
        peer_id: PeerId,
        listen_addr: String,
        port: u16,
        transports: Vec<TransportType>,
        dht: Option<KademliaDht>,
    ) -> (r: Node)
        requires
            match dht {
                Some(d) => d.wf(),
                None => true,
            },
        ensures
            r.wf(),
            r@.peer_id == peer_id@,
            r@.listen_addr == listen_addr@,
            r@.port == port,
            r@.transports == transports@,
            r@.dht == match dht {
                Some(d) => Some(d@),
                None => None::<KademliaDhtView>,
            },
            r@.peers.len() == 0,
            !r@.connected,
    {
        Node { peer_id, listen_addr, port, transports, dht, peers: Vec::new(), connected: false }
    }

    /// The node's identifier.
    pub fn peer_id(&self) -> (r: &PeerId)
        ensures
            r@ == self@.peer_id,
    {
        &self.peer_id
    }

    /// The address to listen on.
    pub fn listen_addr(&self) -> (r: &String)
        ensures
            r@ == self@.listen_addr,
    {
        &self.listen_addr
    }

    /// The port to listen on.
    pub fn port(&self) -> (r: u16)
        ensures
            r == self@.port,
    {
        self.port
    }

    /// Whether the transports are listening.
    pub fn is_connected(&self) -> (r: bool)
        ensures
            r == self@.connected,
    {
        self.connected
    }

    /// The transports to start listening on for a connect request, in
    /// order; none when connected already. The caller stops at the first
    /// failure and reports it; after all succeed it calls
    /// [`Self::mark_connected`].
    pub fn listen_plan(&self) -> (r: Vec<TransportType>)
        ensures
            r@ == listen_targets(self@),
    {
        if self.connected {
            Vec::new()
        } else {
            self.transports.clone()
        }
    }

    /// Records that every transport listens.
    pub fn mark_connected(&mut self)
        ensures
            final(self)@ == (NodeView { connected: true, ..old(self)@ }),
            old(self).wf() ==> final(self).wf(),
    {
        self.connected = true;
    }

    /// The transports to close for a disconnect request, in order; none when
    /// not connected. After all are closed the caller calls
    /// [`Self::mark_disconnected`].
    pub fn close_plan(&self) -> (r: Vec<TransportType>)
        ensures
            r@ == close_targets(self@),
    {
        if self.connected {
            self.transports.clone()
        } else {
            Vec::new()
        }
    }

    /// Records that every transport is closed.
    pub fn mark_disconnected(&mut self)
        ensures
            final(self)@ == (NodeView { connected: false, ..old(self)@ }),
            old(self).wf() ==> final(self).wf(),
    {
        self.connected = false;
    }

    /// Registry index of the peer `id`.
    fn position(&self, id: &PeerId) -> (r: Option<usize>)
        ensures
            match r {
                Some(i) => i < self@.peers.len() && self@.peers[i as int].info.id == id@,
                None => !holds_id(peer_infos(self@.peers), id@),
            },
    {
        let mut i: usize = 0;
        while i < self.peers.len()
            invariant
                i <= self@.peers.len(),
                forall|k: int| 0 <= k < i ==> self@.peers[k].info.id != id@,
            decreases self@.peers.len() - i,
        {
            if self.peers[i].info().id == *id {
                return Some(i);
            }
            i = i + 1;
        }
        proof {
            let v = peer_infos(self@.peers);
            assert forall|k: int| 0 <= k < v.len() implies v[k].id != id@ by {
                assert(v[k] == self@.peers[k].info);
            }
        }
        None
    }

    /// The message for a send of `data` to the peer `peer_id`, with the
    /// transport and address to use: the first registered transport, and the
    /// address the peer announced. Fails with a network error when the peer
    /// is unknown, no transport is registered, or the peer's address is
    /// unknown.
    pub fn prepare_send(&self, peer_id: &PeerId, data: &[u8]) -> (r: Result<Outgoing, Error>)
        requires
            self.wf(),
        ensures
            r.is_err() == send_refused(self@, peer_id@),
            match r {
                Ok(o) => exists|i: int|
                    0 <= i < self@.peers.len() && self@.peers[i].info.id == peer_id@ && delivers(
                        self@,
                        i,
                        data@,
                        o,
                    ),
                Err(e) => e is Network,
            },
    {
        let i = match self.position(peer_id) {
            Some(i) => i,
            None => {
                let text = String::from_str("peer not found: ").concat(peer_id.to_string().as_str());
                return Err(Error::Network(text));
            },
        };
        let ghost v = self@;
        proof {
            assert(holds_id(peer_infos(v.peers), peer_id@)) by {
                assert(peer_infos(v.peers)[i as int] == v.peers[i as int].info);
            }
            assert forall|k: int|
                0 <= k < v.peers.len() && v.peers[k].info.id == peer_id@ implies k == i by {}
        }
        if self.transports.len() == 0 {
            return Err(Error::Network(String::from_str("no transport available")));
        }
        let info = self.peers[i].info();
        match &info.address {
            Some(address) => {
                let message = Message::new_data(
                    self.peer_id.clone(),
                    peer_id.clone(),
                    crate::bytes::copy_bytes(data),
                );
                let o = Outgoing { transport: self.transports[0], address: address.clone(), message };
                proof {
                    assert(delivers(v, i as int, data@, o));
                }
                Ok(o)
            },
            None => {
                let text = String::from_str("peer address unknown: ").concat(
                    peer_id.to_string().as_str(),
                );
                Err(Error::Network(text))
            },
        }
    }

    /// The sends of a broadcast of `data`: one to every registered peer that
    /// can be sent to, in registry order. A peer that cannot be sent to is
    /// skipped, and a failed send is no reason to stop: each entry is
    /// carried out on its own, and the broadcast succeeds.
    pub fn broadcast_plan(&self, data: &[u8]) -> (r: Vec<Outgoing>)
        requires
            self.wf(),
        ensures
            broadcast_sends(self@, data@, r@),
    {
        let ghost v = self@;
        let mut r: Vec<Outgoing> = Vec::new();
        let mut i: usize = 0;
        while i < self.peers.len()
            invariant
                self.wf(),
                v == self@,
                i <= v.peers.len(),
                r@.len() == reachable_below(v, i as int).len(),
                forall|k: int|
                    0 <= k < r@.len() ==> delivers(
                        v,
                        #[trigger] reachable_below(v, i as int)[k],
                        data@,
                        r@[k],
                    ),
            decreases v.peers.len() - i,
        {
            let id = self.peers[i].info().id.clone();
            let sent = self.prepare_send(&id, data);
            proof {
                assert(v.peers[i as int].info.id == id@);
                assert forall|k: int|
                    0 <= k < v.peers.len() && v.peers[k].info.id == id@ implies k == i by {}
                assert(holds_id(peer_infos(v.peers), id@)) by {
                    assert(peer_infos(v.peers)[i as int] == v.peers[i as int].info);
                }
            }
            match sent {
                Ok(o) => {
                    r.push(o);
                },
                Err(_) => {},
            }
            i = i + 1;
        }
        r
    }

    /// Snapshot of the metadata of every registered peer, in registry
    /// order.
    pub fn peers(&self) -> (r: Vec<PeerInfo>)
        ensures
            infos_view(r@) == peer_infos(self@.peers),
    {
        let mut r: Vec<PeerInfo> = Vec::new();
        let mut i: usize = 0;
        while i < self.peers.len()
            invariant
                i <= self@.peers.len(),
                infos_view(r@) == peer_infos(self@.peers).subrange(0, i as int),
            decreases self@.peers.len() - i,
        {
            let ghost before = r@;
            r.push(self.peers[i].info().clone());
            proof {
                assert(infos_view(r@) =~= infos_view(before).push(self@.peers[i as int].info));
                assert(peer_infos(self@.peers).subrange(0, i + 1) =~= peer_infos(
                    self@.peers,
                ).subrange(0, i as int).push(self@.peers[i as int].info));
            }
            i = i + 1;
        }
        proof {
            assert(peer_infos(self@.peers).subrange(0, self@.peers.len() as int) =~= peer_infos(
                self@.peers,
            ));
        }
        r
    }

    /// Records a successful contact with the peer `peer_id`, if registered:
    /// its last-seen time becomes the clock's reading.
    pub fn record_contact(&mut self, peer_id: &PeerId)
        requires
            old(self).wf(),
        ensures
            final(self).wf(),
            final(self)@ == (NodeView { peers: final(self)@.peers, ..old(self)@ }),
            exists|now: u64| contacts_recorded(old(self)@.peers, final(self)@.peers, peer_id@, now),
    {
        let now = unix_time_millis();
        self.record_contact_at(peer_id, now);
    }

    /// Records a successful contact with the peer `peer_id` at `now`, if
    /// registered: its last-seen time becomes `now`.
    pub fn record_contact_at(&mut self, peer_id: &PeerId, now: u64)
        requires
            old(self).wf(),
        ensures
            final(self).wf(),
            final(self)@ == (NodeView { peers: final(self)@.peers, ..old(self)@ }),
            contacts_recorded(old(self)@.peers, final(self)@.peers, peer_id@, now),
    {
        let ghost before = self@.peers;
        match self.position(peer_id) {
            Some(i) => {
                self.peers[i].update_last_seen_at(now);
                proof {
                    assert(ids_unique(before));
                    assert(self@.peers.len() == before.len());
                    assert forall|k: int| 0 <= k < before.len() implies #[trigger] self@.peers[k]
                        == contact_at(before[k], peer_id@, now) by {
                        if k != i {
                            assert(before[k].info.id != before[i as int].info.id);
                        }
                    }
                    assert forall|a: int, b: int|
                        0 <= a < self@.peers.len() && 0 <= b < self@.peers.len() && a
                            != b implies self@.peers[a].info.id != self@.peers[b].info.id by {
                        assert(self@.peers[a].info == before[a].info);
                        assert(self@.peers[b].info == before[b].info);
                    }
                }
            },
            None => {
                proof {
                    assert forall|k: int| 0 <= k < before.len() implies #[trigger] self@.peers[k]
                        == contact_at(before[k], peer_id@, now) by {
                        assert(peer_infos(before)[k] == before[k].info);
                    }
                }
            },
        }
    }

    /// Registers every record of `infos` whose identifier is not yet known,
    /// as a new disconnected peer.
    fn register_all(&mut self, infos: &Vec<PeerInfo>)
        requires
            old(self).wf(),
        ensures
            final(self).wf(),
            final(self)@ == (NodeView { peers: final(self)@.peers, ..old(self)@ }),
            peer_infos(final(self)@.peers) == register(peer_infos(old(self)@.peers), infos_view(infos@)),
            old(self)@.peers.len() <= final(self)@.peers.len(),
            forall|i: int| 0 <= i < old(self)@.peers.len() ==> final(self)@.peers[i] == old(self)@.peers[i],
            forall|i: int|
                old(self)@.peers.len() <= i < final(self)@.peers.len() ==> final(self)@.peers[i].status
                    == PeerStatus::Disconnected && final(self)@.peers[i].failed_attempts == 0,
    {
        let ghost v0 = self@;
        let mut k: usize = 0;
        while k < infos.len()
            invariant
                self.wf(),
                k <= infos@.len(),
                self@ == (NodeView { peers: self@.peers, ..v0 }),
                peer_infos(self@.peers) == register(
                    peer_infos(v0.peers),
                    infos_view(infos@).subrange(0, k as int),
                ),
                v0.peers.len() <= self@.peers.len(),
                forall|i: int| 0 <= i < v0.peers.len() ==> self@.peers[i] == v0.peers[i],
                forall|i: int|
                    v0.peers.len() <= i < self@.peers.len() ==> self@.peers[i].status
                        == PeerStatus::Disconnected && self@.peers[i].failed_attempts == 0,
            decreases infos@.len() - k,
        {
            let ghost before = self@.peers;
            let ghost prefix = infos_view(infos@).subrange(0, k as int);
            let ghost next = infos_view(infos@).subrange(0, k + 1);
            proof {
                assert(next.drop_last() =~= prefix);
                assert(next.last() == infos@[k as int]@);
            }
            match self.position(&infos[k].id) {
                Some(j) => {
                    proof {
                        assert(peer_infos(before)[j as int] == before[j as int].info);
                        assert(holds_id(peer_infos(before), next.last().id));
                    }
                },
                None => {
                    let peer = Peer::new(infos[k].clone());
                    self.peers.push(peer);
                    proof {
                        assert(self@.peers =~= before.push(peer@));
                        assert(peer_infos(self@.peers) =~= peer_infos(before).push(peer@.info));
                        assert forall|a: int, b: int|
                            0 <= a < self@.peers.len() && 0 <= b < self@.peers.len() && a
                                != b implies self@.peers[a].info.id != self@.peers[b].info.id by {
                            if a < before.len() && b < before.len() {
                            } else if a < before.len() {
                                assert(peer_infos(before)[a] == before[a].info);
                            } else {
                                assert(peer_infos(before)[b] == before[b].info);
                            }
                        }
                    }
                },
            }
            k = k + 1;
        }
        proof {
            assert(infos_view(infos@).subrange(0, infos@.len() as int) =~= infos_view(infos@));
        }
    }

    /// Takes in the records that discovery produced: appends what the DHT,
    /// if any, knows of the peers closest to this node, registers every
    /// record whose identifier is new as a disconnected peer, and returns
    /// all the records, duplicates included.
    pub fn merge_discovered(&mut self, found: Vec<PeerInfo>) -> (r: Vec<PeerInfo>)
        requires
            old(self).wf(),
        ensures
            final(self).wf(),
            discovered(old(self)@, infos_view(found@), infos_view(r@)),
            final(self)@ == (NodeView { peers: final(self)@.peers, ..old(self)@ }),
            peer_infos(final(self)@.peers) == register(peer_infos(old(self)@.peers), infos_view(r@)),
            forall|i: int| 0 <= i < old(self)@.peers.len() ==> final(self)@.peers[i] == old(self)@.peers[i],
            forall|i: int|
                old(self)@.peers.len() <= i < final(self)@.peers.len() ==> final(self)@.peers[i].status
                    == PeerStatus::Disconnected && final(self)@.peers[i].failed_attempts == 0,
    {
        let ghost v0 = self@;
        let mut all = found;
        match &self.dht {
            Some(d) => {
                let mut tail = d.find_nodes(&self.peer_id);
                let ghost t = infos_view(tail@);
                let ghost a0 = all@;
                all.append(&mut tail);
                proof {
                    assert(infos_view(all@) =~= infos_view(a0) + t);
                    assert(closest_result(d@.buckets, d@.local_id, v0.peer_id, K as nat, t));
                }
            },
            None => {},
        }
        self.register_all(&all);
        all
    }

    /// Asks the DHT, if any, to start maintenance. Returns whether a
    /// maintenance process has to be launched now.
    pub fn start_dht(&mut self) -> (launch: bool)
        ensures
            final(self)@ == (NodeView { dht: final(self)@.dht, ..old(self)@ }),
            match old(self)@.dht {
                Some(d) => final(self)@.dht == Some(after_start(d).0) && launch == after_start(d).1,
                None => final(self)@.dht.is_none() && !launch,
            },
            old(self).wf() ==> final(self).wf(),
    {
        match &mut self.dht {
            Some(d) => d.start(),
            None => false,
        }
    }

    /// Asks the DHT, if any, to stop maintenance. Returns whether running
    /// maintenance has to be cancelled now.
    pub fn stop_dht(&mut self) -> (cancel: bool)
        ensures
            final(self)@ == (NodeView { dht: final(self)@.dht, ..old(self)@ }),
            match old(self)@.dht {
                Some(d) => final(self)@.dht == Some(after_stop(d).0) && cancel == after_stop(d).1,
                None => final(self)@.dht.is_none() && !cancel,
            },
            old(self).wf() ==> final(self).wf(),
    {
        match &mut self.dht {
            Some(d) => d.stop(),
            None => false,
        }
    }

    /// One DHT maintenance cycle at time `now`: values whose age exceeds
    /// the TTL are dropped.
    pub fn expire_dht_values(&mut self, now: u64)
        requires
            old(self).wf(),
        ensures
            final(self).wf(),
            final(self)@ == (NodeView { dht: final(self)@.dht, ..old(self)@ }),
            match old(self)@.dht {
                Some(d) => final(self)@.dht == Some(
                    KademliaDhtView { values: fresh_part(d.values, now, VALUE_TTL_MS), ..d },
                ),
                None => final(self)@.dht.is_none(),
            },
    {
        match &mut self.dht {
            Some(d) => d.expire_values(now),
            None => {},
        }
    }
}

/// Once a connect has completed, a second connect listens on nothing and
/// leaves the state as it was.
pub proof fn connect_is_idempotent(v: NodeView)
    ensures
        listen_targets(NodeView { connected: true, ..v }).len() == 0,
        (NodeView { connected: true, ..NodeView { connected: true, ..v } }) == (NodeView {
            connected: true,
            ..v
        }),
{
}

proof fn lemma_reachable_below(v: NodeView, n: int, i: int)
    requires
        0 <= i < n,
        reachable(v, i),
    ensures
        reachable_below(v, n).contains(i),
    decreases n,
{
    if i < n - 1 {
        lemma_reachable_below(v, n - 1, i);
        let prev = reachable_below(v, n - 1);
        let k = choose|k: int| 0 <= k < prev.len() && #[trigger] prev[k] == i;
        if reachable(v, n - 1) {
            assert(reachable_below(v, n)[k] == i);
        }
    } else {
        assert(reachable_below(v, n).last() == i);
    }
}

/// A broadcast sends `data` to every registered peer that can be sent to,
/// whatever happens to the other sends: each send is planned before any is
/// made.
pub proof fn broadcast_reaches_every_reachable_peer(
    v: NodeView,
    data: Seq<u8>,
    plan: Seq<Outgoing>,
    i: int,
)
    requires
        broadcast_sends(v, data, plan),
        0 <= i < v.peers.len(),
        reachable(v, i),
    ensures
        exists|k: int| 0 <= k < plan.len() && delivers(v, i, data, plan[k]),
{
    lemma_reachable_below(v, v.peers.len() as int, i);
    let all = reachable_below(v, v.peers.len() as int);
    let k = choose|k: int| 0 <= k < all.len() && #[trigger] all[k] == i;
    assert(delivers(v, reachable_below(v, v.peers.len() as int)[k], data, plan[k]));
}

} // verus!
