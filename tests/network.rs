use noxy::dht::kademlia::KademliaDht;
use noxy::error::Error;
use noxy::network::message::{Message, MessageType};
use noxy::network::peer::{Peer, PeerStatus};
use noxy::network::Node;
use noxy::storage::memory::MemoryStorage;
use noxy::types::{PeerAddress, PeerId, PeerInfo, TransportType};

fn info(b: u8, address: Option<&str>) -> PeerInfo {
    PeerInfo {
        id: PeerId::new(vec![b; 32]),
        address: address.map(|a| a.to_string()),
        protocols: vec![],
        client_version: "0.1".to_string(),
    }
}

fn node(transports: Vec<TransportType>) -> Node {
    Node::new(PeerId::new(vec![0u8; 32]), "127.0.0.1".to_string(), 0, transports, None)
}

#[test]
fn peer_id_renders_as_hex() {
    assert_eq!(PeerId::new(vec![0x0a, 0xff, 0x10]).to_string(), "0aff10");
    assert_eq!(PeerId::new(vec![]).to_string(), "");
    assert_eq!(PeerId::random().as_bytes().len(), 32);
}

#[test]
fn peer_address_keeps_its_parts() {
    let a = PeerAddress::new("h:1".to_string(), PeerId::new(vec![1, 2]));
    assert_eq!(a.address, "h:1");
    assert_eq!(a.peer_id.as_bytes(), &[1, 2]);
    assert!(a == a.clone());
}

#[test]
fn new_peer_is_disconnected_without_failures() {
    let p = Peer::new(info(1, None));
    assert_eq!(p.status(), PeerStatus::Disconnected);
    assert_eq!(p.failed_attempts(), 0);
    assert_eq!(p.info().id, PeerId::new(vec![1u8; 32]));
}

#[test]
fn connecting_resets_failed_attempts() {
    let mut p = Peer::new(info(1, None));
    p.increment_failed_attempts();
    p.increment_failed_attempts();
    p.increment_failed_attempts();
    assert_eq!(p.failed_attempts(), 3);
    p.set_status(PeerStatus::Connecting);
    assert_eq!(p.failed_attempts(), 3);
    p.set_status(PeerStatus::Connected);
    assert_eq!(p.failed_attempts(), 0);
    assert_eq!(p.status(), PeerStatus::Connected);
}

#[test]
fn staleness_follows_elapsed_time() {
    let mut p = Peer::new(info(1, None));
    p.update_last_seen();
    let seen = p.time_since_last_seen();
    assert!(seen < 60_000);
    assert!(!p.is_stale(60_000));
    assert_eq!(p.time_since_last_seen_at(0), 0);
    assert!(!p.is_stale_at(0, 0));
    assert!(p.is_stale_at(1000, u64::MAX));
}

#[test]
fn broadcast_message_has_no_recipient() {
    let from = PeerId::new(vec![1, 2, 3]);
    let m = Message::new_broadcast(from.clone(), b"hi".to_vec());
    assert!(m.to.is_none());
    assert_eq!(m.from, from);
    assert_eq!(m.message_type, MessageType::Data);
    assert_eq!(m.data, b"hi".to_vec());
}

#[test]
fn response_swaps_sender_and_recipient() {
    let a = PeerId::new(vec![1]);
    let b = PeerId::new(vec![2]);
    let m = Message::new_data(a.clone(), b.clone(), b"ping".to_vec());
    assert!(m.timestamp > 0);
    let r = m.create_response(MessageType::Pong, b"pong".to_vec());
    assert_eq!(r.from, b);
    assert_eq!(r.to, Some(a));
    assert_eq!(r.message_type, MessageType::Pong);
    assert_eq!(r.data, b"pong".to_vec());
    let c = Message::new(PeerId::new(vec![9]), None, MessageType::Custom(7), vec![]);
    assert_eq!(c.message_type, MessageType::Custom(7));
}

#[test]
fn send_needs_known_peer_transport_and_address() {
    let mut n = node(vec![TransportType::Tcp]);
    assert!(matches!(n.prepare_send(&PeerId::new(vec![1u8; 32]), b"x"), Err(Error::Network(_))));
    n.merge_discovered(vec![info(1, Some("10.0.0.1:1")), info(2, None)]);
    let o = n.prepare_send(&PeerId::new(vec![1u8; 32]), b"x").ok().unwrap();
    assert_eq!(o.transport, TransportType::Tcp);
    assert_eq!(o.address, "10.0.0.1:1");
    assert_eq!(o.message.to, Some(PeerId::new(vec![1u8; 32])));
    assert_eq!(o.message.from, PeerId::new(vec![0u8; 32]));
    assert_eq!(o.message.data, b"x".to_vec());
    assert!(matches!(n.prepare_send(&PeerId::new(vec![2u8; 32]), b"x"), Err(Error::Network(_))));
    let mut bare = node(vec![]);
    bare.merge_discovered(vec![info(1, Some("10.0.0.1:1"))]);
    assert!(matches!(bare.prepare_send(&PeerId::new(vec![1u8; 32]), b"x"), Err(Error::Network(_))));
}

#[test]
fn broadcast_skips_the_peer_that_cannot_be_reached() {
    let mut n = node(vec![TransportType::Tcp]);
    n.merge_discovered(vec![info(1, Some("a:1")), info(2, None), info(3, Some("c:3"))]);
    let plan = n.broadcast_plan(b"data");
    assert_eq!(plan.len(), 2);
    assert_eq!(plan[0].address, "a:1");
    assert_eq!(plan[1].address, "c:3");
    assert!(plan.iter().all(|o| o.message.data == b"data".to_vec()));
    assert!(plan.iter().all(|o| o.message.message_type == MessageType::Data));
}

#[test]
fn discovery_registers_each_id_once() {
    let mut n = node(vec![TransportType::Tcp]);
    let r = n.merge_discovered(vec![info(1, None), info(2, None), info(1, Some("x:1"))]);
    assert_eq!(r.len(), 3);
    let peers = n.peers();
    assert_eq!(peers.len(), 2);
    assert_eq!(peers[0].id, PeerId::new(vec![1u8; 32]));
    assert_eq!(peers[0].address, None);
    let r = n.merge_discovered(vec![info(2, None), info(4, None)]);
    assert_eq!(r.len(), 2);
    assert_eq!(n.peers().len(), 3);
}

#[test]
fn discovery_adds_what_the_dht_knows() {
    let local = PeerId::new(vec![0u8; 32]);
    let mut dht = KademliaDht::new(local.clone());
    dht.add_peer(info(7, Some("d:7")));
    let mut n = Node::new(local, "127.0.0.1".to_string(), 0, vec![TransportType::Tcp], Some(dht));
    let r = n.merge_discovered(vec![info(1, None)]);
    assert_eq!(r.len(), 2);
    assert_eq!(r[1].id, PeerId::new(vec![7u8; 32]));
    assert_eq!(n.peers().len(), 2);
    assert!(n.start_dht());
    assert!(!n.start_dht());
    assert!(n.stop_dht());
}

#[test]
fn second_connect_listens_on_nothing() {
    let mut n = node(vec![TransportType::Tcp, TransportType::WebSocket]);
    assert_eq!(n.listen_plan(), vec![TransportType::Tcp, TransportType::WebSocket]);
    assert!(n.close_plan().is_empty());
    n.mark_connected();
    assert!(n.listen_plan().is_empty());
    assert!(n.is_connected());
    assert_eq!(n.close_plan().len(), 2);
    n.mark_disconnected();
    assert!(n.close_plan().is_empty());
    assert_eq!(n.listen_plan().len(), 2);
}

#[test]
fn memory_storage_round_trip() {
    let mut s = MemoryStorage::new("mem".to_string());
    assert_eq!(s.name(), "mem");
    s.put(b"block:0", b"g");
    s.put(b"block:1", b"h");
    s.put(b"other", b"o");
    assert_eq!(s.get(b"block:1"), Some(b"h".to_vec()));
    assert!(s.has(b"other"));
    let mut keys = s.keys_with_prefix(b"block:");
    keys.sort();
    assert_eq!(keys, vec![b"block:0".to_vec(), b"block:1".to_vec()]);
    s.delete(b"block:0");
    assert!(!s.has(b"block:0"));
    assert_eq!(s.get(b"block:0"), None);
    s.close();
    assert_eq!(s.keys_with_prefix(b"").len(), 2);
}

#[test]
fn contact_refreshes_only_that_peer() {
    let mut n = node(vec![TransportType::Tcp]);
    n.merge_discovered(vec![info(1, Some("a:1")), info(2, Some("b:2"))]);
    n.record_contact(&PeerId::new(vec![2u8; 32]));
    n.record_contact(&PeerId::new(vec![9u8; 32]));
    let peers = n.peers();
    assert_eq!(peers.len(), 2);
    assert_eq!(peers[1].address.as_deref(), Some("b:2"));
    assert_eq!(n.peer_id(), &PeerId::new(vec![0u8; 32]));
    assert_eq!(n.listen_addr(), "127.0.0.1");
    assert_eq!(n.port(), 0);
}

#[test]
fn node_dht_maintenance_keeps_fresh_values() {
    let local = PeerId::new(vec![0u8; 32]);
    let mut dht = KademliaDht::new(local.clone());
    dht.store(b"k", b"v");
    let mut n = Node::new(local, "0.0.0.0".to_string(), 7000, vec![], Some(dht));
    n.expire_dht_values(0);
    assert!(!n.start_dht() || !n.start_dht());
    let mut bare = node(vec![]);
    bare.expire_dht_values(u64::MAX);
    assert!(!bare.start_dht());
    assert!(!bare.stop_dht());
}

#[test]
fn clock_stamped_versions_take_the_given_time() {
    let mut p = Peer::new_at(info(1, None), 5000);
    assert_eq!(p.time_since_last_seen_at(7000), 2000);
    p.update_last_seen_at(9000);
    assert_eq!(p.time_since_last_seen_at(9500), 500);
    assert!(p.is_stale_at(100, 9101));
    assert!(!p.is_stale_at(100, 9100));
    let m = Message::new_at(PeerId::new(vec![1]), None, MessageType::Ping, vec![3], 42, [7u8; 16]);
    assert_eq!(m.timestamp, 42);
    assert_eq!(m.id, [7u8; 16]);
    assert_eq!(m.message_type, MessageType::Ping);
}

#[test]
fn contact_at_stamps_only_that_peer() {
    let mut n = node(vec![TransportType::Tcp]);
    n.merge_discovered(vec![info(1, Some("a:1")), info(2, Some("b:2"))]);
    n.record_contact_at(&PeerId::new(vec![2u8; 32]), 123);
    n.record_contact_at(&PeerId::new(vec![9u8; 32]), 456);
    assert_eq!(n.peers().len(), 2);
}
