use noxy::dht::kademlia::{KademliaDht, K, VALUE_TTL_MS};
use noxy::table::ByteTable;
use noxy::types::{PeerId, PeerInfo};

fn id_with(last: u8, first: u8) -> PeerId {
    let mut b = vec![0u8; 32];
    b[0] = first;
    b[31] = last;
    PeerId::new(b)
}

fn info(id: PeerId, address: Option<&str>) -> PeerInfo {
    PeerInfo {
        id,
        address: address.map(|a| a.to_string()),
        protocols: vec!["tcp".to_string()],
        client_version: "1.0".to_string(),
    }
}

fn distance(a: &PeerId, b: &PeerId) -> Vec<u8> {
    KademliaDht::xor_distance(a, b)
}

#[test]
fn distance_to_self_is_zero_and_symmetric() {
    let a = PeerId::new(vec![0x12, 0x34, 0xff]);
    let b = PeerId::new(vec![0xf0, 0x00, 0x0f]);
    assert_eq!(distance(&a, &a), vec![0, 0, 0]);
    assert_eq!(distance(&a, &b), distance(&b, &a));
    assert_eq!(distance(&a, &b), vec![0xe2, 0x34, 0xf0]);
    assert_eq!(KademliaDht::bucket_index(&distance(&a, &a)), 0);
}

#[test]
fn distance_truncates_to_common_length() {
    let a = PeerId::new(vec![0xff, 0x01]);
    let b = PeerId::new(vec![0x0f]);
    assert_eq!(distance(&a, &b), vec![0xf0]);
}

#[test]
fn bucket_index_is_offset_of_highest_set_bit() {
    assert_eq!(KademliaDht::bucket_index(&[0x80, 0x00]), 0);
    assert_eq!(KademliaDht::bucket_index(&[0x01, 0xff]), 7);
    assert_eq!(KademliaDht::bucket_index(&[0x00, 0x20]), 10);
    assert_eq!(KademliaDht::bucket_index(&[0x00, 0x00]), 0);
    assert_eq!(KademliaDht::bucket_index(&[]), 0);
}

#[test]
fn high_and_low_bit_peers_land_in_first_and_last_bucket() {
    let local = PeerId::new(vec![0u8; 32]);
    let high = id_with(0, 0x80);
    let low = id_with(1, 0);
    assert_eq!(KademliaDht::bucket_index(&distance(&local, &high)), 0);
    assert_eq!(KademliaDht::bucket_index(&distance(&local, &low)), 255);
    let mut dht = KademliaDht::new(local);
    dht.add_peer(info(high.clone(), None));
    dht.add_peer(info(low.clone(), None));
    let r = dht.get_closest_peers(&low, 2);
    assert_eq!(r.len(), 2);
    assert_eq!(r[0].id, low);
    assert_eq!(r[1].id, high);
}

#[test]
fn added_peer_is_found_by_its_own_id() {
    let local = PeerId::new(vec![0x55u8; 32]);
    let mut dht = KademliaDht::new(local);
    for i in 0..10u8 {
        dht.add_peer(info(id_with(i, i.wrapping_mul(37)), Some("10.0.0.1:9000")));
    }
    let target = id_with(200, 3);
    dht.add_peer(info(target.clone(), Some("10.0.0.2:9000")));
    let r = dht.get_closest_peers(&target, K);
    assert!(r.iter().any(|p| p.id == target));
    assert_eq!(r[0].id, target);
    assert_eq!(dht.find_nodes(&target)[0].id, target);
}

#[test]
fn closest_peers_are_bounded_and_sorted() {
    let local = PeerId::new(vec![0u8; 32]);
    let mut dht = KademliaDht::new(local);
    for i in 0..40u8 {
        dht.add_peer(info(id_with(i, i.wrapping_mul(7)), None));
    }
    let target = id_with(9, 0x21);
    for n in [0usize, 1, 3, 5, 20, 100] {
        let r = dht.get_closest_peers(&target, n);
        assert!(r.len() <= n);
        for w in r.windows(2) {
            assert!(distance(&target, &w[0].id) <= distance(&target, &w[1].id));
        }
    }
    assert_eq!(dht.get_closest_peers(&target, 0).len(), 0);
    assert_eq!(dht.get_closest_peers(&target, 100).len(), 40);
}

#[test]
fn full_bucket_is_left_unchanged() {
    let local = PeerId::new(vec![0u8; 32]);
    let mut dht = KademliaDht::new(local);
    for i in 0..(K as u8) {
        dht.add_peer(info(id_with(i, 0x80), None));
    }
    let extra = id_with(99, 0x80);
    dht.add_peer(info(extra.clone(), None));
    let r = dht.get_closest_peers(&extra, 100);
    assert_eq!(r.len(), K);
    assert!(r.iter().all(|p| p.id != extra));
    dht.add_peer(info(id_with(3, 0x80), Some("1.2.3.4:5")));
    let r = dht.get_closest_peers(&id_with(3, 0x80), 1);
    assert_eq!(r[0].id, id_with(3, 0x80));
    assert_eq!(r[0].address, None);
    assert_eq!(dht.get_closest_peers(&extra, 100).len(), K);
}

#[test]
fn duplicate_id_is_kept_once() {
    let local = PeerId::new(vec![0u8; 32]);
    let mut dht = KademliaDht::new(local);
    dht.add_peer(info(id_with(5, 0), None));
    dht.add_peer(info(id_with(5, 0), Some("x:1")));
    let r = dht.get_closest_peers(&id_with(5, 0), 10);
    assert_eq!(r.len(), 1);
    assert_eq!(r[0].address.as_deref(), Some("x:1"));
}

#[test]
fn stored_value_is_found() {
    let mut dht = KademliaDht::new(PeerId::new(vec![1u8; 32]));
    assert_eq!(dht.find_value(b"k"), None);
    dht.store(b"k", b"value");
    assert_eq!(dht.find_value(b"k"), Some(b"value".to_vec()));
    dht.store(b"k", b"other");
    assert_eq!(dht.find_value(b"k"), Some(b"other".to_vec()));
    assert_eq!(dht.find_value(b"missing"), None);
}

#[test]
fn maintenance_drops_only_expired_values() {
    let mut dht = KademliaDht::new(PeerId::new(vec![1u8; 32]));
    dht.store(b"k", b"value");
    dht.expire_values(0);
    assert_eq!(dht.find_value(b"k"), Some(b"value".to_vec()));
    dht.expire_values(u64::MAX);
    assert_eq!(dht.find_value(b"k"), None);
    assert_eq!(VALUE_TTL_MS, 86_400_000);
}

#[test]
fn starting_twice_launches_maintenance_once() {
    let mut dht = KademliaDht::new(PeerId::new(vec![1u8; 32]));
    assert!(!dht.is_started());
    assert!(dht.start());
    assert!(!dht.start());
    assert!(dht.is_started());
    assert!(dht.stop());
    assert!(!dht.stop());
    assert!(!dht.is_started());
}

#[test]
fn value_exactly_at_the_ttl_is_kept() {
    let mut t = ByteTable::new();
    t.insert(b"k", b"v", 1000);
    t.retain_fresh(1000 + VALUE_TTL_MS, VALUE_TTL_MS);
    assert_eq!(t.get(b"k"), Some(&b"v".to_vec()));
    t.retain_fresh(1001 + VALUE_TTL_MS, VALUE_TTL_MS);
    assert_eq!(t.get(b"k"), None);
    assert!(!t.contains(b"k"));
}
