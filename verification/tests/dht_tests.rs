use mainline_dht::dht::MainlineDHT;
use mainline_dht::dht::Node;
use mainline_dht::dht::NodeId;
use mainline_dht::dht::IpPort;

fn nid(last: u8) -> NodeId {
    let mut v = vec![0u8; 19];
    v.push(last);
    NodeId(v)
}

fn addr(last: u8, port: u16) -> IpPort {
    IpPort { ip0: 10, ip1: 0, ip2: 0, ip3: last, port }
}

fn node(last: u8, port: u16) -> Node {
    Node { id: nid(last), ip_port: addr(last, port) }
}

#[test]
fn compact_contact_fields() {
    let mut bytes: Vec<u8> = (0u8..20).collect();
    bytes.extend_from_slice(&[192, 168, 1, 7]);
    bytes.extend_from_slice(&[0x1A, 0xE1]);
    let n = Node::from_be_bytes(bytes.clone());
    assert_eq!(n.id.0, (0u8..20).collect::<Vec<u8>>());
    assert_eq!(
        (n.ip_port.ip0, n.ip_port.ip1, n.ip_port.ip2, n.ip_port.ip3),
        (192, 168, 1, 7)
    );
    assert_eq!(n.ip_port.port, u16::from_be_bytes([bytes[24], bytes[25]]));
    assert_eq!(n.ip_port.port, 0x1AE1);
}

#[test]
fn insert_overwrites_same_id() {
    let mut d = MainlineDHT::new();
    d.insert_node(node(5, 1000));
    assert_eq!(d.table_len(), 1);
    let mut n2 = node(5, 2000);
    n2.ip_port.ip3 = 99;
    d.insert_node(n2);
    assert_eq!(d.table_len(), 1);
    let got = d.find_node(&nid(5)).expect("present");
    assert_eq!(got.ip_port.port, 2000);
    assert_eq!(got.ip_port.ip3, 99);
}

#[test]
fn find_closest_empty_table() {
    let d = MainlineDHT::new();
    assert!(d.find_closest(&nid(1)).is_empty());
}

#[test]
fn find_closest_small_table() {
    let mut d = MainlineDHT::new();
    for i in [3u8, 7, 11] {
        d.insert_node(node(i, 100));
    }
    // the target sits between the entries, so the window covers all three
    let r = d.find_closest(&nid(7));
    assert_eq!(r.len(), 3);
}

#[test]
fn find_closest_caps_at_eight() {
    let mut d = MainlineDHT::new();
    for i in 0u8..12 {
        d.insert_node(node(i * 2, 100));
    }
    let r = d.find_closest(&nid(10));
    assert!(r.len() <= 8);
    assert_eq!(r.len(), 8);
    // the target's own identifier is included when present in the window
    assert!(r.iter().any(|n| n.id.0 == nid(10).0));
}

#[test]
fn find_node_fallback_equals_find_closest() {
    let mut d = MainlineDHT::new();
    for i in [1u8, 2, 3, 4, 5] {
        d.insert_node(node(i, 100));
    }
    let absent = nid(9);
    let fallback = d.find_node(&absent).expect_err("absent id must fail");
    let closest = d.find_closest(&absent);
    assert_eq!(fallback.len(), closest.len());
    for (a, b) in fallback.iter().zip(closest.iter()) {
        assert_eq!(a.id.0, b.id.0);
        assert_eq!(a.ip_port, b.ip_port);
    }
}

#[test]
fn store_appends_without_dedup() {
    let mut d = MainlineDHT::new();
    let h = nid(42);
    let peer = addr(1, 6881);
    d.store(&h, peer);
    d.store(&h, peer);
    let v = d.find_value(&h).expect("stored");
    assert_eq!(v.len(), 2);
    assert_eq!(v[0], peer);
    assert_eq!(v[1], peer);
}

#[test]
fn find_value_absent_falls_back() {
    let mut d = MainlineDHT::new();
    d.insert_node(node(1, 100));
    let r = d.find_value(&nid(9));
    let fallback = r.expect_err("absent info-hash must fail");
    assert_eq!(fallback.len(), 1);
}

#[test]
fn store_keeps_other_keys() {
    let mut d = MainlineDHT::new();
    d.store(&nid(1), addr(1, 1));
    d.store(&nid(2), addr(2, 2));
    d.store(&nid(1), addr(3, 3));
    assert_eq!(d.find_value(&nid(1)).unwrap().len(), 2);
    assert_eq!(d.find_value(&nid(2)).unwrap().len(), 1);
}
