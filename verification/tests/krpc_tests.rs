use mainline_dht::codec::decode_msg;
use mainline_dht::codec::encode_msg;
use mainline_dht::dht::IpPort;
use mainline_dht::dht::MainlineDHT;
use mainline_dht::dht::NodeId;
use mainline_dht::krpc::KrpcError;
use mainline_dht::krpc::KRPC;
use mainline_dht::krpc::TxId;
use mainline_dht::model::Arguments;
use mainline_dht::model::ErrorCode;
use mainline_dht::model::Errors;
use mainline_dht::model::Message;
use mainline_dht::model::Returns;
use mainline_dht::model::Type;
use mainline_dht::secure::derive_node_id;

fn nid(fill: u8) -> NodeId {
    NodeId(vec![fill; 20])
}

fn addr_a() -> IpPort {
    IpPort { ip0: 1, ip1: 2, ip2: 3, ip3: 4, port: 6881 }
}

/// Sends a ping, answers it with a matching response: the sender lands in the
/// routing table and the transaction resolves.
#[test]
fn ping_response_records_contact() {
    let mut krpc = KRPC::new();
    let mut dht = MainlineDHT::new();
    let out = krpc.ping(addr_a()).expect("table has room");
    assert_eq!(out.dest, addr_a());
    // the query on the wire is a ping carrying the all-zero placeholder
    let q = decode_msg(&out.bytes).expect("well-formed query");
    match q.mtype {
        Type::Query { a: Arguments::Ping { id } } => assert_eq!(id.0, vec![0u8; 20]),
        _ => panic!("expected a ping query"),
    }
    assert_eq!(q.t, vec![out.txid.0, out.txid.1]);
    assert!(krpc.is_outstanding(out.txid));

    let resp = Message {
        t: q.t.clone(),
        mtype: Type::Response { ip: None, r: Returns::Ping { id: nid(7) } },
    };
    let bytes = encode_msg(&resp);
    let follow = krpc.listen(&mut dht, &bytes, addr_a()).expect("handled");
    assert!(follow.is_empty());
    assert!(!krpc.is_outstanding(out.txid));
    let n = dht.find_node(&nid(7)).expect("recorded");
    assert_eq!(n.ip_port, addr_a());
}

/// A find_node response with two compact contacts yields exactly two
/// follow-up pings, one per contact.
#[test]
fn find_node_response_fans_out_two_pings() {
    let mut krpc = KRPC::new();
    let mut dht = MainlineDHT::new();
    let out = krpc.find_node(addr_a(), &nid(9)).expect("table has room");
    let q = decode_msg(&out.bytes).expect("well-formed query");
    match q.mtype {
        Type::Query { a: Arguments::FindNode { target, .. } } => {
            assert_eq!(target.0, vec![9u8; 20]);
        },
        _ => panic!("expected a find_node query"),
    }

    let mut nodes: Vec<u8> = Vec::new();
    nodes.extend_from_slice(&[0x11; 20]);
    nodes.extend_from_slice(&[10, 0, 0, 1, 0x1A, 0xE1]);
    nodes.extend_from_slice(&[0x22; 20]);
    nodes.extend_from_slice(&[10, 0, 0, 2, 0x1A, 0xE2]);
    assert_eq!(nodes.len(), 52);
    let resp = Message {
        t: q.t.clone(),
        mtype: Type::Response {
            ip: None,
            r: Returns::FindNode { id: nid(1), nodes },
        },
    };
    let bytes = encode_msg(&resp);
    let follow = krpc.listen(&mut dht, &bytes, addr_a()).expect("handled");
    assert_eq!(follow.len(), 2);
    assert_eq!(
        follow[0].dest,
        IpPort { ip0: 10, ip1: 0, ip2: 0, ip3: 1, port: 0x1AE1 }
    );
    assert_eq!(
        follow[1].dest,
        IpPort { ip0: 10, ip1: 0, ip2: 0, ip3: 2, port: 0x1AE2 }
    );
    for f in &follow {
        let fq = decode_msg(&f.bytes).expect("well-formed follow-up");
        assert!(matches!(fq.mtype, Type::Query { a: Arguments::Ping { .. } }));
        assert!(krpc.is_outstanding(f.txid));
    }
    assert!(!krpc.is_outstanding(out.txid));
}

/// A response whose transaction id was never issued is a correlation error,
/// and the engine keeps working afterwards.
#[test]
fn unknown_transaction_is_reported_and_recoverable() {
    let mut krpc = KRPC::new();
    let mut dht = MainlineDHT::new();
    let resp = Message {
        t: vec![9, 9],
        mtype: Type::Response { ip: None, r: Returns::Ping { id: nid(7) } },
    };
    let bytes = encode_msg(&resp);
    let r = krpc.listen(&mut dht, &bytes, addr_a());
    assert!(matches!(r, Err(KrpcError::UnknownTransaction)));
    assert_eq!(dht.table_len(), 0);

    // a later valid exchange still goes through
    let out = krpc.ping(addr_a()).expect("room");
    let resp2 = Message {
        t: vec![out.txid.0, out.txid.1],
        mtype: Type::Response { ip: None, r: Returns::Ping { id: nid(8) } },
    };
    let bytes2 = encode_msg(&resp2);
    assert!(krpc.listen(&mut dht, &bytes2, addr_a()).is_ok());
    assert_eq!(dht.table_len(), 1);
}

#[test]
fn malformed_datagram_is_a_decode_error() {
    let mut krpc = KRPC::new();
    let mut dht = MainlineDHT::new();
    let r = krpc.listen(&mut dht, &b"not bencode".to_vec(), addr_a());
    assert!(matches!(r, Err(KrpcError::Decode)));
}

#[test]
fn inbound_ping_query_records_sender() {
    let mut krpc = KRPC::new();
    let mut dht = MainlineDHT::new();
    let q = Message {
        t: vec![1, 1],
        mtype: Type::Query { a: Arguments::Ping { id: nid(5) } },
    };
    let bytes = encode_msg(&q);
    let r = krpc.listen(&mut dht, &bytes, addr_a()).expect("observed");
    assert!(r.is_empty());
    let n = dht.find_node(&nid(5)).expect("recorded");
    assert_eq!(n.ip_port, addr_a());
}

#[test]
fn inbound_find_node_query_is_a_named_gap() {
    let mut krpc = KRPC::new();
    let mut dht = MainlineDHT::new();
    let q = Message {
        t: vec![1, 1],
        mtype: Type::Query {
            a: Arguments::FindNode { id: nid(5), target: nid(6) },
        },
    };
    let bytes = encode_msg(&q);
    let r = krpc.listen(&mut dht, &bytes, addr_a());
    assert!(matches!(r, Err(KrpcError::NotImplemented)));
    assert_eq!(dht.table_len(), 0);
}

#[test]
fn peer_error_is_surfaced_and_resolves_its_transaction() {
    let mut krpc = KRPC::new();
    let mut dht = MainlineDHT::new();
    let out = krpc.ping(addr_a()).expect("room");
    assert!(krpc.is_outstanding(out.txid));
    let e = Message {
        t: vec![out.txid.0, out.txid.1],
        mtype: Type::Error {
            e: Errors(ErrorCode::ServerError, b"oops".to_vec()),
        },
    };
    let bytes = encode_msg(&e);
    match krpc.listen(&mut dht, &bytes, addr_a()) {
        Err(KrpcError::Protocol(er)) => {
            assert!(matches!(er.0, ErrorCode::ServerError));
            assert_eq!(er.1, b"oops".to_vec());
        },
        _ => panic!("expected a protocol error"),
    }
    // the transaction resolved on the error: issued -> resolved, exactly once
    assert!(!krpc.is_outstanding(out.txid));
    assert_eq!(krpc.outstanding_len(), 0);
}

#[test]
fn error_with_unknown_transaction_is_a_correlation_error() {
    let mut krpc = KRPC::new();
    let mut dht = MainlineDHT::new();
    let e = Message {
        t: vec![1, 1],
        mtype: Type::Error {
            e: Errors(ErrorCode::GenericError, b"oops".to_vec()),
        },
    };
    let bytes = encode_msg(&e);
    let r = krpc.listen(&mut dht, &bytes, addr_a());
    assert!(matches!(r, Err(KrpcError::UnknownTransaction)));
}

#[test]
fn response_with_odd_transaction_id_is_rejected() {
    let mut krpc = KRPC::new();
    let mut dht = MainlineDHT::new();
    let resp = Message {
        t: vec![1, 2, 3],
        mtype: Type::Response { ip: None, r: Returns::Ping { id: nid(7) } },
    };
    let bytes = encode_msg(&resp);
    let r = krpc.listen(&mut dht, &bytes, addr_a());
    assert!(matches!(r, Err(KrpcError::BadTransactionId)));
}

#[test]
fn mismatched_response_shape_is_rejected() {
    let mut krpc = KRPC::new();
    let mut dht = MainlineDHT::new();
    let out = krpc.ping(addr_a()).expect("room");
    // a ping-origin transaction answered with a find_node-shaped response
    let resp = Message {
        t: vec![out.txid.0, out.txid.1],
        mtype: Type::Response {
            ip: None,
            r: Returns::FindNode { id: nid(1), nodes: vec![0; 26] },
        },
    };
    let bytes = encode_msg(&resp);
    let r = krpc.listen(&mut dht, &bytes, addr_a());
    assert!(matches!(r, Err(KrpcError::Mismatch)));
    // the transaction is still consumed
    assert!(!krpc.is_outstanding(out.txid));
}

/// A ping response carrying the observed external address fixes the self
/// identifier once; later responses never overwrite it.
#[test]
fn security_extension_sets_identifier_once() {
    let mut krpc = KRPC::new();
    let mut dht = MainlineDHT::new();
    assert!(krpc.id.is_none());

    let out = krpc.ping(addr_a()).expect("room");
    let resp = Message {
        t: vec![out.txid.0, out.txid.1],
        mtype: Type::Response {
            ip: Some(vec![124, 31, 75, 21, 0x1A, 0xE1]),
            r: Returns::Ping { id: nid(7) },
        },
    };
    krpc.listen(&mut dht, &encode_msg(&resp), addr_a()).expect("handled");
    let first = krpc.id.as_ref().expect("identifier derived").0.clone();
    assert_eq!(first.len(), 20);

    let out2 = krpc.ping(addr_a()).expect("room");
    let resp2 = Message {
        t: vec![out2.txid.0, out2.txid.1],
        mtype: Type::Response {
            ip: Some(vec![8, 8, 8, 8, 0x1A, 0xE1]),
            r: Returns::Ping { id: nid(8) },
        },
    };
    krpc.listen(&mut dht, &encode_msg(&resp2), addr_a()).expect("handled");
    assert_eq!(krpc.id.as_ref().unwrap().0, first);

    // once set, outbound queries carry the derived identifier
    let out3 = krpc.ping(addr_a()).expect("room");
    let q = decode_msg(&out3.bytes).unwrap();
    match q.mtype {
        Type::Query { a: Arguments::Ping { id } } => assert_eq!(id.0, first),
        _ => panic!("expected a ping query"),
    }
}

/// The derivation is deterministic in the address bytes and the random
/// inputs, and reproduces the published fixed vector for 124.31.75.21 with
/// seed byte 1.
#[test]
fn derivation_is_deterministic_and_matches_fixed_vector() {
    let ip = vec![124u8, 31, 75, 21];
    let tail: Vec<u8> = (0u8..16).collect();
    let a = derive_node_id(&ip, 1, 5, &tail);
    let b = derive_node_id(&ip, 1, 5, &tail);
    assert_eq!(a.0, b.0);
    assert_eq!(a.0.len(), 20);
    // structure: random bits land in the low bits of the third byte, the
    // random tail in the middle, the seed byte last
    assert_eq!(a.0[2] & 0x07, 5 & 0x07);
    assert_eq!(&a.0[3..19], &tail[..]);
    assert_eq!(a.0[19], 1);
    // the checksum-derived prefix of the published vector
    assert_eq!(a.0[0], 0x5f);
    assert_eq!(a.0[1], 0xbf);
    assert_eq!(a.0[2] & 0xf8, 0xb8);
    // a different address gives a different checksum prefix
    let other = derive_node_id(&vec![21u8, 75, 31, 124], 1, 5, &tail);
    assert_ne!(&a.0[0..2], &other.0[0..2]);
}

#[test]
fn transaction_identifiers_do_not_collide() {
    let mut krpc = KRPC::new();
    let mut seen: Vec<TxId> = Vec::new();
    for _ in 0..64 {
        let out = krpc.ping(addr_a()).expect("room");
        assert!(!seen.contains(&out.txid));
        seen.push(out.txid);
    }
    assert_eq!(krpc.outstanding_len(), 64);
}

/// A datagram carrying an unknown top-level key (a version key) is still
/// dispatched.
#[test]
fn listen_tolerates_a_version_key() {
    let mut krpc = KRPC::new();
    let mut dht = MainlineDHT::new();
    let mut bytes = b"d1:ad2:id20:".to_vec();
    bytes.extend_from_slice(&[5u8; 20]);
    bytes.extend_from_slice(b"e1:q4:ping1:t2:ab1:v4:ABCD1:y1:qe");
    let r = krpc.listen(&mut dht, &bytes, addr_a()).expect("observed");
    assert!(r.is_empty());
    let n = dht.find_node(&nid(5)).expect("recorded");
    assert_eq!(n.ip_port, addr_a());
}

#[test]
fn find_node_response_with_ragged_nodes_is_a_mismatch() {
    let mut krpc = KRPC::new();
    let mut dht = MainlineDHT::new();
    let out = krpc.find_node(addr_a(), &nid(9)).expect("room");
    let resp = Message {
        t: vec![out.txid.0, out.txid.1],
        mtype: Type::Response {
            ip: None,
            r: Returns::FindNode { id: nid(1), nodes: vec![0; 27] },
        },
    };
    let bytes = encode_msg(&resp);
    let r = krpc.listen(&mut dht, &bytes, addr_a());
    assert!(matches!(r, Err(KrpcError::Mismatch)));
    assert!(!krpc.is_outstanding(out.txid));
}
