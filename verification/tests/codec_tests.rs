use mainline_dht::codec::decode_msg;
use mainline_dht::codec::decode_msg_lenient;
use mainline_dht::codec::encode_msg;
use mainline_dht::dht::NodeId;
use mainline_dht::model::Arguments;
use mainline_dht::model::ErrorCode;
use mainline_dht::model::Errors;
use mainline_dht::model::Message;
use mainline_dht::model::Returns;
use mainline_dht::model::Slice;
use mainline_dht::model::Type;
use mainline_dht::model::ValuesNodes;

fn nid(fill: u8) -> NodeId {
    NodeId(vec![fill; 20])
}

#[test]
fn ping_query_exact_bytes() {
    let m = Message {
        t: vec![b'a', b'b'],
        mtype: Type::Query {
            a: Arguments::Ping { id: NodeId(vec![b'x'; 20]) },
        },
    };
    let bytes = encode_msg(&m);
    let mut expected = b"d1:ad2:id20:".to_vec();
    expected.extend_from_slice(&[b'x'; 20]);
    expected.extend_from_slice(b"e1:q4:ping1:t2:ab1:y1:qe");
    assert_eq!(bytes, expected);
}

#[test]
fn ping_query_round_trip() {
    let m = Message {
        t: vec![1, 2],
        mtype: Type::Query { a: Arguments::Ping { id: nid(7) } },
    };
    let bytes = encode_msg(&m);
    let d = decode_msg(&bytes).expect("round trip");
    assert_eq!(d.t, vec![1, 2]);
    match d.mtype {
        Type::Query { a: Arguments::Ping { id } } => assert_eq!(id.0, vec![7u8; 20]),
        _ => panic!("wrong shape"),
    }
}

#[test]
fn find_node_query_round_trip() {
    let m = Message {
        t: vec![0xAA, 0x00],
        mtype: Type::Query {
            a: Arguments::FindNode { id: nid(1), target: nid(9) },
        },
    };
    let bytes = encode_msg(&m);
    let d = decode_msg(&bytes).expect("round trip");
    assert_eq!(d.t, vec![0xAA, 0x00]);
    match d.mtype {
        Type::Query { a: Arguments::FindNode { id, target } } => {
            assert_eq!(id.0, vec![1u8; 20]);
            assert_eq!(target.0, vec![9u8; 20]);
        },
        _ => panic!("wrong shape"),
    }
}

#[test]
fn get_peers_query_round_trip() {
    let m = Message {
        t: vec![3, 4],
        mtype: Type::Query {
            a: Arguments::GetPeers { id: nid(1), info_hash: nid(2) },
        },
    };
    let bytes = encode_msg(&m);
    let d = decode_msg(&bytes).expect("round trip");
    match d.mtype {
        Type::Query { a: Arguments::GetPeers { id, info_hash } } => {
            assert_eq!(id.0, vec![1u8; 20]);
            assert_eq!(info_hash.0, vec![2u8; 20]);
        },
        _ => panic!("wrong shape"),
    }
}

#[test]
fn announce_peer_query_round_trip() {
    let m = Message {
        t: vec![9],
        mtype: Type::Query {
            a: Arguments::AnnouncePeer {
                id: nid(1),
                implied_port: 1,
                info_hash: nid(2),
                port: 6881,
                token: vec![10, 20, 30],
            },
        },
    };
    let bytes = encode_msg(&m);
    let d = decode_msg(&bytes).expect("round trip");
    assert_eq!(d.t, vec![9]);
    match d.mtype {
        Type::Query {
            a: Arguments::AnnouncePeer { id, implied_port, info_hash, port, token },
        } => {
            assert_eq!(id.0, vec![1u8; 20]);
            assert_eq!(implied_port, 1);
            assert_eq!(info_hash.0, vec![2u8; 20]);
            assert_eq!(port, 6881);
            assert_eq!(token, vec![10, 20, 30]);
        },
        _ => panic!("wrong shape"),
    }
}

#[test]
fn ping_response_round_trip() {
    let m = Message {
        t: vec![5, 6],
        mtype: Type::Response { ip: None, r: Returns::Ping { id: nid(3) } },
    };
    let bytes = encode_msg(&m);
    let d = decode_msg(&bytes).expect("round trip");
    match d.mtype {
        Type::Response { ip, r: Returns::Ping { id } } => {
            assert!(ip.is_none());
            assert_eq!(id.0, vec![3u8; 20]);
        },
        _ => panic!("wrong shape"),
    }
}

#[test]
fn response_with_ip_field_round_trip() {
    let m = Message {
        t: vec![5, 6],
        mtype: Type::Response {
            ip: Some(vec![1, 2, 3, 4, 0x1A, 0xE1]),
            r: Returns::Ping { id: nid(3) },
        },
    };
    let bytes = encode_msg(&m);
    let d = decode_msg(&bytes).expect("round trip");
    match d.mtype {
        Type::Response { ip, .. } => assert_eq!(ip.unwrap(), vec![1, 2, 3, 4, 0x1A, 0xE1]),
        _ => panic!("wrong shape"),
    }
}

#[test]
fn find_node_response_round_trip() {
    let nodes: Vec<u8> = (0u8..52).collect();
    let m = Message {
        t: vec![7, 8],
        mtype: Type::Response {
            ip: None,
            r: Returns::FindNode { id: nid(1), nodes: nodes.clone() },
        },
    };
    let bytes = encode_msg(&m);
    let d = decode_msg(&bytes).expect("round trip");
    match d.mtype {
        Type::Response { r: Returns::FindNode { id, nodes: n2 }, .. } => {
            assert_eq!(id.0, vec![1u8; 20]);
            assert_eq!(n2, nodes);
        },
        _ => panic!("wrong shape"),
    }
}

#[test]
fn get_peers_response_values_round_trip() {
    let m = Message {
        t: vec![7],
        mtype: Type::Response {
            ip: None,
            r: Returns::GetPeers {
                id: nid(1),
                token: vec![9, 9],
                values_nodes: ValuesNodes::Values {
                    values: vec![Slice(vec![1, 2, 3, 4, 0, 80]), Slice(vec![5, 6, 7, 8, 0, 81])],
                },
            },
        },
    };
    let bytes = encode_msg(&m);
    let d = decode_msg(&bytes).expect("round trip");
    match d.mtype {
        Type::Response {
            r: Returns::GetPeers { token, values_nodes: ValuesNodes::Values { values }, .. },
            ..
        } => {
            assert_eq!(token, vec![9, 9]);
            assert_eq!(values.len(), 2);
            assert_eq!(values[0].0, vec![1, 2, 3, 4, 0, 80]);
            assert_eq!(values[1].0, vec![5, 6, 7, 8, 0, 81]);
        },
        _ => panic!("wrong shape"),
    }
}

#[test]
fn get_peers_response_nodes_round_trip() {
    let m = Message {
        t: vec![7],
        mtype: Type::Response {
            ip: None,
            r: Returns::GetPeers {
                id: nid(1),
                token: vec![1],
                values_nodes: ValuesNodes::Nodes { nodes: (0u8..26).collect() },
            },
        },
    };
    let bytes = encode_msg(&m);
    let d = decode_msg(&bytes).expect("round trip");
    match d.mtype {
        Type::Response {
            r: Returns::GetPeers { values_nodes: ValuesNodes::Nodes { nodes }, .. },
            ..
        } => assert_eq!(nodes.len(), 26),
        _ => panic!("wrong shape"),
    }
}

#[test]
fn error_message_round_trip() {
    let m = Message {
        t: vec![0, 1],
        mtype: Type::Error {
            e: Errors(ErrorCode::ProtocolError, b"Protocol Error".to_vec()),
        },
    };
    let bytes = encode_msg(&m);
    let d = decode_msg(&bytes).expect("round trip");
    match d.mtype {
        Type::Error { e } => {
            assert!(matches!(e.0, ErrorCode::ProtocolError));
            assert_eq!(e.1, b"Protocol Error".to_vec());
        },
        _ => panic!("wrong shape"),
    }
}

#[test]
fn error_exact_bytes() {
    let m = Message {
        t: vec![b'a', b'a'],
        mtype: Type::Error {
            e: Errors(ErrorCode::GenericError, b"A Generic Error Ocurred".to_vec()),
        },
    };
    let bytes = encode_msg(&m);
    let expected = b"d1:eli201e23:A Generic Error Ocurrede1:t2:aa1:y1:ee".to_vec();
    assert_eq!(bytes, expected);
}

#[test]
fn decode_rejects_malformed() {
    assert!(decode_msg(&b"hello".to_vec()).is_none());
    assert!(decode_msg(&Vec::new()).is_none());
    assert!(decode_msg(&b"de".to_vec()).is_none());
    // truncated ping query
    let m = Message {
        t: vec![1, 2],
        mtype: Type::Query { a: Arguments::Ping { id: nid(7) } },
    };
    let mut bytes = encode_msg(&m);
    bytes.pop();
    assert!(decode_msg(&bytes).is_none());
    // trailing garbage
    let mut bytes2 = encode_msg(&m);
    bytes2.push(b'x');
    assert!(decode_msg(&bytes2).is_none());
}

#[test]
fn decode_rejects_mismatched_method() {
    // a ping-shaped argument dictionary under the find_node method name
    let mut bytes = b"d1:ad2:id20:".to_vec();
    bytes.extend_from_slice(&[b'x'; 20]);
    bytes.extend_from_slice(b"e1:q9:find_node1:t2:ab1:y1:qe");
    assert!(decode_msg(&bytes).is_none());
}

#[test]
fn decode_rejects_short_identifier() {
    let bytes = b"d1:ad2:id3:abce1:q4:ping1:t2:ab1:y1:qe".to_vec();
    assert!(decode_msg(&bytes).is_none());
}

#[test]
fn error_code_wire_values() {
    assert_eq!(ErrorCode::GenericError.code(), 201);
    assert_eq!(ErrorCode::ServerError.code(), 202);
    assert_eq!(ErrorCode::ProtocolError.code(), 203);
    assert_eq!(ErrorCode::MethodUnknown.code(), 204);
    assert!(matches!(ErrorCode::of_code(204), Some(ErrorCode::MethodUnknown)));
    assert!(ErrorCode::of_code(200).is_none());
    assert!(ErrorCode::of_code(205).is_none());
}

#[test]
fn lenient_decode_skips_unknown_top_level_keys() {
    // a canonical ping query with a version key spliced in
    let mut bytes = b"d1:ad2:id20:".to_vec();
    bytes.extend_from_slice(&[b'x'; 20]);
    bytes.extend_from_slice(b"e1:q4:ping1:t2:ab1:v4:ABCD1:y1:qe");
    assert!(decode_msg(&bytes).is_none());
    let d = decode_msg_lenient(&bytes).expect("version key skipped");
    assert_eq!(d.t, vec![b'a', b'b']);
    match d.mtype {
        Type::Query { a: Arguments::Ping { id } } => assert_eq!(id.0, vec![b'x'; 20]),
        _ => panic!("wrong shape"),
    }
}

#[test]
fn lenient_decode_skips_nested_unknown_values() {
    // an unknown key whose value is a dictionary of lists and integers
    let mut bytes = b"d1:ad2:id20:".to_vec();
    bytes.extend_from_slice(&[b'x'; 20]);
    bytes.extend_from_slice(b"e1:q4:ping1:t2:ab1:zd1:ali-2e3:abce1:bi7ee1:y1:qe");
    let d = decode_msg_lenient(&bytes).expect("unknown dictionary skipped");
    assert!(matches!(d.mtype, Type::Query { a: Arguments::Ping { .. } }));
}

#[test]
fn lenient_decode_agrees_with_strict_on_canonical_input() {
    let m = Message {
        t: vec![1, 2],
        mtype: Type::Query {
            a: Arguments::FindNode { id: nid(1), target: nid(9) },
        },
    };
    let bytes = encode_msg(&m);
    let a = decode_msg(&bytes).expect("strict");
    let b = decode_msg_lenient(&bytes).expect("lenient");
    assert_eq!(a.t, b.t);
    assert!(matches!(b.mtype, Type::Query { a: Arguments::FindNode { .. } }));
}

#[test]
fn lenient_decode_still_rejects_malformed_input() {
    assert!(decode_msg_lenient(&b"hello".to_vec()).is_none());
    assert!(decode_msg_lenient(&b"d1:v4:ABCDe".to_vec()).is_none());
    assert!(decode_msg_lenient(&Vec::new()).is_none());
}
