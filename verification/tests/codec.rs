use dht_get_peers::bencode::{decode, encode, Value};
use dht_get_peers::compact::{decode_compact_peer, decode_nodes_blob, decode_peers_list, Addr};
use dht_get_peers::bencode::ParseError;
use dht_get_peers::krpc::{
    build_get_peers, get_peers_responce_decode, parse_response, Error, PeersOrNodes,
    ResponseMessage,
};

fn round_trips(v: Value) {
    let bytes = encode(&v);
    let back = decode(&bytes).expect("encoding must decode");
    assert_eq!(back.len(), 1);
    assert_eq!(back[0], v);
}

#[test]
fn round_trip_byte_strings() {
    round_trips(Value::Bytes(vec![]));
    round_trips(Value::Bytes(b"spam".to_vec()));
    round_trips(Value::Bytes(vec![0, 255, 1, 2, 3, 101, 58]));
}

#[test]
fn round_trip_integers() {
    round_trips(Value::Int(0));
    round_trips(Value::Int(1));
    round_trips(Value::Int(-1));
    round_trips(Value::Int(24929));
    round_trips(Value::Int(i64::MAX));
    round_trips(Value::Int(i64::MIN));
}

#[test]
fn round_trip_nested_trees() {
    round_trips(Value::List(vec![]));
    round_trips(Value::Dict(vec![]));
    round_trips(Value::List(vec![
        Value::Int(-42),
        Value::Bytes(b"ab".to_vec()),
        Value::List(vec![Value::Int(7)]),
        Value::Dict(vec![
            (b"k".to_vec(), Value::Bytes(b"v".to_vec())),
            (b"n".to_vec(), Value::List(vec![Value::Int(0)])),
        ]),
    ]));
}

#[test]
fn encode_known_forms() {
    assert_eq!(encode(&Value::Bytes(b"spam".to_vec())), b"4:spam".to_vec());
    assert_eq!(encode(&Value::Int(-3)), b"i-3e".to_vec());
    assert_eq!(encode(&Value::Int(0)), b"i0e".to_vec());
    assert_eq!(
        encode(&Value::List(vec![Value::Int(1), Value::Bytes(b"a".to_vec())])),
        b"li1e1:ae".to_vec()
    );
    assert_eq!(
        encode(&Value::Dict(vec![(b"cow".to_vec(), Value::Bytes(b"moo".to_vec()))])),
        b"d3:cow3:mooe".to_vec()
    );
}

#[test]
fn decode_concatenated_values() {
    let vs = decode(b"i1e1:a").expect("two values");
    assert_eq!(vs, vec![Value::Int(1), Value::Bytes(b"a".to_vec())]);
    assert_eq!(decode(b"").expect("empty input"), vec![]);
}

#[test]
fn decode_rejects_malformed() {
    assert!(decode(b"4:ab").is_err(), "truncated payload");
    assert!(decode(b"4").is_err(), "truncated length prefix");
    assert!(decode(b"x").is_err(), "invalid type tag");
    assert!(decode(b"li1e").is_err(), "unterminated list");
    assert!(decode(b"d3:cow").is_err(), "unterminated dictionary");
    assert!(decode(b"i12").is_err(), "unterminated integer");
    assert!(decode(b"i-0e").is_err(), "negative zero");
    assert!(decode(b"i03e").is_err(), "leading zero");
}

#[test]
fn peer_fixture_decodes() {
    let addr = decode_compact_peer(&[192, 168, 1, 1, 0x1A, 0xE1]);
    assert_eq!(addr.ip, u32::from_be_bytes([192, 168, 1, 1]));
    assert_eq!(addr.port, 6881);
}

#[test]
fn nodes_blob_all_or_nothing() {
    let mut blob = Vec::new();
    for k in 0..3u8 {
        let mut rec = vec![k; 20];
        rec.extend_from_slice(&[10, 0, 0, k, 0x1A, 0xE1]);
        blob.extend_from_slice(&rec);
    }
    let nodes = decode_nodes_blob(&blob).expect("multiple of 26");
    assert_eq!(nodes.len(), 3);
    for (k, node) in nodes.iter().enumerate() {
        assert_eq!(node.id, [k as u8; 20]);
        assert_eq!(node.addr.ip, u32::from_be_bytes([10, 0, 0, k as u8]));
        assert_eq!(node.addr.port, 6881);
    }
    assert!(decode_nodes_blob(&blob[..25]).is_err());
    assert!(decode_nodes_blob(&blob[..27]).is_err());
    assert!(decode_nodes_blob(&[]).unwrap().is_empty());
}

#[test]
fn peers_list_skips_bad_entries() {
    let values = vec![
        Value::Bytes(vec![192, 168, 1, 1, 0x1A, 0xE1]),
        Value::Bytes(b"short".to_vec()),
        Value::Int(6),
        Value::Bytes(vec![10, 0, 0, 1, 0, 80]),
        Value::List(vec![]),
    ];
    let peers = decode_peers_list(&values);
    assert_eq!(
        peers,
        vec![
            Addr { ip: u32::from_be_bytes([192, 168, 1, 1]), port: 6881 },
            Addr { ip: u32::from_be_bytes([10, 0, 0, 1]), port: 80 },
        ]
    );
}

#[test]
fn query_bytes_match_wire_format() {
    let sender = [7u8; 20];
    let info_hash = [9u8; 20];
    let query = build_get_peers(24929, &sender, &info_hash);
    let mut expected = b"d1:t2:aa1:y1:q1:q9:get_peers1:ad2:id20:".to_vec();
    expected.extend_from_slice(&sender);
    expected.extend_from_slice(b"9:info_hash20:");
    expected.extend_from_slice(&info_hash);
    expected.extend_from_slice(b"ee");
    assert_eq!(encode(&query), expected);
}

fn peers_value() -> Value {
    Value::List(vec![Value::Bytes(vec![192, 168, 1, 1, 0x1A, 0xE1])])
}

fn nodes_value() -> Value {
    let mut blob = vec![3u8; 20];
    blob.extend_from_slice(&[10, 0, 0, 3, 0x1A, 0xE1]);
    Value::Bytes(blob)
}

#[test]
fn response_precedence_peers_over_nodes() {
    let reply = Value::Dict(vec![(
        b"r".to_vec(),
        Value::Dict(vec![
            (b"nodes".to_vec(), nodes_value()),
            (b"values".to_vec(), peers_value()),
        ]),
    )]);
    let bytes = encode(&reply);
    match parse_response(&bytes) {
        ResponseMessage::Peers(peers) => {
            assert_eq!(peers, vec![Addr { ip: u32::from_be_bytes([192, 168, 1, 1]), port: 6881 }]);
        },
        other => panic!("expected peers, got {:?}", other),
    }
    match get_peers_responce_decode(&bytes) {
        Ok(PeersOrNodes::Peers(peers)) => assert_eq!(peers.len(), 1),
        other => panic!("expected peers, got {:?}", other),
    }
}

#[test]
fn response_nodes_without_values() {
    let reply = Value::Dict(vec![(
        b"r".to_vec(),
        Value::Dict(vec![(b"nodes".to_vec(), nodes_value())]),
    )]);
    let bytes = encode(&reply);
    match get_peers_responce_decode(&bytes) {
        Ok(PeersOrNodes::Nodes(nodes)) => {
            assert_eq!(nodes.len(), 1);
            assert_eq!(nodes[0].id, [3u8; 20]);
            assert_eq!(nodes[0].addr.port, 6881);
        },
        other => panic!("expected nodes, got {:?}", other),
    }
}

#[test]
fn response_error_variants() {
    assert_eq!(
        get_peers_responce_decode(b"xyz").unwrap_err(),
        Error::DeserializeError(ParseError)
    );
    assert_eq!(
        get_peers_responce_decode(b"i7e").unwrap_err(),
        Error::DeserializeError(ParseError)
    );
    let reported = Value::Dict(vec![(b"e".to_vec(), Value::List(vec![Value::Int(201)]))]);
    assert_eq!(
        get_peers_responce_decode(&encode(&reported)).unwrap_err(),
        Error::ExpectResponse
    );
    let no_r = Value::Dict(vec![(b"t".to_vec(), Value::Bytes(b"aa".to_vec()))]);
    assert_eq!(get_peers_responce_decode(&encode(&no_r)).unwrap_err(), Error::ExpectResponse);
    let empty_r = Value::Dict(vec![(b"r".to_vec(), Value::Dict(vec![]))]);
    assert_eq!(
        get_peers_responce_decode(&encode(&empty_r)).unwrap_err(),
        Error::ExpectPeersNodes
    );
}
