use dht_get_peers::bencode::{encode, Value};
use dht_get_peers::compact::{xor, Addr, CompactNode};
use dht_get_peers::krpc::{get_peers_responce_decode, PeersOrNodes};
use dht_get_peers::lookup::{dedup_addrs, select_frontier, Lookup};

fn addr(last: u8, port: u16) -> Addr {
    Addr { ip: u32::from_be_bytes([10, 0, 0, last]), port }
}

fn node(id: [u8; 20], a: Addr) -> CompactNode {
    CompactNode { id, addr: a }
}

fn id_with(first: u8, last: u8) -> [u8; 20] {
    let mut id = [0u8; 20];
    id[0] = first;
    id[19] = last;
    id
}

#[test]
fn xor_is_bytewise() {
    let l = [0xFFu8; 20];
    let mut r = [0u8; 20];
    r[0] = 0x0F;
    let out = xor(l, r);
    assert_eq!(out[0], 0xF0);
    for k in 1..20 {
        assert_eq!(out[k], 0xFF);
    }
}

#[test]
fn sort_by_distance_matches_hand_order() {
    let target = [0u8; 20];
    let a = node(id_with(1, 0), addr(1, 1));
    let b = node(id_with(2, 0), addr(2, 1));
    let c = node(id_with(0, 1), addr(3, 1));
    let found = vec![a, b, c];
    let visited: Vec<Addr> = Vec::new();
    let chosen = select_frontier(&target, &found, &visited);
    let order: Vec<u8> = chosen.iter().map(|n| n.addr.ip as u8).collect();
    assert_eq!(order, vec![3, 1, 2], "ascending by big-endian XOR distance");
}

#[test]
fn equal_distances_keep_discovery_order() {
    let target = [5u8; 20];
    let same_id = id_with(9, 9);
    let first = node(same_id, addr(1, 1));
    let second = node(same_id, addr(2, 2));
    let near = node([5u8; 20], addr(3, 3));
    let found = vec![first, second, near];
    let visited: Vec<Addr> = Vec::new();
    let chosen = select_frontier(&target, &found, &visited);
    let order: Vec<u8> = chosen.iter().map(|n| n.addr.ip as u8).collect();
    assert_eq!(order, vec![3, 1, 2], "zero distance first, tie kept in input order");
}

#[test]
fn frontier_never_exceeds_five() {
    let target = [0u8; 20];
    let mut found = Vec::new();
    for k in 0..7u8 {
        found.push(node(id_with(k + 1, 0), addr(k + 1, 1)));
    }
    let mut lookup = Lookup::new(target, vec![addr(200, 1)]);
    let r = lookup.advance_round(&Vec::new(), &found);
    assert!(r.is_none());
    assert_eq!(lookup.frontier.len(), 5);
    let ips: Vec<u8> = lookup.frontier.iter().map(|a| a.ip as u8).collect();
    assert_eq!(ips, vec![1, 2, 3, 4, 5], "the five closest, ascending");
}

#[test]
fn visited_addresses_are_not_redispatched() {
    let target = [0u8; 20];
    let n1 = node(id_with(1, 0), addr(1, 1));
    let n2 = node(id_with(2, 0), addr(2, 1));
    let mut lookup = Lookup::new(target, vec![addr(200, 1)]);
    assert!(lookup.advance_round(&Vec::new(), &vec![n1, n2]).is_none());
    assert_eq!(lookup.frontier, vec![addr(1, 1), addr(2, 1)]);
    // both rediscovered, one new node found
    let n3 = node(id_with(3, 0), addr(3, 1));
    assert!(lookup.advance_round(&Vec::new(), &vec![n1, n2, n3]).is_none());
    assert_eq!(lookup.frontier, vec![addr(3, 1)], "only the unvisited node goes out");
    // rediscovered once more: nothing new, so the frontier empties
    assert!(lookup.advance_round(&Vec::new(), &vec![n1, n2, n3]).is_none());
    assert!(lookup.frontier.is_empty());
}

#[test]
fn duplicate_addresses_collapse_to_first() {
    let target = [0u8; 20];
    let far = node(id_with(9, 0), addr(4, 1));
    let near_dup = node(id_with(1, 0), addr(4, 1));
    let other = node(id_with(2, 0), addr(5, 1));
    let mut lookup = Lookup::new(target, vec![addr(200, 1)]);
    assert!(lookup.advance_round(&Vec::new(), &vec![far, near_dup, other]).is_none());
    // the first discovery of 10.0.0.4 is the one kept, and it sorts by its own id
    let ips: Vec<u8> = lookup.frontier.iter().map(|a| a.ip as u8).collect();
    assert_eq!(ips, vec![5, 4]);
}

#[test]
fn exhaustion_returns_empty_in_finite_rounds() {
    let target = [1u8; 20];
    let mut lookup = Lookup::new(target, vec![addr(1, 1), addr(2, 1)]);
    // round 1: every reply is silence
    let r1 = lookup.advance_round(&Vec::new(), &Vec::new());
    assert!(r1.is_none());
    assert!(lookup.frontier.is_empty());
    // round 2: nothing left to dispatch
    let r2 = lookup.advance_round(&Vec::new(), &Vec::new());
    assert_eq!(r2, Some(Vec::new()));
}

#[test]
fn success_returns_deduplicated_round_two_peers() {
    let target = [0u8; 20];
    let mut lookup = Lookup::new(target, vec![addr(200, 1)]);
    // round 1: six nodes come back, the closest five are forwarded
    let mut found = Vec::new();
    for k in 0..6u8 {
        found.push(node(id_with(k + 1, 0), addr(k + 1, 1)));
    }
    assert!(lookup.advance_round(&Vec::new(), &found).is_none());
    assert_eq!(lookup.frontier.len(), 5);
    // round 2: the queried five yield peers, one address repeated by two
    // different nodes
    let p1 = addr(31, 6881);
    let p2 = addr(32, 6881);
    let peers = vec![p1, p2, p1];
    let done = lookup.advance_round(&peers, &Vec::new());
    assert_eq!(done, Some(vec![p1, p2]));
}

#[test]
fn dedup_drops_every_repeated_address() {
    let a = addr(1, 1);
    let b = addr(2, 2);
    assert_eq!(dedup_addrs(&vec![a, a, b, b, a]), vec![a, b]);
    assert_eq!(dedup_addrs(&vec![a, b, a]), vec![a, b]);
    assert_eq!(dedup_addrs(&Vec::new()), Vec::new());
    assert_eq!(dedup_addrs(&vec![a]), vec![a]);
}

fn nodes_reply(nodes: &[CompactNode]) -> Vec<u8> {
    let mut blob = Vec::new();
    for n in nodes {
        blob.extend_from_slice(&n.id);
        let ip = n.addr.ip.to_be_bytes();
        blob.extend_from_slice(&ip);
        blob.extend_from_slice(&n.addr.port.to_be_bytes());
    }
    let reply = Value::Dict(vec![(
        b"r".to_vec(),
        Value::Dict(vec![(b"nodes".to_vec(), Value::Bytes(blob))]),
    )]);
    encode(&reply)
}

fn peers_reply(peers: &[Addr]) -> Vec<u8> {
    let mut list = Vec::new();
    for p in peers {
        let mut rec = p.ip.to_be_bytes().to_vec();
        rec.extend_from_slice(&p.port.to_be_bytes());
        list.push(Value::Bytes(rec));
    }
    let reply = Value::Dict(vec![(
        b"r".to_vec(),
        Value::Dict(vec![(b"values".to_vec(), Value::List(list))]),
    )]);
    encode(&reply)
}

#[test]
fn datagrams_drive_rounds_to_success() {
    let target = [0u8; 20];
    let mut lookup = Lookup::new(target, vec![addr(200, 6881)]);
    // round 1: the bootstrap node answers with two closer nodes
    let advertised = vec![node(id_with(2, 0), addr(2, 1)), node(id_with(1, 0), addr(1, 1))];
    let datagram = nodes_reply(&advertised);
    let mut peers_found: Vec<Addr> = Vec::new();
    let mut nodes_found: Vec<CompactNode> = Vec::new();
    match get_peers_responce_decode(&datagram).expect("nodes reply parses") {
        PeersOrNodes::Peers(p) => peers_found.extend_from_slice(&p),
        PeersOrNodes::Nodes(n) => nodes_found.extend_from_slice(&n),
    }
    assert!(lookup.advance_round(&peers_found, &nodes_found).is_none());
    assert_eq!(lookup.frontier, vec![addr(1, 1), addr(2, 1)], "sorted closest first");
    // round 2: one of the queried nodes hands back a peer
    let peer = addr(77, 6881);
    let datagram = peers_reply(&[peer, peer]);
    let mut peers_found: Vec<Addr> = Vec::new();
    let nodes_found: Vec<CompactNode> = Vec::new();
    match get_peers_responce_decode(&datagram).expect("peers reply parses") {
        PeersOrNodes::Peers(p) => peers_found.extend_from_slice(&p),
        PeersOrNodes::Nodes(_) => panic!("expected peers"),
    }
    let done = lookup.advance_round(&peers_found, &nodes_found);
    assert_eq!(done, Some(vec![peer]));
}
