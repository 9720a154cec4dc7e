//! The KRPC get_peers message layer: builds the outgoing query value and
//! interprets inbound response datagrams.
//!
//! A reply that carries a peers list yields `Peers` even when a nodes blob
//! stands beside it: finding peers ends the lookup, so it always wins.

use vstd::prelude::*;

use crate::bencode::{value_view, view_items, view_pairs, ParseError, SpecValue, Value};
use crate::bencode::{lemma_view_items, lemma_view_pairs};
use crate::compact::{
    decode_nodes_blob, decode_peers_list, spec_nodes_of, spec_peers_of, Addr, CompactNode,
    SpecNode,
};

verus! {

/// The first value bound to `key` in a dictionary's pair sequence.
pub open spec fn spec_dict_get(pairs: Seq<(Seq<u8>, SpecValue)>, key: Seq<u8>) -> Option<
    SpecValue,
>
    decreases pairs.len(),
{
    if pairs.len() == 0 {
        None
    } else if pairs[0].0 == key {
        Some(pairs[0].1)
    } else {
        spec_dict_get(pairs.subrange(1, pairs.len() as int), key)
    }
}

proof fn lemma_dict_get_prefix(pairs: Seq<(Seq<u8>, SpecValue)>, key: Seq<u8>, j: int)
    requires
        0 <= j <= pairs.len(),
        forall|l: int| 0 <= l < j ==> (#[trigger] pairs[l]).0 != key,
    ensures
        spec_dict_get(pairs, key) == spec_dict_get(pairs.subrange(j, pairs.len() as int), key),
    decreases j,
{
    if j > 0 {
        assert(pairs[0].0 != key);
        let tl = pairs.subrange(1, pairs.len() as int);
        assert(forall|l: int| 0 <= l < j - 1 ==> (#[trigger] tl[l]).0 != key);
        lemma_dict_get_prefix(tl, key, j - 1);
        assert(tl.subrange(j - 1, tl.len() as int) =~= pairs.subrange(j, pairs.len() as int));
    } else {
        assert(pairs.subrange(0, pairs.len() as int) =~= pairs);
    }
}

/// True when the vector holds exactly the bytes of the slice.
fn bytes_eq(a: &Vec<u8>, b: &[u8]) -> (r: bool)
    ensures
        r == (a@ == b@),
{
    if a.len() != b.len() {
        return false;
    }
    let mut i: usize = 0;
    while i < a.len()
        invariant
            i <= a.len(),
            a@.len() == b@.len(),
            forall|j: int| 0 <= j < i ==> a@[j] == b@[j],
        decreases a.len() - i,
    {
        if a[i] != b[i] {
            return false;
        }
        i += 1;
    }
    proof {
        assert(a@ =~= b@);
    }
    true
}

/// Index of the first pair whose key equals `key`.
fn dict_find(pairs: &Vec<(Vec<u8>, Value)>, key: &[u8]) -> (r: Option<usize>)
    ensures
        match r {
            Some(j) => j < pairs@.len() && pairs@[j as int].0@ == key@ && (forall|l: int|
                0 <= l < j ==> (#[trigger] pairs@[l]).0@ != key@) && spec_dict_get(
                view_pairs(*pairs, 0),
                key@,
            ) == Some(value_view(pairs@[j as int].1)),
            None => spec_dict_get(view_pairs(*pairs, 0), key@) is None,
        },
{
    proof {
        lemma_view_pairs(*pairs, 0);
    }
    let ghost vp = view_pairs(*pairs, 0);
    let mut i: usize = 0;
    while i < pairs.len()
        invariant
            i <= pairs.len(),
            vp == view_pairs(*pairs, 0),
            vp.len() == pairs.len(),
            forall|j: int| 0 <= j < pairs.len() ==> vp[j] == (pairs@[j].0@, value_view(pairs@[j].1)),
            forall|l: int| 0 <= l < i ==> (#[trigger] pairs@[l]).0@ != key@,
        decreases pairs.len() - i,
    {
        if bytes_eq(&pairs[i].0, key) {
            proof {
                assert(forall|l: int| 0 <= l < i ==> (#[trigger] vp[l]).0 != key@);
                lemma_dict_get_prefix(vp, key@, i as int);
                assert(vp.subrange(i as int, vp.len() as int)[0] == vp[i as int]);
            }
            return Some(i);
        }
        i += 1;
    }
    proof {
        assert(forall|l: int| 0 <= l < vp.len() ==> (#[trigger] vp[l]).0 != key@);
        lemma_dict_get_prefix(vp, key@, vp.len() as int);
        assert(vp.subrange(vp.len() as int, vp.len() as int) =~= Seq::<(Seq<u8>, SpecValue)>::empty());
    }
    None
}

/// The reason a datagram was rejected as a get_peers reply.
#[derive(Debug, Clone, Copy, PartialEq, Eq, Structural)]
pub enum MalformedReason {
    /// The bytes are no bencode, or hold no top-level value.
    NotBencode,
    /// The first top-level value is no dictionary.
    NotDictionary,
    /// Neither an error payload nor a response dictionary under `r`.
    MissingResponse,
    /// The response dictionary holds no peers list and no usable nodes blob.
    MissingPeersNodes,
}

/// An interpreted get_peers reply.
#[derive(Debug)]
pub enum ResponseMessage {
    /// The reply carried peer addresses: the lookup's goal.
    Peers(Vec<Addr>),
    /// The reply carried closer nodes to query next.
    Nodes(Vec<CompactNode>),
    /// The peer reported a protocol error; its payload is kept as is.
    ProtocolError(Value),
    /// The datagram does not form a usable reply.
    Malformed(MalformedReason),
}

/// The mathematical shape of an interpreted reply.
pub enum SpecResponse {
    Peers(Seq<Addr>),
    Nodes(Seq<SpecNode>),
    ProtocolError(SpecValue),
    Malformed(MalformedReason),
}

impl View for ResponseMessage {
    type V = SpecResponse;

    open spec fn view(&self) -> SpecResponse {
        match self {
            ResponseMessage::Peers(p) => SpecResponse::Peers(p@),
            ResponseMessage::Nodes(n) => SpecResponse::Nodes(
                n@.map_values(|c: CompactNode| c@),
            ),
            ResponseMessage::ProtocolError(v) => SpecResponse::ProtocolError(value_view(*v)),
            ResponseMessage::Malformed(m) => SpecResponse::Malformed(*m),
        }
    }
}

pub open spec fn key_e() -> Seq<u8> {
    seq![101u8]
}

pub open spec fn key_r() -> Seq<u8> {
    seq![114u8]
}

pub open spec fn key_values() -> Seq<u8> {
    seq![118u8, 97u8, 108u8, 117u8, 101u8, 115u8]
}

pub open spec fn key_nodes() -> Seq<u8> {
    seq![110u8, 111u8, 100u8, 101u8, 115u8]
}

/// What the peers list or nodes blob inside the response dictionary yields.
pub open spec fn spec_interpret_payload(rp: Seq<(Seq<u8>, SpecValue)>) -> SpecResponse {
    match spec_dict_get(rp, key_values()) {
        Some(v) => match v {
            SpecValue::List(items) => SpecResponse::Peers(spec_peers_of(items)),
            _ => SpecResponse::Malformed(MalformedReason::MissingPeersNodes),
        },
        None => match spec_dict_get(rp, key_nodes()) {
            Some(v) => match v {
                SpecValue::Bytes(blob) => if blob.len() % 26 == 0 {
                    SpecResponse::Nodes(spec_nodes_of(blob))
                } else {
                    SpecResponse::Malformed(MalformedReason::MissingPeersNodes)
                },
                _ => SpecResponse::Malformed(MalformedReason::MissingPeersNodes),
            },
            None => SpecResponse::Malformed(MalformedReason::MissingPeersNodes),
        },
    }
}

/// Precedence: a response dictionary that carries a peers list yields
/// `Peers`, never `Nodes`, whatever nodes blob stands beside it.
pub proof fn lemma_values_take_precedence(rp: Seq<(Seq<u8>, SpecValue)>)
    requires
        spec_dict_get(rp, key_values()) matches Some(v) && v is List,
    ensures
        spec_interpret_payload(rp) is Peers,
{
}

/// What a whole reply dictionary yields: a reported error wins, otherwise
/// the response dictionary under `r` is interpreted.
pub open spec fn spec_interpret_dict(pairs: Seq<(Seq<u8>, SpecValue)>) -> SpecResponse {
    match spec_dict_get(pairs, key_e()) {
        Some(e) => SpecResponse::ProtocolError(e),
        None => match spec_dict_get(pairs, key_r()) {
            Some(v) => match v {
                SpecValue::Dict(rp) => spec_interpret_payload(rp),
                _ => SpecResponse::Malformed(MalformedReason::MissingResponse),
            },
            None => SpecResponse::Malformed(MalformedReason::MissingResponse),
        },
    }
}

/// What `parse_response` returns for a datagram.
pub open spec fn spec_parse_response(s: Seq<u8>) -> SpecResponse {
    match crate::bencode::spec_parse_all(s) {
        None => SpecResponse::Malformed(MalformedReason::NotBencode),
        Some(vs) => if vs.len() == 0 {
            SpecResponse::Malformed(MalformedReason::NotBencode)
        } else {
            match vs[0] {
                SpecValue::Dict(pairs) => spec_interpret_dict(pairs),
                _ => SpecResponse::Malformed(MalformedReason::NotDictionary),
            }
        },
    }
}

/// Interprets one inbound datagram as a get_peers reply. A peers list takes
/// precedence over a nodes blob; a reported error takes precedence over
/// both; anything unusable is `Malformed`.
pub fn parse_response(s: &[u8]) -> (r: ResponseMessage)
    ensures
        r@ == spec_parse_response(s@),
{
    let mut vs = match crate::bencode::decode(s) {
        Ok(vs) => vs,
        Err(_) => {
            return ResponseMessage::Malformed(MalformedReason::NotBencode);
        },
    };
    if vs.len() == 0 {
        proof {
            lemma_view_items(vs, 0);
        }
        return ResponseMessage::Malformed(MalformedReason::NotBencode);
    }
    proof {
        lemma_view_items(vs, 0);
    }
    let ghost all = view_items(vs, 0);
    let first = vs.remove(0);
    proof {
        assert(first@ == all[0]);
    }
    let mut pairs = match first {
        Value::Dict(p) => p,
        _ => {
            return ResponseMessage::Malformed(MalformedReason::NotDictionary);
        },
    };
    let ghost vp = view_pairs(pairs, 0);
    let ekey: [u8; 1] = [101];
    proof {
        assert(ekey@ =~= key_e());
    }
    if let Some(j) = dict_find(&pairs, ekey.as_slice()) {
        proof {
            lemma_view_pairs(pairs, 0);
        }
        let pair = pairs.remove(j);
        return ResponseMessage::ProtocolError(pair.1);
    }
    let rkey: [u8; 1] = [114];
    proof {
        assert(rkey@ =~= key_r());
    }
    let j = match dict_find(&pairs, rkey.as_slice()) {
        Some(j) => j,
        None => {
            return ResponseMessage::Malformed(MalformedReason::MissingResponse);
        },
    };
    proof {
        lemma_view_pairs(pairs, 0);
    }
    let pair = pairs.remove(j);
    let rp = match pair.1 {
        Value::Dict(rp) => rp,
        _ => {
            return ResponseMessage::Malformed(MalformedReason::MissingResponse);
        },
    };
    let ghost vrp = view_pairs(rp, 0);
    let vkey: [u8; 6] = [118, 97, 108, 117, 101, 115];
    proof {
        assert(vkey@ =~= key_values());
    }
    if let Some(j) = dict_find(&rp, vkey.as_slice()) {
        proof {
            lemma_view_pairs(rp, 0);
        }
        let mut rp2 = rp;
        let pair = rp2.remove(j);
        match pair.1 {
            Value::List(items) => {
                let peers = decode_peers_list(&items);
                return ResponseMessage::Peers(peers);
            },
            _ => {
                return ResponseMessage::Malformed(MalformedReason::MissingPeersNodes);
            },
        }
    }
    let nkey: [u8; 5] = [110, 111, 100, 101, 115];
    proof {
        assert(nkey@ =~= key_nodes());
    }
    let j = match dict_find(&rp, nkey.as_slice()) {
        Some(j) => j,
        None => {
            return ResponseMessage::Malformed(MalformedReason::MissingPeersNodes);
        },
    };
    proof {
        lemma_view_pairs(rp, 0);
    }
    let mut rp2 = rp;
    let pair = rp2.remove(j);
    match pair.1 {
        Value::Bytes(blob) => {
            match decode_nodes_blob(blob.as_slice()) {
                Ok(nodes) => {
                    proof {
                        assert(nodes@.map_values(|c: CompactNode| c@) =~~= spec_nodes_of(blob@));
                    }
                    ResponseMessage::Nodes(nodes)
                },
                Err(_) => ResponseMessage::Malformed(MalformedReason::MissingPeersNodes),
            }
        },
        _ => ResponseMessage::Malformed(MalformedReason::MissingPeersNodes),
    }
}

pub open spec fn query_name() -> Seq<u8> {
    seq![103u8, 101u8, 116u8, 95u8, 112u8, 101u8, 101u8, 114u8, 115u8]
}

pub open spec fn key_info_hash() -> Seq<u8> {
    seq![105u8, 110u8, 102u8, 111u8, 95u8, 104u8, 97u8, 115u8, 104u8]
}

pub open spec fn key_id() -> Seq<u8> {
    seq![105u8, 100u8]
}

/// The outgoing query value: `{"t": tid, "y": "q", "q": "get_peers",
/// "a": {"id": sid, "info_hash": ih}}`, the transaction id as two
/// big-endian bytes.
pub open spec fn spec_get_peers_query(tid: u16, sid: Seq<u8>, ih: Seq<u8>) -> SpecValue {
    SpecValue::Dict(
        seq![
            (seq![116u8], SpecValue::Bytes(seq![(tid / 256) as u8, (tid % 256) as u8])),
            (seq![121u8], SpecValue::Bytes(seq![113u8])),
            (seq![113u8], SpecValue::Bytes(query_name())),
            (
                seq![97u8],
                SpecValue::Dict(
                    seq![
                        (key_id(), SpecValue::Bytes(sid)),
                        (key_info_hash(), SpecValue::Bytes(ih)),
                    ],
                ),
            ),
        ],
    )
}

/// Builds the one get_peers query value that a lookup re-sends to every
/// node in every round.
pub fn build_get_peers(transaction_id: u16, sender_id: &[u8; 20], info_hash: &[u8; 20]) -> (r:
    Value)
    ensures
        r@ == spec_get_peers_query(transaction_id, sender_id@, info_hash@),
{
    let mut t_bytes: Vec<u8> = Vec::new();
    t_bytes.push((transaction_id / 256) as u8);
    t_bytes.push((transaction_id % 256) as u8);
    let mut t_key: Vec<u8> = Vec::new();
    t_key.push(116);
    let mut y_key: Vec<u8> = Vec::new();
    y_key.push(121);
    let mut y_val: Vec<u8> = Vec::new();
    y_val.push(113);
    let mut q_key: Vec<u8> = Vec::new();
    q_key.push(113);
    let q_val: Vec<u8> = vstd::slice::slice_to_vec(
        [103u8, 101, 116, 95, 112, 101, 101, 114, 115].as_slice(),
    );
    let mut a_key: Vec<u8> = Vec::new();
    a_key.push(97);
    let mut id_key: Vec<u8> = Vec::new();
    id_key.push(105);
    id_key.push(100);
    let ih_key: Vec<u8> = vstd::slice::slice_to_vec(
        [105u8, 110, 102, 111, 95, 104, 97, 115, 104].as_slice(),
    );
    let sid: Vec<u8> = vstd::slice::slice_to_vec(sender_id.as_slice());
    let ih: Vec<u8> = vstd::slice::slice_to_vec(info_hash.as_slice());
    proof {
        assert(t_bytes@ =~= seq![
            (transaction_id / 256) as u8,
            (transaction_id % 256) as u8,
        ]);
        assert(t_key@ =~= seq![116u8]);
        assert(y_key@ =~= seq![121u8]);
        assert(y_val@ =~= seq![113u8]);
        assert(q_key@ =~= seq![113u8]);
        assert(q_val@ =~= query_name());
        assert(a_key@ =~= seq![97u8]);
        assert(id_key@ =~= seq![105u8, 100u8]);
        assert(ih_key@ =~= key_info_hash());
    }
    let ghost sid_view = sid@;
    let ghost ih_view = ih@;
    let mut args: Vec<(Vec<u8>, Value)> = Vec::new();
    args.push((id_key, Value::Bytes(sid)));
    args.push((ih_key, Value::Bytes(ih)));
    proof {
        lemma_view_pairs(args, 0);
        assert(view_pairs(args, 0) =~= seq![
            (key_id(), SpecValue::Bytes(sid_view)),
            (key_info_hash(), SpecValue::Bytes(ih_view)),
        ]);
    }
    let ghost args_view = view_pairs(args, 0);
    let mut top: Vec<(Vec<u8>, Value)> = Vec::new();
    top.push((t_key, Value::Bytes(t_bytes)));
    top.push((y_key, Value::Bytes(y_val)));
    top.push((q_key, Value::Bytes(q_val)));
    top.push((a_key, Value::Dict(args)));
    proof {
        lemma_view_pairs(top, 0);
        assert(view_pairs(top, 0) =~= seq![
            (
                seq![116u8],
                SpecValue::Bytes(seq![(transaction_id / 256) as u8, (transaction_id % 256) as u8]),
            ),
            (seq![121u8], SpecValue::Bytes(seq![113u8])),
            (seq![113u8], SpecValue::Bytes(query_name())),
            (seq![97u8], SpecValue::Dict(args_view)),
        ]);
    }
    Value::Dict(top)
}

/// What a reply decodes to for the lookup engine: the peers found, or the
/// closer nodes to query next.
#[derive(Debug)]
pub enum PeersOrNodes {
    Peers(Vec<Addr>),
    Nodes(Vec<CompactNode>),
}

/// Rejection of an inbound datagram.
#[derive(Debug, Clone, Copy, PartialEq, Eq, Structural)]
pub enum Error {
    /// The bytes do not decode as a bencode dictionary.
    DeserializeError(ParseError),
    /// The message is no get_peers response: a reported error, or no
    /// response dictionary.
    ExpectResponse,
    /// The response carries neither peers nor nodes.
    ExpectPeersNodes,
}

/// The rejection that each malformed shape maps to.
pub open spec fn spec_error_of(m: MalformedReason) -> Error {
    match m {
        MalformedReason::NotBencode => Error::DeserializeError(ParseError),
        MalformedReason::NotDictionary => Error::DeserializeError(ParseError),
        MalformedReason::MissingResponse => Error::ExpectResponse,
        MalformedReason::MissingPeersNodes => Error::ExpectPeersNodes,
    }
}

/// Decodes one inbound datagram to peers or nodes. A reply with both yields
/// the peers; a reported protocol error or any other message shape is
/// rejected with the matching error.
pub fn get_peers_responce_decode(recv: &[u8]) -> (r: Result<PeersOrNodes, Error>)
    ensures
        ({
            let sr = spec_parse_response(recv@);
            match sr {
                SpecResponse::Peers(ps) => r is Ok && r->Ok_0 is Peers && r->Ok_0->Peers_0@
                    == ps,
                SpecResponse::Nodes(ns) => r is Ok && r->Ok_0 is Nodes && r->Ok_0->Nodes_0@
                    .map_values(|c: CompactNode| c@) == ns,
                SpecResponse::ProtocolError(_) => r == Err::<PeersOrNodes, Error>(
                    Error::ExpectResponse,
                ),
                SpecResponse::Malformed(m) => r == Err::<PeersOrNodes, Error>(spec_error_of(m)),
            }
        }),
{
    match parse_response(recv) {
        ResponseMessage::Peers(p) => Ok(PeersOrNodes::Peers(p)),
        ResponseMessage::Nodes(n) => Ok(PeersOrNodes::Nodes(n)),
        ResponseMessage::ProtocolError(_) => Err(Error::ExpectResponse),
        ResponseMessage::Malformed(m) => Err(
            match m {
                MalformedReason::NotBencode => Error::DeserializeError(ParseError),
                MalformedReason::NotDictionary => Error::DeserializeError(ParseError),
                MalformedReason::MissingResponse => Error::ExpectResponse,
                MalformedReason::MissingPeersNodes => Error::ExpectPeersNodes,
            },
        ),
    }
}

} // verus!
