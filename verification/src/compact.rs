//! Compact node and peer encodings, and the Kademlia XOR distance metric.
//!
//! A compact node record is 26 bytes: a 20-byte node id, four IPv4 octets in
//! network order, and a big-endian port. A compact peer record is the same
//! trailing 6 bytes without the id.

use vstd::prelude::*;
use vstd::slice::slice_subrange;

use crate::bencode::{SpecValue, Value, view_items};

verus! {

/// An IPv4 endpoint: the four address octets packed big-endian into 32 bits,
/// and the port.
#[derive(Clone, Copy, Debug, PartialEq, Eq, Structural)]
pub struct Addr {
    pub ip: u32,
    pub port: u16,
}

/// A node advertised in a DHT response: its 20-byte id and its endpoint.
#[derive(Clone, Copy, Debug)]
pub struct CompactNode {
    pub id: [u8; 20],
    pub addr: Addr,
}

/// The mathematical shape of a compact node: its id bytes and endpoint.
pub struct SpecNode {
    pub id: Seq<u8>,
    pub addr: Addr,
}

impl View for CompactNode {
    type V = SpecNode;

    open spec fn view(&self) -> SpecNode {
        SpecNode { id: self.id@, addr: self.addr }
    }
}

/// The nodes held in a blob of consecutive 26-byte records.
pub open spec fn spec_nodes_of(s: Seq<u8>) -> Seq<SpecNode> {
    Seq::new(
        s.len() / 26,
        |i: int|
            SpecNode {
                id: s.subrange(26 * i, 26 * i + 20),
                addr: spec_addr_of(s.subrange(26 * i + 20, 26 * i + 26)),
            },
    )
}

/// The endpoint held in a 6-byte compact record.
pub open spec fn spec_addr_of(s: Seq<u8>) -> Addr {
    Addr {
        ip: (s[0] * 0x100_0000 + s[1] * 0x1_0000 + s[2] * 0x100 + s[3]) as u32,
        port: (s[4] * 0x100 + s[5]) as u16,
    }
}

/// Bytewise XOR of two 20-byte identifiers: the raw form of the Kademlia
/// distance between them.
pub fn xor(l: [u8; 20], r: [u8; 20]) -> (out: [u8; 20])
    ensures
        forall|i: int| 0 <= i < 20 ==> out@[i] == (l@[i] ^ r@[i]),
{
    let mut out: [u8; 20] = [0; 20];
    let mut i: usize = 0;
    while i < 20
        invariant
            i <= 20,
            forall|j: int| 0 <= j < i ==> out@[j] == (l@[j] ^ r@[j]),
        decreases 20 - i,
    {
        out[i] = l[i] ^ r[i];
        i += 1;
    }
    out
}

pub open spec fn pow256(k: nat) -> nat
    decreases k,
{
    if k == 0 {
        1nat
    } else {
        256 * pow256((k - 1) as nat)
    }
}

/// The unsigned big-endian integer held in a byte sequence.
pub open spec fn be_int(s: Seq<u8>) -> nat
    decreases s.len(),
{
    if s.len() == 0 {
        0nat
    } else {
        (s[0] * pow256((s.len() - 1) as nat) + be_int(s.subrange(1, s.len() as int))) as nat
    }
}

pub open spec fn xor_bytes(a: Seq<u8>, b: Seq<u8>) -> Seq<u8> {
    Seq::new(a.len(), |i: int| a[i] ^ b[i])
}

/// The Kademlia distance between `t` and `id`: their XOR read as an
/// unsigned big-endian integer; smaller is closer.
pub open spec fn dist(t: Seq<u8>, id: Seq<u8>) -> nat {
    be_int(xor_bytes(t, id))
}

proof fn lemma_be_int_bound(s: Seq<u8>)
    ensures
        be_int(s) < pow256(s.len()),
    decreases s.len(),
{
    if s.len() > 0 {
        let tail = s.subrange(1, s.len() as int);
        lemma_be_int_bound(tail);
        assert(s[0] * pow256((s.len() - 1) as nat) + be_int(tail) < pow256(s.len())) by (
        nonlinear_arith)
            requires
                s[0] <= 255,
                be_int(tail) < pow256((s.len() - 1) as nat),
                pow256(s.len()) == 256 * pow256((s.len() - 1) as nat),
                s.len() >= 1,
        {}
    }
}

/// Equal-length byte sequences order by their first differing byte.
proof fn lemma_be_int_lt(p: Seq<u8>, q: Seq<u8>, i: int)
    requires
        p.len() == q.len(),
        0 <= i < p.len(),
        forall|j: int| 0 <= j < i ==> p[j] == q[j],
        p[i] < q[i],
    ensures
        be_int(p) < be_int(q),
    decreases i,
{
    let pt = p.subrange(1, p.len() as int);
    let qt = q.subrange(1, q.len() as int);
    if i == 0 {
        lemma_be_int_bound(pt);
        lemma_be_int_bound(qt);
        assert(p[0] * pow256((p.len() - 1) as nat) + be_int(pt) < q[0] * pow256(
            (q.len() - 1) as nat,
        ) + be_int(qt)) by (nonlinear_arith)
            requires
                p[0] < q[0],
                be_int(pt) < pow256((p.len() - 1) as nat),
                p.len() == q.len(),
                p.len() >= 1,
                be_int(qt) >= 0,
        {}
    } else {
        assert(forall|j: int| 0 <= j < i - 1 ==> pt[j] == qt[j]);
        assert(pt[i - 1] < qt[i - 1]);
        lemma_be_int_lt(pt, qt, i - 1);
    }
}

/// Compares the distances of two ids to the target `t`: true when `a` is
/// no farther from `t` than `b`.
pub fn dist_le(t: &[u8; 20], a: &[u8; 20], b: &[u8; 20]) -> (r: bool)
    ensures
        r == (dist(t@, a@) <= dist(t@, b@)),
{
    let ghost pa = xor_bytes(t@, a@);
    let ghost pb = xor_bytes(t@, b@);
    let mut i: usize = 0;
    while i < 20
        invariant
            i <= 20,
            pa == xor_bytes(t@, a@),
            pb == xor_bytes(t@, b@),
            forall|j: int| 0 <= j < i ==> pa[j] == pb[j],
        decreases 20 - i,
    {
        let xa = t[i] ^ a[i];
        let xb = t[i] ^ b[i];
        if xa < xb {
            proof {
                lemma_be_int_lt(pa, pb, i as int);
            }
            return true;
        }
        if xa > xb {
            proof {
                lemma_be_int_lt(pb, pa, i as int);
            }
            return false;
        }
        i += 1;
    }
    proof {
        assert(pa =~= pb);
    }
    true
}

/// Decodes one 6-byte compact peer record into its endpoint.
pub fn decode_compact_peer(b: &[u8]) -> (r: Addr)
    requires
        b@.len() == 6,
    ensures
        r == spec_addr_of(b@),
{
    let ip = (b[0] as u32) * 0x100_0000 + (b[1] as u32) * 0x1_0000 + (b[2] as u32) * 0x100 + (
    b[3] as u32);
    let port = (b[4] as u16) * 0x100 + (b[5] as u16);
    Addr { ip, port }
}

/// Decodes one 26-byte compact node record: 20 id bytes before the endpoint.
pub fn decode_compact_node(b: &[u8]) -> (r: CompactNode)
    requires
        b@.len() == 26,
    ensures
        r.id@ == b@.subrange(0, 20),
        r.addr == spec_addr_of(b@.subrange(20, 26)),
{
    let mut id: [u8; 20] = [0; 20];
    let mut i: usize = 0;
    while i < 20
        invariant
            i <= 20,
            b@.len() == 26,
            forall|j: int| 0 <= j < i ==> id@[j] == b@[j],
        decreases 20 - i,
    {
        id[i] = b[i];
        i += 1;
    }
    proof {
        assert(id@ =~= b@.subrange(0, 20));
    }
    let tail: &[u8] = slice_subrange(b, 20, 26);
    let addr = decode_compact_peer(tail);
    CompactNode { id, addr }
}

/// A nodes blob whose length is no multiple of 26; the whole blob is
/// rejected.
#[derive(Debug, Clone, Copy, PartialEq, Eq, Structural)]
pub struct FormatError;

/// Splits a nodes blob into its 26-byte records, all or nothing: any length
/// that is not an exact multiple of 26 rejects the whole blob.
pub fn decode_nodes_blob(b: &[u8]) -> (r: Result<Vec<CompactNode>, FormatError>)
    ensures
        r is Ok <==> b@.len() % 26 == 0,
        match r {
            Ok(v) => v@.len() * 26 == b@.len() && forall|i: int|
                0 <= i < v@.len() ==> (#[trigger] v@[i]).id@ == b@.subrange(26 * i, 26 * i + 20)
                    && v@[i].addr == spec_addr_of(b@.subrange(26 * i + 20, 26 * i + 26)),
            Err(_) => true,
        },
{
    let total = b.len();
    if total % 26 != 0 {
        return Err(FormatError);
    }
    let count = total / 26;
    let mut out: Vec<CompactNode> = Vec::new();
    let mut i: usize = 0;
    while i < count
        invariant
            i <= count,
            total == b@.len(),
            count * 26 == b@.len(),
            out@.len() == i,
            forall|j: int|
                0 <= j < i ==> (#[trigger] out@[j]).id@ == b@.subrange(26 * j, 26 * j + 20)
                    && out@[j].addr == spec_addr_of(b@.subrange(26 * j + 20, 26 * j + 26)),
        decreases count - i,
    {
        let rec: &[u8] = slice_subrange(b, i * 26, i * 26 + 26);
        let node = decode_compact_node(rec);
        proof {
            assert(rec@.subrange(0, 20) =~= b@.subrange(26 * (i as int), 26 * (i as int) + 20));
            assert(rec@.subrange(20, 26) =~= b@.subrange(
                26 * (i as int) + 20,
                26 * (i as int) + 26,
            ));
        }
        out.push(node);
        i += 1;
    }
    Ok(out)
}

/// The peers that a bencode list yields: each 6-byte string decodes to one
/// address, anything else is skipped.
pub open spec fn spec_peers_of(vs: Seq<SpecValue>) -> Seq<Addr>
    decreases vs.len(),
{
    if vs.len() == 0 {
        Seq::empty()
    } else {
        let rest = spec_peers_of(vs.subrange(1, vs.len() as int));
        match vs[0] {
            SpecValue::Bytes(b) => if b.len() == 6 {
                seq![spec_addr_of(b)] + rest
            } else {
                rest
            },
            _ => rest,
        }
    }
}

proof fn lemma_peers_of_push(vs: Seq<SpecValue>, x: SpecValue)
    ensures
        spec_peers_of(vs.push(x)) == spec_peers_of(vs) + (match x {
            SpecValue::Bytes(b) => if b.len() == 6 {
                seq![spec_addr_of(b)]
            } else {
                Seq::empty()
            },
            _ => Seq::empty(),
        }),
    decreases vs.len(),
{
    let tail_piece = (match x {
        SpecValue::Bytes(b) => if b.len() == 6 {
            seq![spec_addr_of(b)]
        } else {
            Seq::<Addr>::empty()
        },
        _ => Seq::<Addr>::empty(),
    });
    if vs.len() == 0 {
        assert(vs.push(x)[0] == x);
        assert(vs.push(x).subrange(1, 1) =~= Seq::<SpecValue>::empty());
        assert(spec_peers_of(Seq::<SpecValue>::empty()) =~= Seq::<Addr>::empty());
        assert(spec_peers_of(vs.push(x)) =~= spec_peers_of(vs) + tail_piece);
    } else {
        let tl = vs.subrange(1, vs.len() as int);
        assert(vs.push(x).subrange(1, vs.push(x).len() as int) =~= tl.push(x));
        lemma_peers_of_push(tl, x);
        assert(spec_peers_of(vs.push(x)) =~= spec_peers_of(vs) + tail_piece);
    }
}

/// Decodes a bencode list into peer addresses: every byte string of exactly
/// six bytes becomes one address; every other element is silently skipped.
pub fn decode_peers_list(values: &Vec<Value>) -> (r: Vec<Addr>)
    ensures
        r@ == spec_peers_of(view_items(*values, 0)),
{
    proof {
        crate::bencode::lemma_view_items(*values, 0);
    }
    let ghost vs = view_items(*values, 0);
    let mut out: Vec<Addr> = Vec::new();
    let mut i: usize = 0;
    while i < values.len()
        invariant
            i <= values.len(),
            vs == view_items(*values, 0),
            vs.len() == values.len(),
            forall|j: int|
                0 <= j < values.len() ==> vs[j] == crate::bencode::value_view(values@[j]),
            out@ == spec_peers_of(vs.subrange(0, i as int)),
        decreases values.len() - i,
    {
        match &values[i] {
            Value::Bytes(b) => {
                if b.len() == 6 {
                    let addr = decode_compact_peer(b.as_slice());
                    out.push(addr);
                }
            },
            _ => {},
        }
        proof {
            lemma_peers_of_push(vs.subrange(0, i as int), vs[i as int]);
            assert(vs.subrange(0, i + 1) =~= vs.subrange(0, i as int).push(vs[i as int]));
            assert(out@ =~= spec_peers_of(vs.subrange(0, i + 1)));
        }
        i += 1;
    }
    proof {
        assert(vs.subrange(0, vs.len() as int) =~= vs);
    }
    out
}

} // verus!
