//! The iterative closest-node search engine, one round at a time.
//!
//! A lookup keeps a visited set and a frontier of at most five nodes. The
//! caller dispatches the query to every frontier address, collects what the
//! replies yield, and hands peers and nodes to `advance_round`, which either
//! ends the lookup or selects the next frontier by XOR distance.

use vstd::prelude::*;

use crate::compact::{dist, dist_le, Addr, CompactNode, SpecNode};

verus! {

/// Addresses already queried never shrink; an address in the set is never
/// dispatched again.
pub open spec fn has_addr(s: Seq<SpecNode>, a: Addr) -> bool {
    exists|i: int| 0 <= i < s.len() && s[i].addr == a
}

/// The nodes whose address is not yet visited, in discovery order.
pub open spec fn spec_unvisited(s: Seq<SpecNode>, visited: Seq<Addr>) -> Seq<SpecNode>
    decreases s.len(),
{
    if s.len() == 0 {
        Seq::empty()
    } else {
        let p = spec_unvisited(s.drop_last(), visited);
        if visited.contains(s.last().addr) {
            p
        } else {
            p.push(s.last())
        }
    }
}

/// One node per address, keeping the first discovery of each address.
pub open spec fn spec_dedup_nodes(s: Seq<SpecNode>) -> Seq<SpecNode>
    decreases s.len(),
{
    if s.len() == 0 {
        Seq::empty()
    } else {
        let p = spec_dedup_nodes(s.drop_last());
        if has_addr(p, s.last().addr) {
            p
        } else {
            p.push(s.last())
        }
    }
}

/// Inserts `x` after every node no farther from `t`: the stable insertion
/// step of the distance sort.
pub open spec fn spec_insort(t: Seq<u8>, x: SpecNode, s: Seq<SpecNode>) -> Seq<SpecNode>
    decreases s.len(),
{
    if s.len() == 0 {
        seq![x]
    } else if dist(t, s[0].id) <= dist(t, x.id) {
        seq![s[0]] + spec_insort(t, x, s.subrange(1, s.len() as int))
    } else {
        seq![x] + s
    }
}

/// Stable sort by XOR distance to `t`, ascending; ties keep discovery order.
pub open spec fn spec_sort(t: Seq<u8>, s: Seq<SpecNode>) -> Seq<SpecNode>
    decreases s.len(),
{
    if s.len() == 0 {
        Seq::empty()
    } else {
        spec_insort(t, s.last(), spec_sort(t, s.drop_last()))
    }
}

/// The first five entries, or all of them where fewer stand.
pub open spec fn spec_take5(s: Seq<SpecNode>) -> Seq<SpecNode> {
    if s.len() <= 5 {
        s
    } else {
        s.subrange(0, 5)
    }
}

/// The next frontier: unvisited nodes, one per address, sorted by distance
/// to the target, capped at five.
pub open spec fn spec_select(t: Seq<u8>, s: Seq<SpecNode>, visited: Seq<Addr>) -> Seq<SpecNode> {
    spec_take5(spec_sort(t, spec_dedup_nodes(spec_unvisited(s, visited))))
}

/// One entry per address: every repeated address is dropped, the first
/// arrival of each is kept, in arrival order.
pub open spec fn spec_dedup_addrs(s: Seq<Addr>) -> Seq<Addr>
    decreases s.len(),
{
    if s.len() == 0 {
        Seq::empty()
    } else {
        let p = spec_dedup_addrs(s.drop_last());
        if p.contains(s.last()) {
            p
        } else {
            p.push(s.last())
        }
    }
}

/// The mathematical state of a lookup between rounds.
pub struct SpecLookup {
    pub info_hash: Seq<u8>,
    pub visited: Seq<Addr>,
    pub frontier: Seq<Addr>,
}

/// What one round does to the state: peers end the lookup; an empty
/// frontier ends it empty-handed; otherwise the next frontier is selected,
/// marked visited, and the lookup goes on.
pub open spec fn spec_step(st: SpecLookup, peers: Seq<Addr>, nodes: Seq<SpecNode>) -> (
    SpecLookup,
    Option<Seq<Addr>>,
) {
    if peers.len() > 0 {
        (st, Some(spec_dedup_addrs(peers)))
    } else if st.frontier.len() == 0 {
        (st, Some(Seq::empty()))
    } else {
        let chosen = spec_select(st.info_hash, nodes, st.visited);
        let addrs = chosen.map_values(|n: SpecNode| n.addr);
        (
            SpecLookup {
                info_hash: st.info_hash,
                visited: st.visited + addrs,
                frontier: addrs,
            },
            None,
        )
    }
}

/// The state after a run of rounds; a round that ends the lookup freezes
/// the state.
pub open spec fn spec_run(st: SpecLookup, events: Seq<(Seq<Addr>, Seq<SpecNode>)>) -> SpecLookup
    decreases events.len(),
{
    if events.len() == 0 {
        st
    } else {
        let (st2, outcome) = spec_step(st, events[0].0, events[0].1);
        if outcome is Some {
            st2
        } else {
            spec_run(st2, events.subrange(1, events.len() as int))
        }
    }
}

/// True when the vector holds the address.
fn contains_addr(v: &Vec<Addr>, a: Addr) -> (r: bool)
    ensures
        r == v@.contains(a),
{
    let mut i: usize = 0;
    while i < v.len()
        invariant
            i <= v.len(),
            forall|j: int| 0 <= j < i ==> v@[j] != a,
        decreases v.len() - i,
    {
        if v[i].ip == a.ip && v[i].port == a.port {
            assert(v@[i as int] == a);
            return true;
        }
        i += 1;
    }
    false
}

pub open spec fn node_views(v: Seq<CompactNode>) -> Seq<SpecNode> {
    v.map_values(|c: CompactNode| c@)
}

/// True when some node in the vector has the address.
fn nodes_contain_addr(v: &Vec<CompactNode>, a: Addr) -> (r: bool)
    ensures
        r == has_addr(node_views(v@), a),
{
    let mut i: usize = 0;
    while i < v.len()
        invariant
            i <= v.len(),
            forall|j: int| 0 <= j < i ==> v@[j].addr != a,
        decreases v.len() - i,
    {
        if v[i].addr.ip == a.ip && v[i].addr.port == a.port {
            assert(node_views(v@)[i as int].addr == a);
            return true;
        }
        i += 1;
    }
    proof {
        assert(forall|j: int|
            0 <= j < node_views(v@).len() ==> (#[trigger] node_views(v@)[j]).addr != a);
    }
    false
}

/// Drops every repeated address, keeping the first arrival of each, in
/// arrival order.
pub fn dedup_addrs(v: &Vec<Addr>) -> (r: Vec<Addr>)
    ensures
        r@ == spec_dedup_addrs(v@),
{
    let mut out: Vec<Addr> = Vec::new();
    let mut i: usize = 0;
    while i < v.len()
        invariant
            i <= v.len(),
            out@ == spec_dedup_addrs(v@.subrange(0, i as int)),
        decreases v.len() - i,
    {
        let a = v[i];
        proof {
            let w = v@.subrange(0, i + 1);
            assert(w.drop_last() =~= v@.subrange(0, i as int));
            assert(w.last() == v@[i as int]);
        }
        if !contains_addr(&out, a) {
            out.push(a);
        }
        i += 1;
    }
    proof {
        assert(v@.subrange(0, v@.len() as int) =~= v@);
    }
    out
}

/// `spec_insort` lands `x` at the first index whose node is strictly
/// farther from the target.
proof fn lemma_insort_at(t: Seq<u8>, x: SpecNode, s: Seq<SpecNode>, j: int)
    requires
        0 <= j <= s.len(),
        forall|l: int| 0 <= l < j ==> dist(t, (#[trigger] s[l]).id) <= dist(t, x.id),
        j < s.len() ==> dist(t, s[j].id) > dist(t, x.id),
    ensures
        spec_insort(t, x, s) == s.insert(j, x),
    decreases s.len(),
{
    if s.len() == 0 {
        assert(spec_insort(t, x, s) =~= s.insert(0, x));
    } else if j == 0 {
        assert(spec_insort(t, x, s) =~= s.insert(0, x));
    } else {
        let tl = s.subrange(1, s.len() as int);
        assert(dist(t, s[0].id) <= dist(t, x.id));
        assert(forall|l: int| 0 <= l < j - 1 ==> dist(t, (#[trigger] tl[l]).id) <= dist(
            t,
            x.id,
        )) by {
            assert(forall|l: int| 0 <= l < j - 1 ==> tl[l] == s[l + 1]);
        }
        lemma_insort_at(t, x, tl, j - 1);
        assert(seq![s[0]] + tl.insert(j - 1, x) =~= s.insert(j, x));
    }
}

/// Selects the next frontier from the newly discovered nodes: drops the
/// visited and the repeated addresses, sorts the rest by XOR distance to
/// `info_hash` keeping discovery order on ties, and caps the result at five.
pub fn select_frontier(info_hash: &[u8; 20], found: &Vec<CompactNode>, visited: &Vec<Addr>) -> (r:
    Vec<CompactNode>)
    ensures
        node_views(r@) == spec_select(info_hash@, node_views(found@), visited@),
{
    let mut kept: Vec<CompactNode> = Vec::new();
    let mut i: usize = 0;
    while i < found.len()
        invariant
            i <= found.len(),
            node_views(kept@) == spec_unvisited(node_views(found@).subrange(0, i as int), visited@),
        decreases found.len() - i,
    {
        let n = found[i];
        proof {
            let w = node_views(found@).subrange(0, i + 1);
            assert(w.drop_last() =~= node_views(found@).subrange(0, i as int));
            assert(w.last() == found@[i as int]@);
        }
        if !contains_addr(visited, n.addr) {
            kept.push(n);
            proof {
                assert(node_views(kept@) =~= spec_unvisited(
                    node_views(found@).subrange(0, i + 1),
                    visited@,
                ));
            }
        } else {
            proof {
                assert(node_views(kept@) =~= spec_unvisited(
                    node_views(found@).subrange(0, i + 1),
                    visited@,
                ));
            }
        }
        i += 1;
    }
    proof {
        assert(node_views(found@).subrange(0, node_views(found@).len() as int) =~= node_views(
            found@,
        ));
    }
    let mut uniq: Vec<CompactNode> = Vec::new();
    let mut i: usize = 0;
    while i < kept.len()
        invariant
            i <= kept.len(),
            node_views(uniq@) == spec_dedup_nodes(node_views(kept@).subrange(0, i as int)),
        decreases kept.len() - i,
    {
        let n = kept[i];
        proof {
            let w = node_views(kept@).subrange(0, i + 1);
            assert(w.drop_last() =~= node_views(kept@).subrange(0, i as int));
            assert(w.last() == kept@[i as int]@);
        }
        if !nodes_contain_addr(&uniq, n.addr) {
            uniq.push(n);
            proof {
                assert(node_views(uniq@) =~= spec_dedup_nodes(
                    node_views(kept@).subrange(0, i + 1),
                ));
            }
        } else {
            proof {
                assert(node_views(uniq@) =~= spec_dedup_nodes(
                    node_views(kept@).subrange(0, i + 1),
                ));
            }
        }
        i += 1;
    }
    proof {
        assert(node_views(kept@).subrange(0, node_views(kept@).len() as int) =~= node_views(
            kept@,
        ));
    }
    let mut sorted: Vec<CompactNode> = Vec::new();
    let mut i: usize = 0;
    while i < uniq.len()
        invariant
            i <= uniq.len(),
            node_views(sorted@) == spec_sort(info_hash@, node_views(uniq@).subrange(0, i as int)),
        decreases uniq.len() - i,
    {
        let x = uniq[i];
        let mut j: usize = 0;
        let mut found_pos = false;
        while !found_pos && j < sorted.len()
            invariant
                j <= sorted.len(),
                x == uniq@[i as int],
                forall|l: int|
                    0 <= l < j ==> dist(info_hash@, (#[trigger] node_views(sorted@)[l]).id) <= dist(
                        info_hash@,
                        x@.id,
                    ),
                found_pos ==> j < sorted.len() && dist(
                    info_hash@,
                    node_views(sorted@)[j as int].id,
                ) > dist(info_hash@, x@.id),
            decreases sorted.len() - j, (if found_pos { 0int } else { 1int }),
        {
            let sj = sorted[j];
            if dist_le(info_hash, &sj.id, &x.id) {
                j += 1;
            } else {
                found_pos = true;
            }
        }
        proof {
            lemma_insort_at(info_hash@, x@, node_views(sorted@), j as int);
        }
        sorted.insert(j, x);
        proof {
            let w = node_views(uniq@).subrange(0, i + 1);
            assert(w.drop_last() =~= node_views(uniq@).subrange(0, i as int));
            assert(w.last() == uniq@[i as int]@);
            assert(node_views(sorted@) =~= spec_sort(info_hash@, w));
        }
        i += 1;
    }
    proof {
        assert(node_views(uniq@).subrange(0, node_views(uniq@).len() as int) =~= node_views(
            uniq@,
        ));
    }
    let mut chosen = sorted;
    if chosen.len() > 5 {
        chosen.truncate(5);
    }
    proof {
        assert(node_views(chosen@) =~= spec_select(info_hash@, node_views(found@), visited@));
    }
    chosen
}

/// No node that survives the visited filter has a visited address.
proof fn lemma_unvisited_pred(s: Seq<SpecNode>, visited: Seq<Addr>)
    ensures
        forall|k: int|
            0 <= k < spec_unvisited(s, visited).len() ==> !visited.contains(
                (#[trigger] spec_unvisited(s, visited)[k]).addr,
            ),
    decreases s.len(),
{
    if s.len() > 0 {
        lemma_unvisited_pred(s.drop_last(), visited);
        let p = spec_unvisited(s.drop_last(), visited);
        let w = spec_unvisited(s, visited);
        assert forall|k: int| 0 <= k < w.len() implies !visited.contains(
            (#[trigger] w[k]).addr,
        ) by {
            if visited.contains(s.last().addr) || k < p.len() {
                assert(w[k] == p[k]);
            } else {
                assert(w[k] == s.last());
            }
        }
    }
}

proof fn lemma_dedup_keeps(s: Seq<SpecNode>, p: spec_fn(SpecNode) -> bool)
    requires
        forall|k: int| 0 <= k < s.len() ==> p(#[trigger] s[k]),
    ensures
        forall|k: int|
            0 <= k < spec_dedup_nodes(s).len() ==> p(#[trigger] spec_dedup_nodes(s)[k]),
    decreases s.len(),
{
    if s.len() > 0 {
        assert(forall|k: int| 0 <= k < s.len() - 1 ==> p(#[trigger] s.drop_last()[k]));
        lemma_dedup_keeps(s.drop_last(), p);
        let q = spec_dedup_nodes(s.drop_last());
        let w = spec_dedup_nodes(s);
        assert forall|k: int| 0 <= k < w.len() implies p(#[trigger] w[k]) by {
            if has_addr(q, s.last().addr) || k < q.len() {
                assert(w[k] == q[k]);
            } else {
                assert(w[k] == s.last());
            }
        }
    }
}

proof fn lemma_insort_keeps(t: Seq<u8>, x: SpecNode, s: Seq<SpecNode>, p: spec_fn(
    SpecNode,
) -> bool)
    requires
        p(x),
        forall|k: int| 0 <= k < s.len() ==> p(#[trigger] s[k]),
    ensures
        forall|k: int|
            0 <= k < spec_insort(t, x, s).len() ==> p(#[trigger] spec_insort(t, x, s)[k]),
    decreases s.len(),
{
    let w = spec_insort(t, x, s);
    if s.len() == 0 {
        assert(w[0] == x);
    } else if dist(t, s[0].id) <= dist(t, x.id) {
        let tl = s.subrange(1, s.len() as int);
        assert(forall|k: int| 0 <= k < tl.len() ==> p(#[trigger] tl[k]));
        lemma_insort_keeps(t, x, tl, p);
        assert forall|k: int| 0 <= k < w.len() implies p(#[trigger] w[k]) by {
            if k == 0 {
                assert(w[k] == s[0]);
            } else {
                assert(w[k] == spec_insort(t, x, tl)[k - 1]);
            }
        }
    } else {
        assert forall|k: int| 0 <= k < w.len() implies p(#[trigger] w[k]) by {
            if k == 0 {
                assert(w[k] == x);
            } else {
                assert(w[k] == s[k - 1]);
            }
        }
    }
}

proof fn lemma_sort_keeps(t: Seq<u8>, s: Seq<SpecNode>, p: spec_fn(SpecNode) -> bool)
    requires
        forall|k: int| 0 <= k < s.len() ==> p(#[trigger] s[k]),
    ensures
        forall|k: int|
            0 <= k < spec_sort(t, s).len() ==> p(#[trigger] spec_sort(t, s)[k]),
    decreases s.len(),
{
    if s.len() > 0 {
        assert(forall|k: int| 0 <= k < s.len() - 1 ==> p(#[trigger] s.drop_last()[k]));
        lemma_sort_keeps(t, s.drop_last(), p);
        lemma_insort_keeps(t, s.last(), spec_sort(t, s.drop_last()), p);
    }
}

/// The selected frontier is at most five nodes and none of them was
/// visited.
proof fn lemma_select_props(t: Seq<u8>, s: Seq<SpecNode>, visited: Seq<Addr>)
    ensures
        spec_select(t, s, visited).len() <= 5,
        forall|k: int|
            0 <= k < spec_select(t, s, visited).len() ==> !visited.contains(
                (#[trigger] spec_select(t, s, visited)[k]).addr,
            ),
{
    let p = |n: SpecNode| !visited.contains(n.addr);
    lemma_unvisited_pred(s, visited);
    assert(forall|k: int|
        0 <= k < spec_unvisited(s, visited).len() ==> p(#[trigger] spec_unvisited(s, visited)[k]));
    lemma_dedup_keeps(spec_unvisited(s, visited), p);
    lemma_sort_keeps(t, spec_dedup_nodes(spec_unvisited(s, visited)), p);
}

/// One round preserves the visited set, visits exactly the nodes it
/// dispatches next, and never selects a visited address; a terminal round
/// leaves the state as it stands.
pub proof fn lemma_step_props(st: SpecLookup, peers: Seq<Addr>, nodes: Seq<SpecNode>)
    ensures
        ({
            let (st2, outcome) = spec_step(st, peers, nodes);
            &&& (outcome is Some ==> st2 == st)
            &&& st2.info_hash == st.info_hash
            &&& (forall|a: Addr| st.visited.contains(a) ==> st2.visited.contains(a))
            &&& (outcome is None ==> st2.frontier.len() <= 5)
            &&& (outcome is None ==> forall|a: Addr|
                st2.frontier.contains(a) ==> !st.visited.contains(a) && st2.visited.contains(a))
        }),
{
    let (st2, outcome) = spec_step(st, peers, nodes);
    if peers.len() == 0 && st.frontier.len() > 0 {
        let chosen = spec_select(st.info_hash, nodes, st.visited);
        let addrs = chosen.map_values(|n: SpecNode| n.addr);
        lemma_select_props(st.info_hash, nodes, st.visited);
        assert(forall|a: Addr| st.visited.contains(a) ==> #[trigger] st2.visited.contains(a)) by {
            assert(forall|i: int|
                0 <= i < st.visited.len() ==> st2.visited[i] == #[trigger] st.visited[i]);
        }
        assert forall|a: Addr| st2.frontier.contains(a) implies !st.visited.contains(a)
            && st2.visited.contains(a) by {
            let k = choose|k: int| 0 <= k < addrs.len() && addrs[k] == a;
            assert(chosen[k].addr == a);
            assert(st2.visited[st.visited.len() + k] == a);
        }
    }
}

/// Visited addresses stay visited over any run of rounds.
pub proof fn lemma_run_visited_monotone(
    st: SpecLookup,
    events: Seq<(Seq<Addr>, Seq<SpecNode>)>,
    a: Addr,
)
    requires
        st.visited.contains(a),
    ensures
        spec_run(st, events).visited.contains(a),
    decreases events.len(),
{
    if events.len() > 0 {
        let (st2, outcome) = spec_step(st, events[0].0, events[0].1);
        lemma_step_props(st, events[0].0, events[0].1);
        if !(outcome is Some) {
            lemma_run_visited_monotone(st2, events.subrange(1, events.len() as int), a);
        }
    }
}

/// An address once visited is never dispatched again: in every state a run
/// of rounds can reach, it stays visited and out of the frontier.
pub proof fn lemma_run_never_redispatched(
    st: SpecLookup,
    events: Seq<(Seq<Addr>, Seq<SpecNode>)>,
    a: Addr,
)
    requires
        st.visited.contains(a),
        !st.frontier.contains(a),
    ensures
        spec_run(st, events).visited.contains(a),
        !spec_run(st, events).frontier.contains(a),
    decreases events.len(),
{
    if events.len() > 0 {
        let (st2, outcome) = spec_step(st, events[0].0, events[0].1);
        lemma_step_props(st, events[0].0, events[0].1);
        if !(outcome is Some) {
            lemma_run_never_redispatched(st2, events.subrange(1, events.len() as int), a);
        }
    }
}

/// From the second round on the dispatched set never exceeds five: after
/// any non-empty run, the frontier either still is the initial one (the
/// lookup ended in round one) or holds at most five addresses.
pub proof fn lemma_run_frontier_bound(st: SpecLookup, events: Seq<(Seq<Addr>, Seq<SpecNode>)>)
    requires
        events.len() > 0,
    ensures
        spec_run(st, events).frontier.len() <= 5 || spec_run(st, events).frontier
            == st.frontier,
    decreases events.len(),
{
    let (st2, outcome) = spec_step(st, events[0].0, events[0].1);
    lemma_step_props(st, events[0].0, events[0].1);
    if outcome is Some {
        assert(spec_run(st, events) == st2);
        assert(st2 == st);
    } else {
        let rest = events.subrange(1, events.len() as int);
        assert(spec_run(st, events) == spec_run(st2, rest));
        if rest.len() > 0 {
            lemma_run_frontier_bound(st2, rest);
            assert(spec_run(st2, rest).frontier.len() <= 5 || spec_run(st2, rest).frontier
                == st2.frontier);
        } else {
            assert(spec_run(st2, rest) == st2);
        }
    }
}

/// Exhaustion: a round that yields nothing empties the frontier, and the
/// round after it ends the lookup with an empty peer list.
pub proof fn lemma_exhaustion(st: SpecLookup)
    ensures
        ({
            let (st2, outcome) = spec_step(st, Seq::empty(), Seq::empty());
            outcome is None ==> st2.frontier.len() == 0 && spec_step(
                st2,
                Seq::empty(),
                Seq::empty(),
            ).1 == Some(Seq::<Addr>::empty())
        }),
{
    let (st2, outcome) = spec_step(st, Seq::empty(), Seq::empty());
    if outcome is None {
        assert(spec_unvisited(Seq::empty(), st.visited) =~= Seq::<SpecNode>::empty());
        assert(spec_dedup_nodes(Seq::<SpecNode>::empty()) =~= Seq::<SpecNode>::empty());
        assert(spec_sort(st.info_hash, Seq::<SpecNode>::empty()) =~= Seq::<SpecNode>::empty());
        assert(st2.frontier.len() == 0);
    }
}

/// A lookup's state between rounds: the target, the addresses already
/// queried, and the frontier to dispatch to next.
#[derive(Debug)]
pub struct Lookup {
    pub info_hash: [u8; 20],
    pub visited: Vec<Addr>,
    pub frontier: Vec<Addr>,
}

impl View for Lookup {
    type V = SpecLookup;

    open spec fn view(&self) -> SpecLookup {
        SpecLookup { info_hash: self.info_hash@, visited: self.visited@, frontier: self.frontier@ }
    }
}

impl Lookup {
    /// Starts a lookup at the bootstrap endpoints with nothing visited.
    pub fn new(info_hash: [u8; 20], bootstrap: Vec<Addr>) -> (r: Lookup)
        ensures
            r@.info_hash == info_hash@,
            r@.visited == Seq::<Addr>::empty(),
            r@.frontier == bootstrap@,
    {
        Lookup { info_hash, visited: Vec::new(), frontier: bootstrap }
    }

    /// Closes one round. Peers collected this round end the lookup with one
    /// entry per peer address, the first arrival of each kept, in arrival
    /// order; an empty dispatch set ends it empty-handed;
    /// otherwise the closest five unvisited discoveries become the next
    /// frontier and are marked visited.
    pub fn advance_round(&mut self, peers_found: &Vec<Addr>, nodes_found: &Vec<CompactNode>) -> (r:
        Option<Vec<Addr>>)
        ensures
            ({
                let (st2, outcome) = spec_step(
                    old(self)@,
                    peers_found@,
                    node_views(nodes_found@),
                );
                &&& final(self)@ == st2
                &&& (match r {
                    Some(p) => outcome == Some(p@),
                    None => outcome is None,
                })
            }),
            final(self).info_hash == old(self).info_hash,
            forall|a: Addr|
                old(self).visited@.contains(a) ==> final(self).visited@.contains(a),
            r is None ==> final(self).frontier@.len() <= 5,
            r is None ==> forall|a: Addr|
                final(self).frontier@.contains(a) ==> !old(self).visited@.contains(a)
                    && final(self).visited@.contains(a),
    {
        proof {
            lemma_step_props(self@, peers_found@, node_views(nodes_found@));
        }
        if peers_found.len() > 0 {
            let peers = dedup_addrs(peers_found);
            return Some(peers);
        }
        if self.frontier.len() == 0 {
            let empty: Vec<Addr> = Vec::new();
            return Some(empty);
        }
        let chosen = select_frontier(&self.info_hash, nodes_found, &self.visited);
        let ghost chosen_views = node_views(chosen@);
        let ghost addrs_spec = chosen_views.map_values(|n: SpecNode| n.addr);
        let mut addrs: Vec<Addr> = Vec::new();
        let mut k: usize = 0;
        while k < chosen.len()
            invariant
                k <= chosen.len(),
                chosen_views == node_views(chosen@),
                addrs_spec == chosen_views.map_values(|n: SpecNode| n.addr),
                addrs@ == addrs_spec.subrange(0, k as int),
            decreases chosen.len() - k,
        {
            let n = chosen[k];
            addrs.push(n.addr);
            proof {
                assert(addrs@ =~= addrs_spec.subrange(0, k + 1));
            }
            k += 1;
        }
        proof {
            assert(addrs_spec.subrange(0, addrs_spec.len() as int) =~= addrs_spec);
        }
        let mut k: usize = 0;
        while k < addrs.len()
            invariant
                k <= addrs.len(),
                addrs@ == addrs_spec,
                self.info_hash == old(self).info_hash,
                self.frontier == old(self).frontier,
                self.visited@ == old(self).visited@ + addrs_spec.subrange(0, k as int),
            decreases addrs.len() - k,
        {
            let a = addrs[k];
            self.visited.push(a);
            proof {
                assert(self.visited@ =~= old(self).visited@ + addrs_spec.subrange(0, k + 1));
            }
            k += 1;
        }
        proof {
            assert(old(self).visited@ + addrs_spec.subrange(0, addrs_spec.len() as int)
                =~= old(self).visited@ + addrs_spec);
        }
        self.frontier = addrs;
        None
    }
}

/// std::io::Error carried through to the caller. The type is opaque here:
/// only the socket layer creates and reads it.
#[verifier::external_type_specification]
#[verifier::external_body]
pub struct ExIoError(std::io::Error);

/// Failure of a whole lookup: only transport trouble aborts one. Parse and
/// format troubles never do; they cost single replies.
#[derive(Debug)]
pub enum GetPeersError {
    Io(std::io::Error),
}

/// Ascending by XOR distance to `t`.
pub open spec fn spec_sorted_by_dist(t: Seq<u8>, s: Seq<SpecNode>) -> bool {
    forall|i: int, j: int|
        0 <= i < j < s.len() ==> dist(t, (#[trigger] s[i]).id) <= dist(t, (#[trigger] s[j]).id)
}

proof fn lemma_insort_pos(t: Seq<u8>, x: SpecNode, s: Seq<SpecNode>) -> (j: int)
    ensures
        0 <= j <= s.len(),
        forall|l: int| 0 <= l < j ==> dist(t, (#[trigger] s[l]).id) <= dist(t, x.id),
        j < s.len() ==> dist(t, s[j].id) > dist(t, x.id),
        spec_insort(t, x, s) == s.insert(j, x),
    decreases s.len(),
{
    if s.len() == 0 {
        assert(spec_insort(t, x, s) =~= s.insert(0, x));
        0
    } else if dist(t, s[0].id) <= dist(t, x.id) {
        let tl = s.subrange(1, s.len() as int);
        let j2 = lemma_insort_pos(t, x, tl);
        assert forall|l: int| 0 <= l < j2 + 1 implies dist(t, (#[trigger] s[l]).id) <= dist(
            t,
            x.id,
        ) by {
            if l > 0 {
                assert(s[l] == tl[l - 1]);
            }
        }
        assert(seq![s[0]] + tl.insert(j2, x) =~= s.insert(j2 + 1, x));
        j2 + 1
    } else {
        assert(spec_insort(t, x, s) =~= s.insert(0, x));
        0
    }
}

proof fn lemma_insort_sorted(t: Seq<u8>, x: SpecNode, s: Seq<SpecNode>)
    requires
        spec_sorted_by_dist(t, s),
    ensures
        spec_sorted_by_dist(t, spec_insort(t, x, s)),
{
    let j = lemma_insort_pos(t, x, s);
    let w = spec_insort(t, x, s);
    assert forall|i1: int, i2: int| 0 <= i1 < i2 < w.len() implies dist(
        t,
        (#[trigger] w[i1]).id,
    ) <= dist(t, (#[trigger] w[i2]).id) by {
        if i1 < j {
            assert(w[i1] == s[i1]);
        } else if i1 == j {
            assert(w[i1] == x);
        } else {
            assert(w[i1] == s[i1 - 1]);
        }
        if i2 < j {
            assert(w[i2] == s[i2]);
        } else if i2 == j {
            assert(w[i2] == x);
        } else {
            assert(w[i2] == s[i2 - 1]);
        }
        if i1 == j && i2 > j {
            assert(dist(t, s[j].id) > dist(t, x.id));
            if i2 - 1 > j {
                assert(dist(t, s[j].id) <= dist(t, s[i2 - 1].id));
            }
        }
    }
}

/// The frontier sort is ascending: no node stands before a closer one.
pub proof fn lemma_sort_sorted(t: Seq<u8>, s: Seq<SpecNode>)
    ensures
        spec_sorted_by_dist(t, spec_sort(t, s)),
        spec_sort(t, s).len() == s.len(),
    decreases s.len(),
{
    if s.len() > 0 {
        lemma_sort_sorted(t, s.drop_last());
        lemma_insort_sorted(t, s.last(), spec_sort(t, s.drop_last()));
        let j = lemma_insort_pos(t, s.last(), spec_sort(t, s.drop_last()));
    }
}

/// The nodes at one given distance from the target.
pub open spec fn dist_is(t: Seq<u8>, d: nat) -> spec_fn(SpecNode) -> bool {
    |n: SpecNode| dist(t, n.id) == d
}

proof fn lemma_filter_none(s: Seq<SpecNode>, p: spec_fn(SpecNode) -> bool)
    requires
        forall|k: int| 0 <= k < s.len() ==> !p(#[trigger] s[k]),
    ensures
        s.filter(p) == Seq::<SpecNode>::empty(),
    decreases s.len(),
{
    reveal(Seq::filter);
    if s.len() > 0 {
        assert(forall|k: int| 0 <= k < s.len() - 1 ==> !p(#[trigger] s.drop_last()[k]));
        lemma_filter_none(s.drop_last(), p);
        assert(!p(s.last()));
    } else {
        assert(s.filter(p) =~= Seq::<SpecNode>::empty());
    }
}

proof fn lemma_filter_single(a: SpecNode, p: spec_fn(SpecNode) -> bool)
    ensures
        seq![a].filter(p) == if p(a) {
            seq![a]
        } else {
            Seq::<SpecNode>::empty()
        },
{
    reveal(Seq::filter);
    assert(seq![a].drop_last() =~= Seq::<SpecNode>::empty());
    assert(seq![a].last() == a);
    assert(Seq::<SpecNode>::empty().filter(p) =~= Seq::<SpecNode>::empty());
    assert(Seq::<SpecNode>::empty().push(a) =~= seq![a]);
}

proof fn lemma_insort_filter(t: Seq<u8>, x: SpecNode, s: Seq<SpecNode>, d: nat)
    requires
        spec_sorted_by_dist(t, s),
    ensures
        spec_insort(t, x, s).filter(dist_is(t, d)) == if dist(t, x.id) == d {
            s.filter(dist_is(t, d)).push(x)
        } else {
            s.filter(dist_is(t, d))
        },
    decreases s.len(),
{
    reveal(Seq::filter);
    let p = dist_is(t, d);
    if s.len() == 0 {
        assert(spec_insort(t, x, s) =~= seq![x]);
        lemma_filter_single(x, p);
        assert(s.filter(p) =~= Seq::<SpecNode>::empty());
        if dist(t, x.id) == d {
            assert(Seq::<SpecNode>::empty().push(x) =~= seq![x]);
        }
    } else if dist(t, s[0].id) <= dist(t, x.id) {
        let tl = s.subrange(1, s.len() as int);
        assert(forall|i: int, j: int|
            0 <= i < j < tl.len() ==> dist(t, (#[trigger] tl[i]).id) <= dist(
                t,
                (#[trigger] tl[j]).id,
            )) by {
            assert(forall|i: int| 0 <= i < tl.len() ==> tl[i] == s[i + 1]);
        }
        lemma_insort_filter(t, x, tl, d);
        Seq::filter_distributes_over_add(seq![s[0]], spec_insort(t, x, tl), p);
        Seq::filter_distributes_over_add(seq![s[0]], tl, p);
        assert(s =~= seq![s[0]] + tl);
        lemma_filter_single(s[0], p);
        if dist(t, x.id) == d {
            assert(seq![s[0]].filter(p) + tl.filter(p).push(x) =~= (seq![s[0]].filter(p)
                + tl.filter(p)).push(x));
        }
    } else {
        Seq::filter_distributes_over_add(seq![x], s, p);
        assert(spec_insort(t, x, s) == seq![x] + s);
        lemma_filter_single(x, p);
        if dist(t, x.id) == d {
            assert(forall|k: int| 0 <= k < s.len() ==> !p(#[trigger] s[k])) by {
                assert(forall|k: int|
                    0 <= k < s.len() ==> dist(t, s[0].id) <= dist(t, (#[trigger] s[k]).id) || k
                        == 0);
            }
            lemma_filter_none(s, p);
            assert(seq![x].filter(p) + s.filter(p) =~= s.filter(p).push(x));
        } else {
            assert(seq![x].filter(p) + s.filter(p) =~= s.filter(p));
        }
    }
}

/// Ties keep discovery order: at every distance, the sort leaves the nodes
/// of that distance in exactly the order they were found.
pub proof fn lemma_sort_stable(t: Seq<u8>, s: Seq<SpecNode>, d: nat)
    ensures
        spec_sort(t, s).filter(dist_is(t, d)) == s.filter(dist_is(t, d)),
    decreases s.len(),
{
    reveal(Seq::filter);
    let p = dist_is(t, d);
    if s.len() > 0 {
        lemma_sort_sorted(t, s.drop_last());
        lemma_insort_filter(t, s.last(), spec_sort(t, s.drop_last()), d);
        lemma_sort_stable(t, s.drop_last(), d);
    }
}

proof fn lemma_tm_cons(a: SpecNode, s: Seq<SpecNode>)
    ensures
        (seq![a] + s).to_multiset() == s.to_multiset().insert(a),
    decreases s.len(),
{
    broadcast use vstd::seq_lib::group_to_multiset_ensures;

    if s.len() == 0 {
        assert(seq![a] + s =~= Seq::<SpecNode>::empty().push(a));
        assert(s =~= Seq::<SpecNode>::empty());
    } else {
        lemma_tm_cons(a, s.drop_last());
        assert(seq![a] + s =~= (seq![a] + s.drop_last()).push(s.last()));
        assert(s =~= s.drop_last().push(s.last()));
        assert(s.drop_last().to_multiset().insert(a).insert(s.last()) =~= s.drop_last()
            .to_multiset().insert(s.last()).insert(a));
    }
}

proof fn lemma_insort_multiset(t: Seq<u8>, x: SpecNode, s: Seq<SpecNode>)
    ensures
        spec_insort(t, x, s).to_multiset() == s.to_multiset().insert(x),
    decreases s.len(),
{
    broadcast use vstd::seq_lib::group_to_multiset_ensures;

    if s.len() == 0 {
        lemma_tm_cons(x, s);
        assert(spec_insort(t, x, s) =~= seq![x] + s);
    } else if dist(t, s[0].id) <= dist(t, x.id) {
        let tl = s.subrange(1, s.len() as int);
        lemma_insort_multiset(t, x, tl);
        lemma_tm_cons(s[0], spec_insort(t, x, tl));
        lemma_tm_cons(s[0], tl);
        assert(s =~= seq![s[0]] + tl);
        assert(tl.to_multiset().insert(x).insert(s[0]) =~= tl.to_multiset().insert(
            s[0],
        ).insert(x));
    } else {
        lemma_tm_cons(x, s);
    }
}

/// The sort only reorders: the sorted frontier holds exactly the nodes
/// that went in.
pub proof fn lemma_sort_multiset(t: Seq<u8>, s: Seq<SpecNode>)
    ensures
        spec_sort(t, s).to_multiset() == s.to_multiset(),
    decreases s.len(),
{
    broadcast use vstd::seq_lib::group_to_multiset_ensures;

    if s.len() > 0 {
        lemma_sort_multiset(t, s.drop_last());
        lemma_insort_multiset(t, s.last(), spec_sort(t, s.drop_last()));
        assert(s =~= s.drop_last().push(s.last()));
    }
}

} // verus!
