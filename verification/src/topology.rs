//! The static relay mesh and shortest-hop reachability fan-out.
//!
//! The topology is an undirected graph of relay identifiers, loaded once at
//! startup and immutable afterwards. Its one operation is the breadth-first
//! fan-out from a root: for every node first discovered over an edge
//! `(prev, n)` it emits `(n, prev)` — the node whose record will be produced,
//! paired with the node one hop closer to the root on the discovery path.

use vstd::prelude::*;
use crate::errors::ConfigError;
use crate::relay::is_port_id;

verus! {

/// Whether some element of `s` names the identifier `id`.
pub open spec fn seq_has_id(s: Seq<String>, id: Seq<char>) -> bool {
    exists|i: int| 0 <= i < s.len() && s[i]@ == id
}

/// Whether the elements of `s` name pairwise distinct identifiers.
pub open spec fn distinct_ids(s: Seq<String>) -> bool {
    forall|i: int, j: int| 0 <= i < j < s.len() ==> s[i]@ != s[j]@
}

/// The identifiers named by `s`.
pub open spec fn id_views(s: Seq<String>) -> Seq<Seq<char>> {
    s.map_values(|x: String| x@)
}

/// Whether the undirected edge `e` joins `a` and `b`.
pub open spec fn connects(e: (String, String), a: Seq<char>, b: Seq<char>) -> bool {
    (e.0@ == a && e.1@ == b) || (e.0@ == b && e.1@ == a)
}

/// Whether some edge joins `a` and `b`.
pub open spec fn edge_between(edges: Seq<(String, String)>, a: Seq<char>, b: Seq<char>) -> bool {
    exists|i: int| 0 <= i < edges.len() && connects(#[trigger] edges[i], a, b)
}

/// Whether `n` can be reached from `root` along at most `k` edges.
pub open spec fn reach_k(
    edges: Seq<(String, String)>,
    root: Seq<char>,
    n: Seq<char>,
    k: nat,
) -> bool
    decreases k,
{
    if n == root {
        true
    } else if k == 0 {
        false
    } else {
        exists|m: Seq<char>|
            #[trigger] edge_between(edges, m, n) && reach_k(edges, root, m, (k - 1) as nat)
    }
}

/// Whether a path through `edges` joins `root` to `n`.
pub open spec fn reachable(edges: Seq<(String, String)>, root: Seq<char>, n: Seq<char>) -> bool {
    exists|k: nat| reach_k(edges, root, n, k)
}

/// One hop extends reachability.
pub proof fn lemma_reach_step(
    edges: Seq<(String, String)>,
    root: Seq<char>,
    m: Seq<char>,
    n: Seq<char>,
)
    requires
        reachable(edges, root, m),
        edge_between(edges, m, n),
    ensures
        reachable(edges, root, n),
{
    let k = choose|k: nat| reach_k(edges, root, m, k);
    let k2: nat = k + 1;
    assert(((k2 - 1) as nat) == k);
    assert(reach_k(edges, root, m, (k2 - 1) as nat));
    assert(reach_k(edges, root, n, k2));
}

/// A set of identifiers that contains the root and is closed under the edge
/// relation contains every reachable identifier.
proof fn lemma_reach_in_closed(
    edges: Seq<(String, String)>,
    root: Seq<char>,
    n: Seq<char>,
    k: nat,
    q: Seq<String>,
)
    requires
        seq_has_id(q, root),
        forall|j: int, e: int|
            0 <= j < q.len() && 0 <= e < edges.len() ==> {
                ((#[trigger] edges[e]).0@ == (#[trigger] q[j])@ ==> seq_has_id(q, edges[e].1@))
                    && (edges[e].1@ == q[j]@ ==> seq_has_id(q, edges[e].0@))
            },
        reach_k(edges, root, n, k),
    ensures
        seq_has_id(q, n),
    decreases k,
{
    if n != root {
        assert(k != 0);
        let m = choose|m: Seq<char>|
            #[trigger] edge_between(edges, m, n) && reach_k(edges, root, m, (k - 1) as nat);
        lemma_reach_in_closed(edges, root, m, (k - 1) as nat, q);
        let j = choose|j: int| 0 <= j < q.len() && q[j]@ == m;
        let e = choose|e: int| 0 <= e < edges.len() && connects(#[trigger] edges[e], m, n);
        assert(edges[e].0@ == q[j]@ || edges[e].1@ == q[j]@);
    }
}

/// No more distinct identifiers than elements to draw them from: a sequence
/// of pairwise distinct identifiers, each named somewhere in `b`, is no
/// longer than `b`.
proof fn lemma_distinct_ids_bound(a: Seq<String>, b: Seq<String>)
    requires
        distinct_ids(a),
        forall|i: int| 0 <= i < a.len() ==> seq_has_id(b, (#[trigger] a[i])@),
    ensures
        a.len() <= b.len(),
{
    broadcast use vstd::seq_lib::seq_to_set_is_finite;
    broadcast use vstd::set_lib::group_set_lib_default;

    let av = id_views(a);
    let bv = id_views(b);
    assert(av.no_duplicates()) by {
        assert(forall|i: int, j: int|
            0 <= i < j < av.len() ==> av[i] != av[j]) by {
            assert(forall|i: int| 0 <= i < a.len() ==> #[trigger] av[i] == a[i]@);
        }
    }
    av.unique_seq_to_set();
    bv.lemma_cardinality_of_set();
    assert(av.to_set().subset_of(bv.to_set())) by {
        assert forall|x: Seq<char>| av.to_set().contains(x) implies bv.to_set().contains(x) by {
            let i = choose|i: int| 0 <= i < av.len() && av[i] == x;
            assert(a[i]@ == x);
            let j = choose|j: int| 0 <= j < b.len() && b[j]@ == x;
            assert(bv[j] == x);
        }
    }
    vstd::set_lib::lemma_len_subset(av.to_set(), bv.to_set());
}

/// Whether `o` is a correct fan-out from `root`: every emitted pair joins a
/// newly discovered node to a previously discovered one over a real edge,
/// each node is emitted at most once and never the root, and exactly the
/// identifiers reachable from the root (other than the root itself) appear.
pub open spec fn fanout_ok(
    nodes: Seq<String>,
    edges: Seq<(String, String)>,
    root: Seq<char>,
    o: Seq<(String, String)>,
) -> bool {
    &&& (forall|i: int|
        0 <= i < o.len() ==> seq_has_id(nodes, (#[trigger] o[i]).0@) && seq_has_id(
            nodes,
            o[i].1@,
        ))
    &&& (forall|i: int| 0 <= i < o.len() ==> (#[trigger] o[i]).0@ != root)
    &&& (forall|i: int, j: int|
        0 <= i < j < o.len() ==> (#[trigger] o[i]).0@ != (#[trigger] o[j]).0@)
    &&& (forall|i: int|
        0 <= i < o.len() ==> ((#[trigger] o[i]).1@ == root || exists|j: int|
            0 <= j < i && (#[trigger] o[j]).0@ == o[i].1@))
    &&& (forall|i: int| 0 <= i < o.len() ==> edge_between(edges, (#[trigger] o[i]).0@, o[i].1@))
    &&& (forall|i: int| 0 <= i < o.len() ==> reachable(edges, root, (#[trigger] o[i]).0@))
    &&& (forall|id: Seq<char>|
        #[trigger] reachable(edges, root, id) && id != root ==> exists|i: int|
            0 <= i < o.len() && o[i].0@ == id)
}

/// The identifier pairs named by a sequence of string pairs.
pub open spec fn id_pairs(s: Seq<(String, String)>) -> Seq<(Seq<char>, Seq<char>)> {
    s.map_values(|p: (String, String)| (p.0@, p.1@))
}

/// Every identifier an edge list names.
pub open spec fn endpoint_set(ev: Seq<(Seq<char>, Seq<char>)>) -> Set<Seq<char>> {
    ev.map_values(|e: (Seq<char>, Seq<char>)| e.0).to_set().union(
        ev.map_values(|e: (Seq<char>, Seq<char>)| e.1).to_set(),
    )
}

proof fn lemma_endpoint_set_finite(ev: Seq<(Seq<char>, Seq<char>)>)
    ensures
        endpoint_set(ev).finite(),
{
    broadcast use vstd::seq_lib::seq_to_set_is_finite;

}

proof fn lemma_endpoint_member(ev: Seq<(Seq<char>, Seq<char>)>, i: int)
    requires
        0 <= i < ev.len(),
    ensures
        endpoint_set(ev).contains(ev[i].0),
        endpoint_set(ev).contains(ev[i].1),
{
    let a = ev.map_values(|e: (Seq<char>, Seq<char>)| e.0);
    let b = ev.map_values(|e: (Seq<char>, Seq<char>)| e.1);
    assert(a[i] == ev[i].0 && a.contains(ev[i].0));
    assert(b[i] == ev[i].1 && b.contains(ev[i].1));
}

/// One node's turn of the traversal: from edge index `i` on, append every
/// not-yet-discovered neighbour of `cur` to the queue, in edge-enumeration
/// order, emitting each with `cur` as its predecessor.
pub open spec fn bfs_scan(
    ev: Seq<(Seq<char>, Seq<char>)>,
    cur: Seq<char>,
    q: Seq<Seq<char>>,
    out: Seq<(Seq<char>, Seq<char>)>,
    i: int,
) -> (Seq<Seq<char>>, Seq<(Seq<char>, Seq<char>)>)
    decreases ev.len() - i,
{
    if i < 0 || i >= ev.len() {
        (q, out)
    } else if ev[i].0 == cur && !q.contains(ev[i].1) {
        bfs_scan(ev, cur, q.push(ev[i].1), out.push((ev[i].1, cur)), i + 1)
    } else if ev[i].1 == cur && !q.contains(ev[i].0) {
        bfs_scan(ev, cur, q.push(ev[i].0), out.push((ev[i].0, cur)), i + 1)
    } else {
        bfs_scan(ev, cur, q, out, i + 1)
    }
}

/// The endpoints not yet discovered, plus the queue itself: a scan moves
/// identifiers from the first summand to the second one for one, so the
/// total never grows — it is the traversal's budget.
pub open spec fn bfs_budget(ev: Seq<(Seq<char>, Seq<char>)>, q: Seq<Seq<char>>) -> int {
    endpoint_set(ev).difference(q.to_set()).len() + q.len() as int
}

proof fn lemma_budget_push(ev: Seq<(Seq<char>, Seq<char>)>, q: Seq<Seq<char>>, x: Seq<char>)
    requires
        endpoint_set(ev).contains(x),
        !q.contains(x),
    ensures
        bfs_budget(ev, q.push(x)) == bfs_budget(ev, q),
{
    broadcast use vstd::seq_lib::seq_to_set_is_finite;

    lemma_endpoint_set_finite(ev);
    assert(q.push(x).to_set() =~= q.to_set().insert(x)) by {
        assert forall|y: Seq<char>| q.push(x).contains(y) implies q.to_set().insert(x).contains(
            y,
        ) by {
            let j = choose|j: int| 0 <= j < q.push(x).len() && q.push(x)[j] == y;
            if j < q.len() {
                assert(q[j] == y);
            }
        }
        assert forall|y: Seq<char>| q.to_set().insert(x).contains(y) implies q.push(x).contains(
            y,
        ) by {
            if q.contains(y) {
                let j = choose|j: int| 0 <= j < q.len() && q[j] == y;
                assert(q.push(x)[j] == y);
            } else {
                assert(q.push(x)[q.len() as int] == x);
            }
        }
    }
    let d = endpoint_set(ev).difference(q.to_set());
    assert(endpoint_set(ev).difference(q.push(x).to_set()) =~= d.remove(x));
    assert(d.contains(x));
}

proof fn lemma_scan_budget(
    ev: Seq<(Seq<char>, Seq<char>)>,
    cur: Seq<char>,
    q: Seq<Seq<char>>,
    out: Seq<(Seq<char>, Seq<char>)>,
    i: int,
)
    ensures
        bfs_scan(ev, cur, q, out, i).0.len() >= q.len(),
        bfs_budget(ev, bfs_scan(ev, cur, q, out, i).0) == bfs_budget(ev, q),
    decreases ev.len() - i,
{
    if 0 <= i < ev.len() {
        lemma_endpoint_member(ev, i);
        if ev[i].0 == cur && !q.contains(ev[i].1) {
            lemma_budget_push(ev, q, ev[i].1);
            lemma_scan_budget(ev, cur, q.push(ev[i].1), out.push((ev[i].1, cur)), i + 1);
        } else if ev[i].1 == cur && !q.contains(ev[i].0) {
            lemma_budget_push(ev, q, ev[i].0);
            lemma_scan_budget(ev, cur, q.push(ev[i].0), out.push((ev[i].0, cur)), i + 1);
        } else {
            lemma_scan_budget(ev, cur, q, out, i + 1);
        }
    }
}

/// The whole traversal from queue position `qi` on: process each queued
/// identifier once, in discovery order.
pub open spec fn bfs_loop(
    ev: Seq<(Seq<char>, Seq<char>)>,
    q: Seq<Seq<char>>,
    out: Seq<(Seq<char>, Seq<char>)>,
    qi: int,
) -> Seq<(Seq<char>, Seq<char>)>
    decreases bfs_budget(ev, q) - qi,
        via bfs_loop_decreases
{
    if qi < 0 || qi >= q.len() {
        out
    } else {
        let s = bfs_scan(ev, q[qi], q, out, 0);
        bfs_loop(ev, s.0, s.1, qi + 1)
    }
}

#[via_fn]
proof fn bfs_loop_decreases(
    ev: Seq<(Seq<char>, Seq<char>)>,
    q: Seq<Seq<char>>,
    out: Seq<(Seq<char>, Seq<char>)>,
    qi: int,
) {
    if 0 <= qi < q.len() {
        lemma_endpoint_set_finite(ev);
        lemma_scan_budget(ev, q[qi], q, out, 0);
    }
}

/// The fan-out of a fixed topology is a function of its edge list and the
/// root alone: the traversal in edge-enumeration order, rooted there. This
/// is what makes re-announcing deterministic within one process, and it
/// names the emitted predecessors: each is the node from whose turn the
/// neighbour was first discovered — one hop closer to the root.
pub open spec fn fanout_spec(ev: Seq<(Seq<char>, Seq<char>)>, root: Seq<char>) -> Seq<
    (Seq<char>, Seq<char>),
> {
    bfs_loop(ev, seq![root], Seq::<(Seq<char>, Seq<char>)>::empty(), 0)
}

/// Naming an identifier is the same as its view standing in the view list.
proof fn lemma_has_id_views(s: Seq<String>, id: Seq<char>)
    ensures
        seq_has_id(s, id) == id_views(s).contains(id),
{
    if seq_has_id(s, id) {
        let i = choose|i: int| 0 <= i < s.len() && s[i]@ == id;
        assert(id_views(s)[i] == id);
    }
    if id_views(s).contains(id) {
        let i = choose|i: int| 0 <= i < id_views(s).len() && id_views(s)[i] == id;
        assert(s[i]@ == id);
    }
}

/// The immutable relay mesh.
#[derive(Clone)]
pub struct Topology {
    pub nodes: Vec<String>,
    pub edges: Vec<(String, String)>,
}

/// Invariants during the traversal: the discovery queue starts at the root,
/// is duplicate-free, draws from the node set, and each element beyond the
/// root was emitted with a predecessor discovered no later than itself.
spec fn bfs_inv(
    nodes: Seq<String>,
    edges: Seq<(String, String)>,
    root: Seq<char>,
    queue: Seq<String>,
    out: Seq<(String, String)>,
) -> bool {
    &&& queue.len() == out.len() + 1
    &&& queue[0]@ == root
    &&& (forall|i: int| 0 <= i < out.len() ==> queue[i + 1]@ == (#[trigger] out[i]).0@)
    &&& distinct_ids(queue)
    &&& (forall|i: int| 0 <= i < queue.len() ==> seq_has_id(nodes, (#[trigger] queue[i])@))
    &&& (forall|i: int|
        0 <= i < out.len() ==> edge_between(edges, (#[trigger] out[i]).0@, out[i].1@))
    &&& (forall|i: int|
        0 <= i < out.len() ==> exists|j: int|
            0 <= j <= i && queue[j]@ == (#[trigger] out[i]).1@)
    &&& (forall|i: int| 0 <= i < queue.len() ==> reachable(edges, root, (#[trigger] queue[i])@))
}

/// Closure of the first `upto` queue elements: every edge touching one of
/// them has its other endpoint somewhere in the queue.
spec fn processed_closed(edges: Seq<(String, String)>, queue: Seq<String>, upto: int) -> bool {
    forall|j: int, e: int|
        0 <= j < upto && 0 <= e < edges.len() ==> {
            ((#[trigger] edges[e]).0@ == (#[trigger] queue[j])@ ==> seq_has_id(
                queue,
                edges[e].1@,
            )) && (edges[e].1@ == queue[j]@ ==> seq_has_id(queue, edges[e].0@))
        }
}

/// Naming an identifier survives appending an element.
proof fn lemma_has_id_push(q: Seq<String>, x: String, id: Seq<char>)
    requires
        seq_has_id(q, id),
    ensures
        seq_has_id(q.push(x), id),
{
    let i = choose|i: int| 0 <= i < q.len() && q[i]@ == id;
    assert(q.push(x)[i] == q[i]);
}

/// Linear scan for an identifier.
fn vec_contains_id(v: &Vec<String>, id: &String) -> (r: bool)
    ensures
        r == seq_has_id(v@, id@),
{
    let mut i: usize = 0;
    while i < v.len()
        invariant
            0 <= i <= v@.len(),
            forall|j: int| 0 <= j < i ==> (#[trigger] v@[j])@ != id@,
        decreases v@.len() - i,
    {
        if v[i] == *id {
            return true;
        }
        i += 1;
    }
    false
}

impl Topology {
    /// The relay identifiers of the mesh.
    pub open spec fn nodes_seq(&self) -> Seq<String> {
        self.nodes@
    }

    /// The undirected edges of the mesh.
    pub open spec fn edges_seq(&self) -> Seq<(String, String)> {
        self.edges@
    }

    /// Well-formedness: every identifier is a port-sized decimal token and
    /// every edge endpoint is a member of the node set.
    pub open spec fn wf(&self) -> bool {
        &&& (forall|i: int| 0 <= i < self.nodes@.len() ==> is_port_id((#[trigger] self.nodes@[i])@))
        &&& (forall|i: int|
            0 <= i < self.edges@.len() ==> seq_has_id(self.nodes@, (#[trigger] self.edges@[i]).0@)
                && seq_has_id(self.nodes@, self.edges@[i].1@))
    }

    /// Builds the mesh, rejecting a description whose identifiers cannot
    /// serve as ports or whose edges name unknown nodes. Such a description
    /// is a startup configuration error; the process must not serve traffic.
    pub fn new(nodes: Vec<String>, edges: Vec<(String, String)>) -> (r: Result<
        Topology,
        ConfigError,
    >)
        ensures
            match r {
                Ok(t) => t.nodes_seq() == nodes@ && t.edges_seq() == edges@ && t.wf(),
                Err(e) => {
                    ||| (e == ConfigError::BadRelayId && exists|i: int|
                        0 <= i < nodes@.len() && !is_port_id((#[trigger] nodes@[i])@))
                    ||| (e == ConfigError::DanglingEdge && (forall|i: int|
                        0 <= i < nodes@.len() ==> is_port_id((#[trigger] nodes@[i])@))
                        && exists|i: int|
                        0 <= i < edges@.len() && !(seq_has_id(
                            nodes@,
                            (#[trigger] edges@[i]).0@,
                        ) && seq_has_id(nodes@, edges@[i].1@)))
                },
            },
    {
        let mut i: usize = 0;
        while i < nodes.len()
            invariant
                0 <= i <= nodes@.len(),
                forall|j: int| 0 <= j < i ==> is_port_id((#[trigger] nodes@[j])@),
            decreases nodes@.len() - i,
        {
            if crate::relay::parse_relay_port(nodes[i].as_str()).is_none() {
                return Err(ConfigError::BadRelayId);
            }
            i += 1;
        }
        let mut e: usize = 0;
        while e < edges.len()
            invariant
                0 <= e <= edges@.len(),
                forall|j: int| 0 <= j < nodes@.len() ==> is_port_id((#[trigger] nodes@[j])@),
                forall|j: int|
                    0 <= j < e ==> seq_has_id(nodes@, (#[trigger] edges@[j]).0@) && seq_has_id(
                        nodes@,
                        edges@[j].1@,
                    ),
            decreases edges@.len() - e,
        {
            if !vec_contains_id(&nodes, &edges[e].0) || !vec_contains_id(&nodes, &edges[e].1) {
                return Err(ConfigError::DanglingEdge);
            }
            e += 1;
        }
        Ok(Topology { nodes, edges })
    }

    /// Whether `id` is a member of the node set.
    pub fn contains_node(&self, id: &String) -> (r: bool)
        ensures
            r == seq_has_id(self.nodes_seq(), id@),
    {
        vec_contains_id(&self.nodes, id)
    }

    /// Breadth-first fan-out from `root`: emits `(n, prev)` for every node
    /// `n` reachable from the root, where `prev` is the node one hop closer
    /// to the root on the discovery path — its predecessor on the traversal
    /// tree. The root itself is excluded, each node appears at most once,
    /// and nodes with no path from the root are absent — a silent, expected
    /// outcome, not an error. The emitted pairs are exactly [`fanout_spec`]
    /// of the edge list and the root: for a fixed topology the fan-out is a
    /// function, the same on every call.
    pub fn spanning_fanout(&self, root: &String) -> (r: Result<Vec<(String, String)>, ConfigError>)
        requires
            self.wf(),
        ensures
            match r {
                Ok(out) => seq_has_id(self.nodes_seq(), root@) && fanout_ok(
                    self.nodes_seq(),
                    self.edges_seq(),
                    root@,
                    out@,
                ) && id_pairs(out@) == fanout_spec(id_pairs(self.edges_seq()), root@),
                Err(e) => e == ConfigError::UnknownNode && !seq_has_id(self.nodes_seq(), root@),
            },
    {
        if !vec_contains_id(&self.nodes, root) {
            return Err(ConfigError::UnknownNode);
        }
        let ghost ev = id_pairs(self.edges@);
        let ghost target = fanout_spec(ev, root@);
        let mut queue: Vec<String> = Vec::new();
        queue.push(root.clone());
        let mut out: Vec<(String, String)> = Vec::new();
        let mut qi: usize = 0;
        proof {
            assert(reach_k(self.edges@, root@, root@, 0));
            assert(id_views(queue@) =~= seq![root@]);
            assert(id_pairs(out@) =~= Seq::<(Seq<char>, Seq<char>)>::empty());
        }
        while qi < queue.len()
            invariant
                self.wf(),
                seq_has_id(self.nodes@, root@),
                ev == id_pairs(self.edges@),
                target == fanout_spec(ev, root@),
                bfs_inv(self.nodes@, self.edges@, root@, queue@, out@),
                qi <= queue@.len(),
                queue@.len() <= self.nodes@.len(),
                processed_closed(self.edges@, queue@, qi as int),
                bfs_loop(ev, id_views(queue@), id_pairs(out@), qi as int) == target,
            decreases self.nodes@.len() + 1 - qi,
        {
            let cur = queue[qi].clone();
            proof {
                assert(id_views(queue@)[qi as int] == cur@);
            }
            let mut e: usize = 0;
            while e < self.edges.len()
                invariant
                    self.wf(),
                    seq_has_id(self.nodes@, root@),
                    ev == id_pairs(self.edges@),
                    target == fanout_spec(ev, root@),
                    bfs_inv(self.nodes@, self.edges@, root@, queue@, out@),
                    qi < queue@.len(),
                    queue@.len() <= self.nodes@.len(),
                    cur == queue@[qi as int],
                    processed_closed(self.edges@, queue@, qi as int),
                    0 <= e <= self.edges@.len(),
                    scanned(self.edges@, queue@, cur@, e as int),
                    ({
                        let s = bfs_scan(ev, cur@, id_views(queue@), id_pairs(out@), e as int);
                        bfs_loop(ev, s.0, s.1, qi + 1) == target
                    }),
                decreases self.edges@.len() - e,
            {
                let ghost prev_queue = queue@;
                let ghost prev_out = out@;
                proof {
                    assert(ev[e as int] == (self.edges@[e as int].0@, self.edges@[e as int].1@));
                    lemma_has_id_views(prev_queue, self.edges@[e as int].0@);
                    lemma_has_id_views(prev_queue, self.edges@[e as int].1@);
                }
                let from_match = self.edges[e].0 == cur;
                let to_match = self.edges[e].1 == cur;
                if from_match && !vec_contains_id(&queue, &self.edges[e].1) {
                    let nxt = self.edges[e].1.clone();
                    let ghost nxt_v: String = nxt;
                    proof {
                        lemma_push_preserves(
                            self.nodes@,
                            self.edges@,
                            root@,
                            prev_queue,
                            prev_out,
                            qi as int,
                            e as int,
                            nxt_v,
                            cur,
                        );
                        assert(bfs_scan(ev, cur@, id_views(prev_queue), id_pairs(prev_out), e as int)
                            == bfs_scan(
                            ev,
                            cur@,
                            id_views(prev_queue).push(nxt_v@),
                            id_pairs(prev_out).push((nxt_v@, cur@)),
                            e as int + 1,
                        ));
                    }
                    out.push((nxt.clone(), cur.clone()));
                    queue.push(nxt);
                    proof {
                        assert(queue@ == prev_queue.push(nxt_v));
                        assert(out@ == prev_out.push((nxt_v, cur)));
                        lemma_distinct_ids_bound(queue@, self.nodes@);
                        assert(id_views(queue@) =~= id_views(prev_queue).push(nxt_v@));
                        assert(id_pairs(out@) =~= id_pairs(prev_out).push((nxt_v@, cur@)));
                    }
                } else if to_match && !vec_contains_id(&queue, &self.edges[e].0) {
                    let nxt = self.edges[e].0.clone();
                    let ghost nxt_v: String = nxt;
                    proof {
                        lemma_push_preserves(
                            self.nodes@,
                            self.edges@,
                            root@,
                            prev_queue,
                            prev_out,
                            qi as int,
                            e as int,
                            nxt_v,
                            cur,
                        );
                        assert(bfs_scan(ev, cur@, id_views(prev_queue), id_pairs(prev_out), e as int)
                            == bfs_scan(
                            ev,
                            cur@,
                            id_views(prev_queue).push(nxt_v@),
                            id_pairs(prev_out).push((nxt_v@, cur@)),
                            e as int + 1,
                        ));
                    }
                    out.push((nxt.clone(), cur.clone()));
                    queue.push(nxt);
                    proof {
                        assert(queue@ == prev_queue.push(nxt_v));
                        assert(out@ == prev_out.push((nxt_v, cur)));
                        lemma_distinct_ids_bound(queue@, self.nodes@);
                        assert(id_views(queue@) =~= id_views(prev_queue).push(nxt_v@));
                        assert(id_pairs(out@) =~= id_pairs(prev_out).push((nxt_v@, cur@)));
                    }
                } else {
                    proof {
                        assert(bfs_scan(ev, cur@, id_views(queue@), id_pairs(out@), e as int)
                            == bfs_scan(ev, cur@, id_views(queue@), id_pairs(out@), e as int + 1));
                    }
                }
                e += 1;
            }
            proof {
                assert forall|j: int, e2: int|
                    0 <= j < qi + 1 && 0 <= e2 < self.edges@.len() implies {
                        ((#[trigger] self.edges@[e2]).0@ == (#[trigger] queue@[j])@
                            ==> seq_has_id(queue@, self.edges@[e2].1@)) && (self.edges@[e2].1@
                            == queue@[j]@ ==> seq_has_id(queue@, self.edges@[e2].0@))
                    } by {
                    if j == qi {
                        assert(queue@[j]@ == cur@);
                    }
                }
                // the scan is exhausted, so its result is the state itself
                assert(bfs_scan(ev, cur@, id_views(queue@), id_pairs(out@), self.edges@.len() as int)
                    == (id_views(queue@), id_pairs(out@)));
            }
            qi += 1;
        }
        proof {
            lemma_fanout_from_bfs(self.nodes@, self.edges@, root@, queue@, out@);
            // nothing is left to process, so the traversal's value is the output
            assert(bfs_loop(ev, id_views(queue@), id_pairs(out@), qi as int) == id_pairs(out@));
        }
        Ok(out)
    }
}

/// Closure of the already-scanned edge prefix around the node under
/// processing: each scanned edge touching it has its other endpoint in the
/// queue.
spec fn scanned(
    edges: Seq<(String, String)>,
    queue: Seq<String>,
    cur_id: Seq<char>,
    e: int,
) -> bool {
    forall|e2: int|
        0 <= e2 < e ==> {
            ((#[trigger] edges[e2]).0@ == cur_id ==> seq_has_id(queue, edges[e2].1@)) && (
            edges[e2].1@ == cur_id ==> seq_has_id(queue, edges[e2].0@))
        }
}

/// Appending a newly discovered node, with its emitted pair, preserves the
/// traversal invariants and the closure facts gathered so far.
proof fn lemma_push_preserves(
    nodes: Seq<String>,
    edges: Seq<(String, String)>,
    root: Seq<char>,
    queue: Seq<String>,
    out: Seq<(String, String)>,
    qi: int,
    e: int,
    nxt: String,
    cur: String,
)
    requires
        bfs_inv(nodes, edges, root, queue, out),
        processed_closed(edges, queue, qi),
        scanned(edges, queue, cur@, e),
        0 <= qi < queue.len(),
        queue[qi]@ == cur@,
        0 <= e < edges.len(),
        connects(edges[e], nxt@, cur@),
        seq_has_id(nodes, nxt@),
        !seq_has_id(queue, nxt@),
    ensures
        bfs_inv(nodes, edges, root, queue.push(nxt), out.push((nxt, cur))),
        processed_closed(edges, queue.push(nxt), qi),
        scanned(edges, queue.push(nxt), cur@, e + 1),
        queue.push(nxt).len() == queue.len() + 1,
{
    let q2 = queue.push(nxt);
    let o2 = out.push((nxt, cur));
    assert(q2[0] == queue[0]);
    // the queue stays duplicate-free: the new identifier was absent
    assert forall|i: int, j: int| 0 <= i < j < q2.len() implies q2[i]@ != q2[j]@ by {
        if j == q2.len() - 1 {
            assert(q2[i] == queue[i]);
            if queue[i]@ == nxt@ {
                assert(seq_has_id(queue, nxt@));
            }
        } else {
            assert(q2[i] == queue[i] && q2[j] == queue[j]);
        }
    }
    // every queue element still draws from the node set and stays reachable
    assert forall|i: int| 0 <= i < q2.len() implies seq_has_id(nodes, (#[trigger] q2[i])@) by {
        if i < queue.len() {
            assert(q2[i] == queue[i]);
        }
    }
    assert(edge_between(edges, cur@, nxt@));
    lemma_reach_step(edges, root, cur@, nxt@);
    assert forall|i: int| 0 <= i < q2.len() implies reachable(edges, root, (#[trigger] q2[i])@) by {
        if i < queue.len() {
            assert(q2[i] == queue[i]);
        }
    }
    // the emitted pairs still line up with the queue
    assert forall|i: int| 0 <= i < o2.len() implies q2[i + 1]@ == (#[trigger] o2[i]).0@ by {
        if i < out.len() {
            assert(q2[i + 1] == queue[i + 1] && o2[i] == out[i]);
        }
    }
    assert forall|i: int|
        0 <= i < o2.len() implies edge_between(edges, (#[trigger] o2[i]).0@, o2[i].1@) by {
        if i < out.len() {
            assert(o2[i] == out[i]);
        } else {
            assert(connects(edges[e], o2[i].0@, o2[i].1@));
        }
    }
    assert forall|i: int|
        0 <= i < o2.len() implies exists|j: int|
            0 <= j <= i && q2[j]@ == (#[trigger] o2[i]).1@ by {
        if i < out.len() {
            assert(o2[i] == out[i]);
            let j = choose|j: int| 0 <= j <= i && queue[j]@ == out[i].1@;
            assert(q2[j] == queue[j]);
        } else {
            assert(q2[qi] == queue[qi]);
            assert(qi <= i && q2[qi]@ == o2[i].1@);
        }
    }
    // closure facts survive the append
    assert forall|j: int, e2: int|
        0 <= j < qi && 0 <= e2 < edges.len() implies {
            ((#[trigger] edges[e2]).0@ == (#[trigger] q2[j])@ ==> seq_has_id(q2, edges[e2].1@))
                && (edges[e2].1@ == q2[j]@ ==> seq_has_id(q2, edges[e2].0@))
        } by {
        assert(q2[j] == queue[j]);
        if edges[e2].0@ == queue[j]@ {
            lemma_has_id_push(queue, nxt, edges[e2].1@);
        }
        if edges[e2].1@ == queue[j]@ {
            lemma_has_id_push(queue, nxt, edges[e2].0@);
        }
    }
    assert forall|e2: int|
        0 <= e2 < e + 1 implies {
            ((#[trigger] edges[e2]).0@ == cur@ ==> seq_has_id(q2, edges[e2].1@)) && (
            edges[e2].1@ == cur@ ==> seq_has_id(q2, edges[e2].0@))
        } by {
        if e2 < e {
            if edges[e2].0@ == cur@ {
                lemma_has_id_push(queue, nxt, edges[e2].1@);
            }
            if edges[e2].1@ == cur@ {
                lemma_has_id_push(queue, nxt, edges[e2].0@);
            }
        } else {
            assert(q2[q2.len() - 1]@ == nxt@);
            assert(seq_has_id(q2, nxt@));
            assert(q2[qi] == queue[qi]);
            assert(seq_has_id(q2, cur@));
        }
    }
}

/// Derives the fan-out contract from the traversal invariants once the
/// queue has been fully processed.
proof fn lemma_fanout_from_bfs(
    nodes: Seq<String>,
    edges: Seq<(String, String)>,
    root: Seq<char>,
    queue: Seq<String>,
    out: Seq<(String, String)>,
)
    requires
        bfs_inv(nodes, edges, root, queue, out),
        processed_closed(edges, queue, queue.len() as int),
        seq_has_id(queue, root),
    ensures
        fanout_ok(nodes, edges, root, out),
{
    assert forall|i: int| 0 <= i < out.len() implies (#[trigger] out[i]).0@ != root by {
        assert(queue[i + 1]@ == out[i].0@);
        assert(queue[0]@ == root);
    }
    assert forall|i: int, j: int|
        0 <= i < j < out.len() implies (#[trigger] out[i]).0@ != (#[trigger] out[j]).0@ by {
        assert(queue[i + 1]@ == out[i].0@);
        assert(queue[j + 1]@ == out[j].0@);
    }
    assert forall|i: int|
        0 <= i < out.len() implies ((#[trigger] out[i]).1@ == root || exists|j: int|
            0 <= j < i && (#[trigger] out[j]).0@ == out[i].1@) by {
        let j = choose|j: int| 0 <= j <= i && queue[j]@ == out[i].1@;
        if j != 0 {
            assert(out[j - 1].0@ == out[i].1@);
        }
    }
    assert forall|i: int|
        0 <= i < out.len() implies seq_has_id(nodes, (#[trigger] out[i]).0@) && seq_has_id(
            nodes,
            out[i].1@,
        ) by {
        assert(queue[i + 1]@ == out[i].0@);
        let j = choose|j: int| 0 <= j <= i && queue[j]@ == out[i].1@;
        assert(seq_has_id(nodes, queue[j]@));
    }
    assert forall|id: Seq<char>|
        #[trigger] reachable(edges, root, id) && id != root implies exists|i: int|
            0 <= i < out.len() && out[i].0@ == id by {
        let k = choose|k: nat| reach_k(edges, root, id, k);
        lemma_reach_in_closed(edges, root, id, k, queue);
        let j = choose|j: int| 0 <= j < queue.len() && queue[j]@ == id;
        assert(queue[0]@ == root);
        assert(j != 0);
        assert(out[j - 1].0@ == id);
    }
    assert forall|i: int|
        0 <= i < out.len() implies reachable(edges, root, (#[trigger] out[i]).0@) by {
        assert(queue[i + 1]@ == out[i].0@);
    }
}

} // verus!
