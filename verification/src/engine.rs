//! The propagation engine: one announcement becomes the full set of
//! registry writes.
//!
//! An announce validates the publisher against the topology, fans out from
//! it, rewrites the supplied location once per hop, and drives the
//! conditional-write protocol for each reachable relay in discovery order.
//! The first conflict aborts the remaining sequence; records already
//! committed are not rolled back — a partial fan-out is an accepted,
//! liveness-repairable state, healed by re-announcing and by expiry.

use vstd::prelude::*;
use crate::errors::ApiError;
use crate::origin::{Origin, UrlModel, rewrite_for_hop, rewritten_for_hop};
use crate::registry::{lookup, live_lookup, EntryModel, Registry, RegistryEntry};
use crate::relay::{is_port_id, strip_relay_prefix, strip_relay_spec};
use crate::topology::{fanout_ok, fanout_spec, id_pairs, reachable, seq_has_id, Topology};
use crate::ORIGIN_TTL_SECS;

verus! {

/// Whether writing the pair `p` of a fan-out would conflict: the key
/// `(ns, p.0)` already holds a live record different from the rewrite of
/// `origin` at the hop `p.1`.
pub open spec fn plan_conflict(
    s0: Seq<RegistryEntry>,
    ns: Seq<char>,
    origin: UrlModel,
    now: u64,
    p: (String, String),
) -> bool {
    live_lookup(s0, ns, p.0@, now) matches Some(u) && u != rewritten_for_hop(origin, p.1@)
}

/// The write of the pair `p` has taken effect in `s1`: a key that already
/// showed a live record keeps its entry untouched (a no-op refresh extends
/// no expiry), an absent key now holds the rewritten record with a fresh
/// time-to-live.
pub open spec fn written_key(
    s0: Seq<RegistryEntry>,
    s1: Seq<RegistryEntry>,
    ns: Seq<char>,
    origin: UrlModel,
    now: u64,
    p: (String, String),
) -> bool {
    match live_lookup(s0, ns, p.0@, now) {
        Some(_) => lookup(s1, ns, p.0@) == lookup(s0, ns, p.0@),
        None => lookup(s1, ns, p.0@) == Some(
            EntryModel {
                origin: rewritten_for_hop(origin, p.1@),
                expires_at: (now + ORIGIN_TTL_SECS) as u64,
            },
        ),
    }
}

/// Whether one of the first `upto` pairs of the plan names the relay `r2`.
pub open spec fn plan_names(plan: Seq<(String, String)>, upto: int, r2: Seq<char>) -> bool {
    exists|i: int| 0 <= i < upto && (#[trigger] plan[i]).0@ == r2
}

/// Every key outside the first `upto` planned writes is exactly as before.
pub open spec fn untouched(
    s0: Seq<RegistryEntry>,
    s1: Seq<RegistryEntry>,
    ns: Seq<char>,
    plan: Seq<(String, String)>,
    upto: int,
) -> bool {
    forall|ns2: Seq<char>, r2: Seq<char>|
        (ns2 != ns || !plan_names(plan, upto, r2)) ==> #[trigger] lookup(s1, ns2, r2) == lookup(
            s0,
            ns2,
            r2,
        )
}

/// How an announce relates the registry after (`s1`) to the registry before
/// (`s0`), given the fan-out plan it followed. On success every planned key
/// was written or was already equal; on a conflict there is a first
/// conflicting pair, everything before it was written and stays committed,
/// and everything from it on — the conflicting key included — is untouched.
pub open spec fn announce_post(
    s0: Seq<RegistryEntry>,
    s1: Seq<RegistryEntry>,
    ns: Seq<char>,
    origin: UrlModel,
    now: u64,
    plan: Seq<(String, String)>,
    r: Result<(), ApiError>,
) -> bool {
    match r {
        Ok(()) => {
            &&& (forall|i: int|
                0 <= i < plan.len() ==> !plan_conflict(s0, ns, origin, now, #[trigger] plan[i]))
            &&& (forall|i: int|
                0 <= i < plan.len() ==> written_key(s0, s1, ns, origin, now, #[trigger] plan[i]))
            &&& untouched(s0, s1, ns, plan, plan.len() as int)
        },
        Err(e) => {
            &&& e == ApiError::Conflict
            &&& exists|ci: int|
                0 <= ci < plan.len() && plan_conflict(s0, ns, origin, now, #[trigger] plan[ci]) && (
                forall|i: int|
                    0 <= i < ci ==> !plan_conflict(s0, ns, origin, now, #[trigger] plan[i])) && (
                forall|i: int|
                    0 <= i < ci ==> written_key(s0, s1, ns, origin, now, #[trigger] plan[i]))
                    && untouched(s0, s1, ns, plan, ci)
        },
    }
}

/// Announces `origin` for `namespace` from the relay `publisher`: validates
/// the publisher's membership after stripping the host-naming prefix, fans
/// out from it, and writes one rewritten record per reachable relay through
/// the conditional-write protocol, aborting on the first conflict without
/// rolling back. Relays without a path from the publisher are never touched,
/// under any namespace. The plan followed is [`fanout_spec`] of the edge
/// list and the stripped publisher — a function of the topology, identical
/// on every call, so a repeated announce judges each key against the same
/// rewrite.
pub fn announce(
    reg: &mut Registry,
    topo: &Topology,
    publisher: &String,
    namespace: &String,
    origin: &Origin,
    now: u64,
) -> (r: Result<(), ApiError>)
    requires
        topo.wf(),
        now + ORIGIN_TTL_SECS <= u64::MAX,
    ensures
        (r == Err::<(), ApiError>(ApiError::UnauthorizedPublisher) <==> !seq_has_id(
            topo.nodes_seq(),
            strip_relay_spec(publisher@),
        )),
        r == Err::<(), ApiError>(ApiError::UnauthorizedPublisher) ==> final(reg).entries@ == old(
            reg,
        ).entries@,
        (r is Ok || r == Err::<(), ApiError>(ApiError::Conflict)) ==> exists|
            plan: Seq<(String, String)>,
        |
            #[trigger] fanout_ok(
                topo.nodes_seq(),
                topo.edges_seq(),
                strip_relay_spec(publisher@),
                plan,
            ) && id_pairs(plan) == fanout_spec(
                id_pairs(topo.edges_seq()),
                strip_relay_spec(publisher@),
            ) && announce_post(
                old(reg).entries@,
                final(reg).entries@,
                namespace@,
                origin@,
                now,
                plan,
                r,
            ),
        r is Err ==> (r == Err::<(), ApiError>(ApiError::UnauthorizedPublisher) || r == Err::<
            (),
            ApiError,
        >(ApiError::Conflict)),
        forall|ns2: Seq<char>, rid: Seq<char>|
            !reachable(topo.edges_seq(), strip_relay_spec(publisher@), rid) ==> #[trigger] lookup(
                final(reg).entries@,
                ns2,
                rid,
            ) == lookup(old(reg).entries@, ns2, rid),
{
    let bare = strip_relay_prefix(publisher.as_str());
    if !topo.contains_node(&bare) {
        return Err(ApiError::UnauthorizedPublisher);
    }
    let plan = match topo.spanning_fanout(&bare) {
        Ok(p) => p,
        Err(_) => {
            // statically dead: membership was just checked
            proof {
                assert(false);
            }
            return Err(ApiError::UnauthorizedPublisher);
        },
    };
    let ghost s0 = reg.entries@;
    let ghost root = strip_relay_spec(publisher@);
    let ghost nodes = topo.nodes_seq();
    let ghost edges = topo.edges_seq();
    let mut idx: usize = 0;
    while idx < plan.len()
        invariant
            topo.wf(),
            now + ORIGIN_TTL_SECS <= u64::MAX,
            nodes == topo.nodes_seq(),
            edges == topo.edges_seq(),
            s0 == old(reg).entries@,
            root == strip_relay_spec(publisher@),
            seq_has_id(nodes, root),
            fanout_ok(nodes, edges, root, plan@),
            id_pairs(plan@) == fanout_spec(id_pairs(edges), root),
            0 <= idx <= plan@.len(),
            forall|i: int|
                0 <= i < idx ==> !plan_conflict(s0, namespace@, origin@, now, #[trigger] plan@[i]),
            forall|i: int|
                0 <= i < idx ==> written_key(
                    s0,
                    reg.entries@,
                    namespace@,
                    origin@,
                    now,
                    #[trigger] plan@[i],
                ),
            untouched(s0, reg.entries@, namespace@, plan@, idx as int),
        decreases plan@.len() - idx,
    {
        proof {
            // the hop is a topology member, so its identifier parses as a port
            assert(seq_has_id(nodes, plan@[idx as int].1@));
            let ni = choose|j: int| 0 <= j < nodes.len() && nodes[j]@ == plan@[idx as int].1@;
            assert(is_port_id(nodes[ni]@));
            // this key was not written by an earlier step, so the registry
            // still shows its original record
            assert(!plan_names(plan@, idx as int, plan@[idx as int].0@));
            assert(lookup(reg.entries@, namespace@, plan@[idx as int].0@) == lookup(
                s0,
                namespace@,
                plan@[idx as int].0@,
            ));
        }
        let ghost before = reg.entries@;
        let rec = rewrite_for_hop(origin, plan[idx].1.as_str());
        let res = reg.put_if_consistent(namespace, &plan[idx].0, &rec, now, ORIGIN_TTL_SECS);
        match res {
            Ok(()) => {
                proof {
                    let p = plan@[idx as int];
                    assert(live_lookup(before, namespace@, p.0@, now) == live_lookup(
                        s0,
                        namespace@,
                        p.0@,
                        now,
                    ));
                    assert(!plan_conflict(s0, namespace@, origin@, now, p));
                    assert(written_key(s0, reg.entries@, namespace@, origin@, now, p));
                    // earlier writes and untouched keys carry over the put's frame
                    assert forall|i: int|
                        0 <= i < idx + 1 implies written_key(
                        s0,
                        reg.entries@,
                        namespace@,
                        origin@,
                        now,
                        #[trigger] plan@[i],
                    ) by {
                        if i < idx {
                            assert(plan@[i].0@ != p.0@);
                            assert(lookup(reg.entries@, namespace@, plan@[i].0@) == lookup(
                                before,
                                namespace@,
                                plan@[i].0@,
                            ));
                        }
                    }
                    assert forall|ns2: Seq<char>, r2: Seq<char>|
                        (ns2 != namespace@ || !plan_names(
                            plan@,
                            idx + 1,
                            r2,
                        )) implies #[trigger] lookup(reg.entries@, ns2, r2) == lookup(
                        s0,
                        ns2,
                        r2,
                    ) by {
                        if !(ns2 == namespace@ && r2 == p.0@) {
                            assert(lookup(reg.entries@, ns2, r2) == lookup(before, ns2, r2));
                            if ns2 == namespace@ {
                                assert(!plan_names(plan@, idx as int, r2));
                            }
                        } else {
                            assert(plan_names(plan@, idx + 1, r2));
                        }
                    }
                }
            },
            Err(_) => {
                proof {
                    let p = plan@[idx as int];
                    assert(live_lookup(before, namespace@, p.0@, now) == live_lookup(
                        s0,
                        namespace@,
                        p.0@,
                        now,
                    ));
                    assert(plan_conflict(s0, namespace@, origin@, now, p));
                    assert(reg.entries@ == before);
                    assert(announce_post(
                        s0,
                        reg.entries@,
                        namespace@,
                        origin@,
                        now,
                        plan@,
                        Err::<(), ApiError>(ApiError::Conflict),
                    ));
                    lemma_untouched_unreachable(s0, reg.entries@, namespace@, edges, root, plan@, idx as int);
                }
                return Err(ApiError::Conflict);
            },
        }
        idx += 1;
    }
    proof {
        assert(announce_post(
            s0,
            reg.entries@,
            namespace@,
            origin@,
            now,
            plan@,
            Ok::<(), ApiError>(()),
        ));
        lemma_untouched_unreachable(
            s0,
            reg.entries@,
            namespace@,
            edges,
            root,
            plan@,
            plan@.len() as int,
        );
    }
    Ok(())
}

/// The compute half of an announce, for a caller that drives an external
/// store itself: validates the publisher and returns, in discovery order,
/// each reachable relay paired with the rewritten record it must hold.
pub fn announce_plan(topo: &Topology, publisher: &String, origin: &Origin) -> (r: Result<
    Vec<(String, Origin)>,
    ApiError,
>)
    requires
        topo.wf(),
    ensures
        match r {
            Ok(ws) => seq_has_id(topo.nodes_seq(), strip_relay_spec(publisher@)) && exists|
                plan: Seq<(String, String)>,
            |
                #[trigger] fanout_ok(
                    topo.nodes_seq(),
                    topo.edges_seq(),
                    strip_relay_spec(publisher@),
                    plan,
                ) && id_pairs(plan) == fanout_spec(
                    id_pairs(topo.edges_seq()),
                    strip_relay_spec(publisher@),
                ) && ws@.len() == plan.len() && (forall|i: int|
                    0 <= i < plan.len() ==> (#[trigger] ws@[i]).0@ == plan[i].0@ && ws@[i].1@
                        == rewritten_for_hop(origin@, plan[i].1@)),
            Err(e) => e == ApiError::UnauthorizedPublisher && !seq_has_id(
                topo.nodes_seq(),
                strip_relay_spec(publisher@),
            ),
        },
{
    let bare = strip_relay_prefix(publisher.as_str());
    if !topo.contains_node(&bare) {
        return Err(ApiError::UnauthorizedPublisher);
    }
    let plan = match topo.spanning_fanout(&bare) {
        Ok(p) => p,
        Err(_) => {
            // statically dead: membership was just checked
            proof {
                assert(false);
            }
            return Err(ApiError::UnauthorizedPublisher);
        },
    };
    let ghost root = strip_relay_spec(publisher@);
    let ghost nodes = topo.nodes_seq();
    let mut ws: Vec<(String, Origin)> = Vec::new();
    let mut i: usize = 0;
    while i < plan.len()
        invariant
            topo.wf(),
            nodes == topo.nodes_seq(),
            root == strip_relay_spec(publisher@),
            fanout_ok(nodes, topo.edges_seq(), root, plan@),
            id_pairs(plan@) == fanout_spec(id_pairs(topo.edges_seq()), root),
            0 <= i <= plan@.len(),
            ws@.len() == i,
            forall|j: int|
                0 <= j < i ==> (#[trigger] ws@[j]).0@ == plan@[j].0@ && ws@[j].1@
                    == rewritten_for_hop(origin@, plan@[j].1@),
        decreases plan@.len() - i,
    {
        proof {
            assert(seq_has_id(nodes, plan@[i as int].1@));
            let ni = choose|j: int| 0 <= j < nodes.len() && nodes[j]@ == plan@[i as int].1@;
            assert(is_port_id(nodes[ni]@));
        }
        let rec = rewrite_for_hop(origin, plan[i].1.as_str());
        ws.push((plan[i].0.clone(), rec));
        i += 1;
    }
    Ok(ws)
}

/// Everything an announce states about its plan goes through identifiers
/// alone, so two plans naming the same identifier pairs support the same
/// postcondition. [`fanout_spec`] pins each call's plan, so the plans of two
/// announces over one topology and publisher are view-equal, and this
/// carries the second call's outcome onto the first call's plan.
pub proof fn lemma_announce_post_view_equal(
    s0: Seq<RegistryEntry>,
    s1: Seq<RegistryEntry>,
    ns: Seq<char>,
    origin: UrlModel,
    now: u64,
    plan1: Seq<(String, String)>,
    plan2: Seq<(String, String)>,
    r: Result<(), ApiError>,
)
    requires
        id_pairs(plan1) == id_pairs(plan2),
        announce_post(s0, s1, ns, origin, now, plan2, r),
    ensures
        announce_post(s0, s1, ns, origin, now, plan1, r),
{
    assert(plan1.len() == plan2.len()) by {
        assert(id_pairs(plan1).len() == plan1.len());
        assert(id_pairs(plan2).len() == plan2.len());
    }
    assert forall|i: int|
        0 <= i < plan1.len() implies (#[trigger] plan1[i]).0@ == plan2[i].0@ && plan1[i].1@
        == plan2[i].1@ by {
        assert(id_pairs(plan1)[i] == (plan1[i].0@, plan1[i].1@));
        assert(id_pairs(plan2)[i] == (plan2[i].0@, plan2[i].1@));
    }
    match r {
        Ok(()) => {
            assert forall|i: int|
                0 <= i < plan1.len() implies !plan_conflict(
                s0,
                ns,
                origin,
                now,
                #[trigger] plan1[i],
            ) && written_key(s0, s1, ns, origin, now, plan1[i]) by {
                assert(!plan_conflict(s0, ns, origin, now, plan2[i]));
                assert(written_key(s0, s1, ns, origin, now, plan2[i]));
            }
            assert forall|ns2: Seq<char>, r2: Seq<char>|
                (ns2 != ns || !plan_names(plan1, plan1.len() as int, r2)) implies #[trigger] lookup(
                s1,
                ns2,
                r2,
            ) == lookup(s0, ns2, r2) by {
                if !plan_names(plan2, plan2.len() as int, r2) {
                    assert(untouched(s0, s1, ns, plan2, plan2.len() as int));
                } else {
                    let i = choose|i: int|
                        0 <= i < plan2.len() && (#[trigger] plan2[i]).0@ == r2;
                    assert(plan1[i].0@ == r2);
                    assert(plan_names(plan1, plan1.len() as int, r2));
                }
            }
        },
        Err(_) => {
            let ci = choose|ci: int|
                0 <= ci < plan2.len() && plan_conflict(s0, ns, origin, now, #[trigger] plan2[ci])
                    && (forall|i: int|
                    0 <= i < ci ==> !plan_conflict(s0, ns, origin, now, #[trigger] plan2[i])) && (
                forall|i: int|
                    0 <= i < ci ==> written_key(s0, s1, ns, origin, now, #[trigger] plan2[i]))
                    && untouched(s0, s1, ns, plan2, ci);
            assert(plan_conflict(s0, ns, origin, now, plan1[ci]));
            assert forall|i: int|
                0 <= i < ci implies !plan_conflict(s0, ns, origin, now, #[trigger] plan1[i])
                && written_key(s0, s1, ns, origin, now, plan1[i]) by {
                assert(!plan_conflict(s0, ns, origin, now, plan2[i]));
                assert(written_key(s0, s1, ns, origin, now, plan2[i]));
            }
            assert forall|ns2: Seq<char>, r2: Seq<char>|
                (ns2 != ns || !plan_names(plan1, ci, r2)) implies #[trigger] lookup(s1, ns2, r2)
                == lookup(s0, ns2, r2) by {
                if !plan_names(plan2, ci, r2) {
                    assert(untouched(s0, s1, ns, plan2, ci));
                } else {
                    let i = choose|i: int| 0 <= i < ci && (#[trigger] plan2[i]).0@ == r2;
                    assert(plan1[i].0@ == r2);
                    assert(plan_names(plan1, ci, r2));
                }
            }
            assert(0 <= ci < plan1.len() && plan_conflict(s0, ns, origin, now, plan1[ci]) && (
            forall|i: int| 0 <= i < ci ==> !plan_conflict(s0, ns, origin, now, #[trigger] plan1[i]))
                && (forall|i: int|
                0 <= i < ci ==> written_key(s0, s1, ns, origin, now, #[trigger] plan1[i]))
                && untouched(s0, s1, ns, plan1, ci));
        },
    }
}

/// Announcing the same content twice in a row never conflicts: a second
/// announce over the same plan, namespace and origin, against the registry a
/// successful first one left behind, succeeds and changes no key — the
/// no-op refresh extends no expiry, so the registry is untouched. The plans
/// of two equal announces are view-equal by [`fanout_spec`], which
/// [`lemma_announce_post_view_equal`] turns into the same-plan hypothesis
/// here.
pub proof fn lemma_announce_idempotent(
    s0: Seq<RegistryEntry>,
    s1: Seq<RegistryEntry>,
    s2: Seq<RegistryEntry>,
    ns: Seq<char>,
    origin: UrlModel,
    now: u64,
    plan: Seq<(String, String)>,
    r2: Result<(), ApiError>,
)
    requires
        now + ORIGIN_TTL_SECS <= u64::MAX,
        forall|i: int, j: int|
            0 <= i < j < plan.len() ==> (#[trigger] plan[i]).0@ != (#[trigger] plan[j]).0@,
        announce_post(s0, s1, ns, origin, now, plan, Ok(())),
        announce_post(s1, s2, ns, origin, now, plan, r2),
    ensures
        r2 is Ok,
        forall|ns2: Seq<char>, rel: Seq<char>|
            #[trigger] lookup(s2, ns2, rel) == lookup(s1, ns2, rel),
{
    // after the first announce, every planned key shows exactly its rewrite
    assert forall|i: int|
        0 <= i < plan.len() implies live_lookup(s1, ns, (#[trigger] plan[i]).0@, now) == Some(
        rewritten_for_hop(origin, plan[i].1@),
    ) by {
        assert(!plan_conflict(s0, ns, origin, now, plan[i]));
        assert(written_key(s0, s1, ns, origin, now, plan[i]));
        match live_lookup(s0, ns, plan[i].0@, now) {
            Some(u) => {
                assert(u == rewritten_for_hop(origin, plan[i].1@));
            },
            None => {
                assert(lookup(s1, ns, plan[i].0@) == Some(
                    EntryModel {
                        origin: rewritten_for_hop(origin, plan[i].1@),
                        expires_at: (now + ORIGIN_TTL_SECS) as u64,
                    },
                ));
            },
        }
    }
    // so the second run can meet no conflict
    match r2 {
        Ok(()) => {},
        Err(_) => {
            let ci = choose|ci: int|
                0 <= ci < plan.len() && plan_conflict(s1, ns, origin, now, #[trigger] plan[ci]);
            assert(live_lookup(s1, ns, plan[ci].0@, now) == Some(
                rewritten_for_hop(origin, plan[ci].1@),
            ));
            assert(false);
        },
    }
    // and every key — planned or not — is exactly as the first run left it
    assert forall|ns2: Seq<char>, rel: Seq<char>|
        #[trigger] lookup(s2, ns2, rel) == lookup(s1, ns2, rel) by {
        if ns2 == ns && plan_names(plan, plan.len() as int, rel) {
            let i = choose|i: int| 0 <= i < plan.len() && (#[trigger] plan[i]).0@ == rel;
            assert(written_key(s1, s2, ns, origin, now, plan[i]));
            assert(live_lookup(s1, ns, plan[i].0@, now) is Some);
        } else {
            assert(untouched(s1, s2, ns, plan, plan.len() as int));
        }
    }
}

/// Fan-out correctness, in general form: after a successful announce, every
/// relay reachable from the publisher holds a live record, and that record
/// is the announced location rewritten at a reachable hop that a real edge
/// joins to the relay; the publisher's own keys are untouched under every
/// namespace. That unreachable relays receive nothing is part of the
/// announce contract itself.
pub proof fn lemma_announce_covers_reachable(
    s0: Seq<RegistryEntry>,
    s1: Seq<RegistryEntry>,
    ns: Seq<char>,
    origin: UrlModel,
    now: u64,
    nodes: Seq<String>,
    edges: Seq<(String, String)>,
    root: Seq<char>,
    plan: Seq<(String, String)>,
)
    requires
        now + ORIGIN_TTL_SECS <= u64::MAX,
        fanout_ok(nodes, edges, root, plan),
        announce_post(s0, s1, ns, origin, now, plan, Ok(())),
    ensures
        forall|id: Seq<char>|
            #[trigger] reachable(edges, root, id) && id != root ==> exists|hop: Seq<char>|
                crate::topology::edge_between(edges, id, hop) && reachable(edges, root, hop)
                    && live_lookup(s1, ns, id, now) == Some(rewritten_for_hop(origin, hop)),
        forall|ns2: Seq<char>| #[trigger] lookup(s1, ns2, root) == lookup(s0, ns2, root),
{
    assert forall|id: Seq<char>|
        #[trigger] reachable(edges, root, id) && id != root implies exists|hop: Seq<char>|
        crate::topology::edge_between(edges, id, hop) && reachable(edges, root, hop)
            && live_lookup(s1, ns, id, now) == Some(rewritten_for_hop(origin, hop)) by {
        let i = choose|i: int| 0 <= i < plan.len() && plan[i].0@ == id;
        let hop = plan[i].1@;
        assert(crate::topology::edge_between(edges, id, hop));
        // the hop was discovered no later than the relay, so it is reachable
        assert(reachable(edges, root, hop)) by {
            if plan[i].1@ == root {
                assert(crate::topology::reach_k(edges, root, root, 0));
            } else {
                let j = choose|j: int| 0 <= j < i && (#[trigger] plan[j]).0@ == plan[i].1@;
            }
        }
        // and the relay's key now shows exactly the rewrite at that hop
        assert(written_key(s0, s1, ns, origin, now, plan[i]));
        assert(!plan_conflict(s0, ns, origin, now, plan[i]));
        assert(live_lookup(s1, ns, id, now) == Some(rewritten_for_hop(origin, hop))) by {
            match live_lookup(s0, ns, id, now) {
                Some(u) => {
                    assert(u == rewritten_for_hop(origin, hop));
                },
                None => {},
            }
        }
    }
    assert forall|ns2: Seq<char>| #[trigger] lookup(s1, ns2, root) == lookup(s0, ns2, root) by {
        if plan_names(plan, plan.len() as int, root) {
            let i = choose|i: int| 0 <= i < plan.len() && (#[trigger] plan[i]).0@ == root;
        }
        assert(untouched(s0, s1, ns, plan, plan.len() as int));
    }
}

/// A conflicting announce overwrites nothing: when an announce fails with a
/// conflict, some planned key held a live record different from its rewrite,
/// and that key's stored entry is exactly as it was before the announce.
pub proof fn lemma_conflict_overwrites_nothing(
    s0: Seq<RegistryEntry>,
    s1: Seq<RegistryEntry>,
    ns: Seq<char>,
    origin: UrlModel,
    now: u64,
    plan: Seq<(String, String)>,
)
    requires
        forall|i: int, j: int|
            0 <= i < j < plan.len() ==> (#[trigger] plan[i]).0@ != (#[trigger] plan[j]).0@,
        announce_post(s0, s1, ns, origin, now, plan, Err::<(), ApiError>(ApiError::Conflict)),
    ensures
        exists|ci: int|
            0 <= ci < plan.len() && plan_conflict(s0, ns, origin, now, #[trigger] plan[ci])
                && lookup(s1, ns, plan[ci].0@) == lookup(s0, ns, plan[ci].0@),
{
    let ci = choose|ci: int|
        0 <= ci < plan.len() && plan_conflict(s0, ns, origin, now, #[trigger] plan[ci]) && (
        forall|i: int| 0 <= i < ci ==> !plan_conflict(s0, ns, origin, now, #[trigger] plan[i])) && (
        forall|i: int| 0 <= i < ci ==> written_key(s0, s1, ns, origin, now, #[trigger] plan[i]))
            && untouched(s0, s1, ns, plan, ci);
    assert(!plan_names(plan, ci, plan[ci].0@)) by {
        if plan_names(plan, ci, plan[ci].0@) {
            let i = choose|i: int| 0 <= i < ci && (#[trigger] plan[i]).0@ == plan[ci].0@;
        }
    }
    assert(lookup(s1, ns, plan[ci].0@) == lookup(s0, ns, plan[ci].0@));
}

/// Keys of relays with no path from the root lie outside every fan-out
/// plan, so a partial or complete announce leaves them exactly as they were.
proof fn lemma_untouched_unreachable(
    s0: Seq<RegistryEntry>,
    s1: Seq<RegistryEntry>,
    ns: Seq<char>,
    edges: Seq<(String, String)>,
    root: Seq<char>,
    plan: Seq<(String, String)>,
    upto: int,
)
    requires
        0 <= upto <= plan.len(),
        forall|i: int| 0 <= i < plan.len() ==> reachable(edges, root, (#[trigger] plan[i]).0@),
        untouched(s0, s1, ns, plan, upto),
    ensures
        forall|ns2: Seq<char>, rid: Seq<char>|
            !reachable(edges, root, rid) ==> #[trigger] lookup(s1, ns2, rid) == lookup(
                s0,
                ns2,
                rid,
            ),
{
    assert forall|ns2: Seq<char>, rid: Seq<char>|
        !reachable(edges, root, rid) implies #[trigger] lookup(s1, ns2, rid) == lookup(
        s0,
        ns2,
        rid,
    ) by {
        if plan_names(plan, upto, rid) {
            let i = choose|i: int| 0 <= i < upto && (#[trigger] plan[i]).0@ == rid;
            assert(reachable(edges, root, rid));
        }
    }
}

} // verus!
