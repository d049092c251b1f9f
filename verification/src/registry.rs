//! The registry store: a conditional key-value abstraction with expiring
//! entries and at-most-one-writer semantics.
//!
//! Each entry binds a (namespace, relay) key to an origin record and an
//! expiry instant. A write never overwrites different content: re-announcing
//! identical content is a no-op, different content is a conflict. An entry
//! whose expiry has passed is absent for every read — the owning relay is
//! presumed gone. Time enters every operation as an explicit instant.

use vstd::prelude::*;
use crate::errors::ApiError;
use crate::origin::{Origin, UrlModel};

verus! {

/// One stored record: the key pair, the record, and when it lapses.
pub struct RegistryEntry {
    pub relay: String,
    pub namespace: String,
    pub origin: Origin,
    pub expires_at: u64,
}

/// The mathematical value of a stored record, key aside.
pub ghost struct EntryModel {
    pub origin: UrlModel,
    pub expires_at: u64,
}

/// The model of the entry `e`.
pub open spec fn entry_model(e: RegistryEntry) -> EntryModel {
    EntryModel { origin: e.origin@, expires_at: e.expires_at }
}

/// Whether `e` is stored under the key `(ns, relay)`.
pub open spec fn entry_matches(e: RegistryEntry, ns: Seq<char>, relay: Seq<char>) -> bool {
    e.namespace@ == ns && e.relay@ == relay
}

/// The first entry stored under `(ns, relay)`, if any.
pub open spec fn lookup(s: Seq<RegistryEntry>, ns: Seq<char>, relay: Seq<char>) -> Option<
    EntryModel,
>
    decreases s.len(),
{
    if s.len() == 0 {
        None
    } else if entry_matches(s[0], ns, relay) {
        Some(entry_model(s[0]))
    } else {
        lookup(s.drop_first(), ns, relay)
    }
}

/// The record visible at `(ns, relay)` at instant `now`: a stored entry
/// counts only until its expiry.
pub open spec fn live_lookup(
    s: Seq<RegistryEntry>,
    ns: Seq<char>,
    relay: Seq<char>,
    now: u64,
) -> Option<UrlModel> {
    match lookup(s, ns, relay) {
        Some(e) => if e.expires_at > now {
            Some(e.origin)
        } else {
            None
        },
        None => None,
    }
}

/// Whether some entry for `ns`, under any relay, is still live at `now`.
pub open spec fn has_live_ns(s: Seq<RegistryEntry>, ns: Seq<char>, now: u64) -> bool {
    exists|i: int|
        0 <= i < s.len() && (#[trigger] s[i]).namespace@ == ns && s[i].expires_at > now
}

/// An entry not refreshed before its expiry is absent: the time-to-live is
/// the registry's liveness signal, no explicit delete is needed.
pub proof fn lemma_ttl_expiry(s: Seq<RegistryEntry>, ns: Seq<char>, relay: Seq<char>, now: u64)
    requires
        match lookup(s, ns, relay) {
            Some(e) => e.expires_at <= now,
            None => true,
        },
    ensures
        live_lookup(s, ns, relay, now) == None::<UrlModel>,
{
}

/// If the first key match of `(ns, relay)` stands at `i`, the lookup finds it.
proof fn lemma_lookup_first(s: Seq<RegistryEntry>, i: int, ns: Seq<char>, relay: Seq<char>)
    requires
        0 <= i < s.len(),
        entry_matches(s[i], ns, relay),
        forall|j: int| 0 <= j < i ==> !entry_matches(#[trigger] s[j], ns, relay),
    ensures
        lookup(s, ns, relay) == Some(entry_model(s[i])),
    decreases i,
{
    if i > 0 {
        let t = s.drop_first();
        assert(forall|j: int| 0 <= j < t.len() ==> t[j] == s[j + 1]);
        lemma_lookup_first(t, i - 1, ns, relay);
    }
}

/// If no entry carries the key, the lookup is empty.
proof fn lemma_lookup_none(s: Seq<RegistryEntry>, ns: Seq<char>, relay: Seq<char>)
    requires
        forall|j: int| 0 <= j < s.len() ==> !entry_matches(#[trigger] s[j], ns, relay),
    ensures
        lookup(s, ns, relay) == None::<EntryModel>,
    decreases s.len(),
{
    if s.len() > 0 {
        let t = s.drop_first();
        assert(forall|j: int| 0 <= j < t.len() ==> t[j] == s[j + 1]);
        lemma_lookup_none(t, ns, relay);
    }
}

/// Appending an entry leaves every present key as it was and makes the new
/// entry's key visible where it was absent.
proof fn lemma_lookup_push(s: Seq<RegistryEntry>, x: RegistryEntry, ns: Seq<char>, relay: Seq<char>)
    ensures
        lookup(s.push(x), ns, relay) == (if lookup(s, ns, relay) is Some {
            lookup(s, ns, relay)
        } else if entry_matches(x, ns, relay) {
            Some(entry_model(x))
        } else {
            None
        }),
    decreases s.len(),
{
    let p = s.push(x);
    assert(p.len() == s.len() + 1);
    if s.len() == 0 {
        assert(p[0] == x);
        assert(p.drop_first() =~= Seq::<RegistryEntry>::empty());
        assert(lookup(Seq::<RegistryEntry>::empty(), ns, relay) == None::<EntryModel>);
    } else {
        assert(p[0] == s[0]);
        assert(p.drop_first() =~= s.drop_first().push(x));
        lemma_lookup_push(s.drop_first(), x, ns, relay);
    }
}

/// Replacing the first entry of a key with another entry of the same key
/// changes that key's record and nothing else.
proof fn lemma_lookup_update(
    s: Seq<RegistryEntry>,
    i: int,
    x: RegistryEntry,
    ns: Seq<char>,
    relay: Seq<char>,
)
    requires
        0 <= i < s.len(),
        entry_matches(s[i], x.namespace@, x.relay@),
        forall|j: int| 0 <= j < i ==> !entry_matches(#[trigger] s[j], x.namespace@, x.relay@),
    ensures
        lookup(s.update(i, x), ns, relay) == (if ns == x.namespace@ && relay == x.relay@ {
            Some(entry_model(x))
        } else {
            lookup(s, ns, relay)
        }),
    decreases i,
{
    let u = s.update(i, x);
    assert(u.len() == s.len());
    if i == 0 {
        assert(u[0] == x);
        assert(u.drop_first() =~= s.drop_first());
        if !(ns == x.namespace@ && relay == x.relay@) {
            assert(!entry_matches(x, ns, relay));
            assert(!entry_matches(s[0], ns, relay) ==> lookup(s, ns, relay) == lookup(
                s.drop_first(),
                ns,
                relay,
            ));
            if entry_matches(s[0], ns, relay) {
                // the displaced entry carried the same key as x, so its key is x's
                assert(ns == x.namespace@ && relay == x.relay@);
            }
        }
    } else {
        assert(u[0] == s[0]);
        assert(u.drop_first() =~= s.drop_first().update(i - 1, x));
        let t = s.drop_first();
        assert(forall|j: int| 0 <= j < t.len() ==> t[j] == s[j + 1]);
        lemma_lookup_update(t, i - 1, x, ns, relay);
    }
}

/// What a writer must do, given the record currently visible at a key: leave
/// an equal record alone, never overwrite a different one, and attempt the
/// atomic set-if-absent only where nothing is visible.
#[derive(Clone, Copy, Debug, PartialEq, Eq, Structural)]
pub enum WriteDecision {
    /// Identical content already stored: the write is a no-op refresh.
    Refresh,
    /// Different content already stored: the write must fail, not overwrite.
    Conflict,
    /// Nothing stored: attempt the atomic set-if-absent.
    Attempt,
}

/// The decision step of the conditional-write protocol.
pub fn put_decision(current: &Option<Origin>, candidate: &Origin) -> (d: WriteDecision)
    ensures
        d == match current {
            Some(u) => if u@ == candidate@ {
                WriteDecision::Refresh
            } else {
                WriteDecision::Conflict
            },
            None => WriteDecision::Attempt,
        },
{
    match current {
        Some(u) => if u.same_as(candidate) {
            WriteDecision::Refresh
        } else {
            WriteDecision::Conflict
        },
        None => WriteDecision::Attempt,
    }
}

/// A successful conditional write: an equal live record was left exactly as
/// it was (its expiry is not extended), an absent one was created with the
/// given time-to-live, and no other key moved.
pub open spec fn put_ok_post(
    s0: Seq<RegistryEntry>,
    s1: Seq<RegistryEntry>,
    ns: Seq<char>,
    relay: Seq<char>,
    origin: UrlModel,
    now: u64,
    ttl: u64,
) -> bool {
    &&& (match live_lookup(s0, ns, relay, now) {
        Some(u) => u == origin && lookup(s1, ns, relay) == lookup(s0, ns, relay),
        None => lookup(s1, ns, relay) == Some(
            EntryModel { origin, expires_at: (now + ttl) as u64 },
        ),
    })
    &&& (forall|ns2: Seq<char>, r2: Seq<char>|
        !(ns2 == ns && r2 == relay) ==> #[trigger] lookup(s1, ns2, r2) == lookup(s0, ns2, r2))
}

/// The registry of origin records.
pub struct Registry {
    pub entries: Vec<RegistryEntry>,
}

impl Registry {
    /// An empty registry: every lookup is absent.
    pub fn new() -> (r: Registry)
        ensures
            r.entries@.len() == 0,
            forall|ns2: Seq<char>, r2: Seq<char>|
                #[trigger] lookup(r.entries@, ns2, r2) == None::<EntryModel>,
    {
        Registry { entries: Vec::new() }
    }

    /// The index of the first entry under `(namespace, relay)`, if any.
    fn find_entry(&self, namespace: &String, relay: &String) -> (r: Option<usize>)
        ensures
            match r {
                Some(i) => i < self.entries@.len() && entry_matches(
                    self.entries@[i as int],
                    namespace@,
                    relay@,
                ) && lookup(self.entries@, namespace@, relay@) == Some(
                    entry_model(self.entries@[i as int]),
                ) && (forall|j: int|
                    0 <= j < i ==> !entry_matches(#[trigger] self.entries@[j], namespace@, relay@)),
                None => lookup(self.entries@, namespace@, relay@) == None::<EntryModel>,
            },
    {
        let mut i: usize = 0;
        while i < self.entries.len()
            invariant
                0 <= i <= self.entries@.len(),
                forall|j: int|
                    0 <= j < i ==> !entry_matches(#[trigger] self.entries@[j], namespace@, relay@),
            decreases self.entries@.len() - i,
        {
            if self.entries[i].namespace == *namespace && self.entries[i].relay == *relay {
                proof {
                    lemma_lookup_first(self.entries@, i as int, namespace@, relay@);
                }
                return Some(i);
            }
            i += 1;
        }
        proof {
            lemma_lookup_none(self.entries@, namespace@, relay@);
        }
        None
    }

    /// Direct lookup of the record a relay holds for a namespace; absence —
    /// never stored, revoked, or expired — is a normal outcome.
    pub fn get(&self, namespace: &String, relay: &String, now: u64) -> (r: Option<Origin>)
        ensures
            match r {
                Some(o) => live_lookup(self.entries@, namespace@, relay@, now) == Some(o@),
                None => live_lookup(self.entries@, namespace@, relay@, now) == None::<UrlModel>,
            },
    {
        match self.find_entry(namespace, relay) {
            Some(i) => if self.entries[i].expires_at > now {
                Some(self.entries[i].origin.clone())
            } else {
                None
            },
            None => None,
        }
    }

    /// The conditional-write protocol: succeeds as a no-op on an equal live
    /// record, creates an absent one with the given time-to-live, and fails
    /// with a conflict — writing nothing — on a different live record.
    pub fn put_if_consistent(
        &mut self,
        namespace: &String,
        relay: &String,
        origin: &Origin,
        now: u64,
        ttl: u64,
    ) -> (r: Result<(), ApiError>)
        requires
            now + ttl <= u64::MAX,
        ensures
            (r is Ok <==> !(live_lookup(old(self).entries@, namespace@, relay@, now) matches Some(u)
                && u != origin@)),
            match r {
                Ok(()) => put_ok_post(
                    old(self).entries@,
                    final(self).entries@,
                    namespace@,
                    relay@,
                    origin@,
                    now,
                    ttl,
                ),
                Err(e) => e == ApiError::Conflict && final(self).entries@ == old(self).entries@,
            },
    {
        match self.find_entry(namespace, relay) {
            Some(i) => {
                if self.entries[i].expires_at > now {
                    if self.entries[i].origin.same_as(origin) {
                        Ok(())
                    } else {
                        Err(ApiError::Conflict)
                    }
                } else {
                    // lapsed entry: the key counts as absent, claim it anew
                    let e = RegistryEntry {
                        relay: relay.clone(),
                        namespace: namespace.clone(),
                        origin: origin.clone(),
                        expires_at: now + ttl,
                    };
                    let ghost e_v: RegistryEntry = e;
                    let ghost s0 = self.entries@;
                    self.entries.remove(i);
                    self.entries.insert(i, e);
                    proof {
                        assert(self.entries@ =~= s0.update(i as int, e_v));
                        assert forall|ns2: Seq<char>, r2: Seq<char>|
                            !(ns2 == namespace@ && r2 == relay@) implies #[trigger] lookup(
                            self.entries@,
                            ns2,
                            r2,
                        ) == lookup(s0, ns2, r2) by {
                            lemma_lookup_update(s0, i as int, e_v, ns2, r2);
                        }
                        lemma_lookup_update(s0, i as int, e_v, namespace@, relay@);
                    }
                    Ok(())
                }
            },
            None => {
                let e = RegistryEntry {
                    relay: relay.clone(),
                    namespace: namespace.clone(),
                    origin: origin.clone(),
                    expires_at: now + ttl,
                };
                let ghost e_v: RegistryEntry = e;
                let ghost s0 = self.entries@;
                self.entries.push(e);
                proof {
                    assert forall|ns2: Seq<char>, r2: Seq<char>|
                        !(ns2 == namespace@ && r2 == relay@) implies #[trigger] lookup(
                        self.entries@,
                        ns2,
                        r2,
                    ) == lookup(s0, ns2, r2) by {
                        lemma_lookup_push(s0, e_v, ns2, r2);
                    }
                    lemma_lookup_push(s0, e_v, namespace@, relay@);
                }
                Ok(())
            },
        }
    }

    /// Removes every relay's record for `namespace`, live or lapsed; reports
    /// not-found when no record for the namespace was still live.
    pub fn revoke(&mut self, namespace: &String, now: u64) -> (r: Result<(), ApiError>)
        ensures
            (r is Ok <==> has_live_ns(old(self).entries@, namespace@, now)),
            r is Err ==> r == Err::<(), ApiError>(ApiError::NotFound),
            forall|r2: Seq<char>|
                #[trigger] lookup(final(self).entries@, namespace@, r2) == None::<EntryModel>,
            forall|ns2: Seq<char>, r2: Seq<char>|
                ns2 != namespace@ ==> #[trigger] lookup(final(self).entries@, ns2, r2) == lookup(
                    old(self).entries@,
                    ns2,
                    r2,
                ),
    {
        let mut work: Vec<RegistryEntry> = Vec::new();
        core::mem::swap(&mut work, &mut self.entries);
        let ghost s0 = work@;
        let mut found_live = false;
        let ghost k: int = 0;
        while work.len() > 0
            invariant
                0 <= k <= s0.len(),
                work@ == s0.skip(k),
                found_live == has_live_ns(s0.take(k), namespace@, now),
                forall|j: int|
                    0 <= j < self.entries@.len() ==> (#[trigger] self.entries@[j]).namespace@
                        != namespace@,
                forall|ns2: Seq<char>, r2: Seq<char>|
                    ns2 != namespace@ ==> #[trigger] lookup(self.entries@, ns2, r2) == lookup(
                        s0.take(k),
                        ns2,
                        r2,
                    ),
            decreases work@.len(),
        {
            let e = work.remove(0);
            let ghost e_v: RegistryEntry = e;
            let ghost kept0 = self.entries@;
            proof {
                assert(e_v == s0[k]);
                assert(work@ =~= s0.skip(k + 1));
                assert(s0.take(k + 1) =~= s0.take(k).push(s0[k]));
            }
            if e.namespace == *namespace {
                if e.expires_at > now {
                    found_live = true;
                }
                proof {
                    assert(has_live_ns(s0.take(k + 1), namespace@, now) == (has_live_ns(
                        s0.take(k),
                        namespace@,
                        now,
                    ) || (s0[k].namespace@ == namespace@ && s0[k].expires_at > now))) by {
                        let t = s0.take(k + 1);
                        assert(forall|j: int| 0 <= j < k ==> t[j] == s0.take(k)[j]);
                        assert(t[k] == s0[k]);
                        if has_live_ns(s0.take(k), namespace@, now) {
                            let j = choose|j: int|
                                0 <= j < k && (#[trigger] s0.take(k)[j]).namespace@ == namespace@
                                    && s0.take(k)[j].expires_at > now;
                            assert(t[j] == s0.take(k)[j]);
                        }
                        if has_live_ns(t, namespace@, now) && !(s0[k].namespace@ == namespace@
                            && s0[k].expires_at > now) {
                            let j = choose|j: int|
                                0 <= j < t.len() && (#[trigger] t[j]).namespace@ == namespace@
                                    && t[j].expires_at > now;
                            assert(j < k && s0.take(k)[j] == t[j]);
                        }
                    }
                    assert forall|ns2: Seq<char>, r2: Seq<char>|
                        ns2 != namespace@ implies #[trigger] lookup(self.entries@, ns2, r2)
                        == lookup(s0.take(k + 1), ns2, r2) by {
                        lemma_lookup_push(s0.take(k), e_v, ns2, r2);
                    }
                }
            } else {
                self.entries.push(e);
                proof {
                    assert(self.entries@ == kept0.push(e_v));
                    assert forall|ns2: Seq<char>, r2: Seq<char>|
                        ns2 != namespace@ implies #[trigger] lookup(self.entries@, ns2, r2)
                        == lookup(s0.take(k + 1), ns2, r2) by {
                        lemma_lookup_push(kept0, e_v, ns2, r2);
                        lemma_lookup_push(s0.take(k), e_v, ns2, r2);
                    }
                    assert(has_live_ns(s0.take(k + 1), namespace@, now) == has_live_ns(
                        s0.take(k),
                        namespace@,
                        now,
                    )) by {
                        let t = s0.take(k + 1);
                        assert(forall|j: int| 0 <= j < k ==> t[j] == s0.take(k)[j]);
                        assert(t[k] == s0[k]);
                        if has_live_ns(t, namespace@, now) {
                            let j = choose|j: int|
                                0 <= j < t.len() && (#[trigger] t[j]).namespace@ == namespace@
                                    && t[j].expires_at > now;
                            assert(j < k && s0.take(k)[j] == t[j]);
                        }
                        if has_live_ns(s0.take(k), namespace@, now) {
                            let j = choose|j: int|
                                0 <= j < k && (#[trigger] s0.take(k)[j]).namespace@ == namespace@
                                    && s0.take(k)[j].expires_at > now;
                            assert(t[j] == s0.take(k)[j]);
                        }
                    }
                }
            }
            proof {
                k = k + 1;
            }
        }
        proof {
            assert(s0.take(k) =~= s0);
            assert forall|r2: Seq<char>|
                #[trigger] lookup(self.entries@, namespace@, r2) == None::<EntryModel> by {
                lemma_lookup_none(self.entries@, namespace@, r2);
            }
        }
        if found_live {
            Ok(())
        } else {
            Err(ApiError::NotFound)
        }
    }

    /// The consistency check behind a refresh: with no record for the
    /// namespace still live the refresh targets nothing and reports
    /// not-found; a live record that differs from the candidate is a
    /// conflict and prevents any further action; with every live record
    /// equal it succeeds. No expiry is extended here — renewal happens by
    /// re-announcing the same content.
    pub fn refresh_ttl(&self, namespace: &String, candidate: &Origin, now: u64) -> (r: Result<
        (),
        ApiError,
    >)
        ensures
            (r is Ok <==> has_live_ns(self.entries@, namespace@, now) && (forall|i: int|
                (0 <= i < self.entries@.len() && (#[trigger] self.entries@[i]).namespace@
                    == namespace@ && self.entries@[i].expires_at > now)
                    ==> self.entries@[i].origin@ == candidate@)),
            (r == Err::<(), ApiError>(ApiError::NotFound) <==> !has_live_ns(
                self.entries@,
                namespace@,
                now,
            )),
            (r == Err::<(), ApiError>(ApiError::Conflict) <==> (exists|i: int|
                0 <= i < self.entries@.len() && (#[trigger] self.entries@[i]).namespace@
                    == namespace@ && self.entries@[i].expires_at > now
                    && self.entries@[i].origin@ != candidate@)),
    {
        let mut found_live = false;
        let mut i: usize = 0;
        while i < self.entries.len()
            invariant
                0 <= i <= self.entries@.len(),
                forall|j: int|
                    (0 <= j < i && (#[trigger] self.entries@[j]).namespace@ == namespace@
                        && self.entries@[j].expires_at > now) ==> self.entries@[j].origin@
                        == candidate@,
                found_live == (exists|j: int|
                    0 <= j < i && (#[trigger] self.entries@[j]).namespace@ == namespace@
                        && self.entries@[j].expires_at > now),
            decreases self.entries@.len() - i,
        {
            if self.entries[i].namespace == *namespace && self.entries[i].expires_at > now {
                if !self.entries[i].origin.same_as(candidate) {
                    return Err(ApiError::Conflict);
                }
                found_live = true;
            }
            i += 1;
        }
        if found_live {
            Ok(())
        } else {
            Err(ApiError::NotFound)
        }
    }
}

} // verus!
