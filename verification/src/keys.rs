//! Encoding of registry keys: one string key per (namespace, relay) pair.

use vstd::prelude::*;
use vstd::string::StringExecFns;

verus! {

/// The key under which relay `relayid` stores its record for `namespace`.
pub open spec fn origin_key_spec(namespace: Seq<char>, relayid: Seq<char>) -> Seq<char> {
    "origin."@ + relayid + "."@ + namespace
}

/// Encodes the registry key `"origin.<relayid>.<namespace>"`.
pub fn origin_key(namespace: &str, relayid: &str) -> (key: String)
    ensures
        key@ == origin_key_spec(namespace@, relayid@),
{
    let mut key = String::from_str("origin.");
    key.append(relayid);
    key.append(".");
    key.append(namespace);
    key
}

/// The encoding never collides: distinct (namespace, relay) pairs encode to
/// distinct keys, provided relay identifiers do not contain the separator.
pub proof fn lemma_origin_key_injective(
    ns1: Seq<char>,
    r1: Seq<char>,
    ns2: Seq<char>,
    r2: Seq<char>,
)
    requires
        !r1.contains('.'),
        !r2.contains('.'),
        origin_key_spec(ns1, r1) == origin_key_spec(ns2, r2),
    ensures
        ns1 == ns2,
        r1 == r2,
{
    reveal_strlit("origin.");
    reveal_strlit(".");
    let p = "origin."@;
    let d = "."@;
    assert(p.len() == 7);
    assert(d.len() == 1 && d[0] == '.');
    let k1 = p + r1 + d + ns1;
    let k2 = p + r2 + d + ns2;
    assert(k1 == k2);
    assert(r1.len() == r2.len()) by {
        if r1.len() < r2.len() {
            let i = 7 + r1.len() as int;
            assert(k1[i] == '.');
            assert(k2[i] == r2[r1.len() as int]);
            assert(r2.contains('.'));
            assert(false);
        }
        if r2.len() < r1.len() {
            let i = 7 + r2.len() as int;
            assert(k2[i] == '.');
            assert(k1[i] == r1[r2.len() as int]);
            assert(r1.contains('.'));
            assert(false);
        }
    }
    assert(r1 =~= r2) by {
        assert forall|i: int| 0 <= i < r1.len() implies r1[i] == r2[i] by {
            assert(k1[7 + i] == r1[i]);
            assert(k2[7 + i] == r2[i]);
        }
    }
    assert(k1.len() == k2.len());
    assert(ns1 =~= ns2) by {
        assert forall|i: int| 0 <= i < ns1.len() implies ns1[i] == ns2[i] by {
            assert(k1[8 + r1.len() + i] == ns1[i]);
            assert(k2[8 + r2.len() + i] == ns2[i]);
        }
    }
}

} // verus!
