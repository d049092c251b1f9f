//! Relay identifiers and the host-naming convention.
//!
//! A relay identifier is a decimal token `N`; the relay is addressable at the
//! conventional host `relay<N>` on port `N`. Announcing relays name themselves
//! with the host form, so the prefix is stripped before membership checks.

use vstd::prelude::*;
use vstd::string::StringExecFns;

verus! {

/// Whether `c` is an ASCII decimal digit.
pub open spec fn is_digit(c: char) -> bool {
    48 <= c as u32 <= 57
}

/// Whether `s` is a non-empty run of decimal digits.
pub open spec fn all_digits(s: Seq<char>) -> bool {
    s.len() > 0 && forall|i: int| 0 <= i < s.len() ==> is_digit(#[trigger] s[i])
}

/// The numeric value of the digit run `s`.
pub open spec fn dec_val(s: Seq<char>) -> int
    decreases s.len(),
{
    if s.len() == 0 {
        0
    } else {
        dec_val(s.drop_last()) * 10 + (s.last() as u32 - 48)
    }
}

/// Whether `s` names a relay: a digit run whose value fits a port number.
pub open spec fn is_port_id(s: Seq<char>) -> bool {
    all_digits(s) && dec_val(s) <= 65535
}

proof fn lemma_dec_val_nonneg(s: Seq<char>)
    requires
        forall|i: int| 0 <= i < s.len() ==> is_digit(#[trigger] s[i]),
    ensures
        dec_val(s) >= 0,
    decreases s.len(),
{
    if s.len() > 0 {
        lemma_dec_val_nonneg(s.drop_last());
    }
}

/// A digit run is worth at least any of its prefixes.
proof fn lemma_dec_val_prefix(s: Seq<char>, i: int)
    requires
        forall|j: int| 0 <= j < s.len() ==> is_digit(#[trigger] s[j]),
        0 <= i <= s.len(),
    ensures
        dec_val(s.take(i)) <= dec_val(s),
    decreases s.len() - i,
{
    if i == s.len() {
        assert(s.take(i) =~= s);
    } else {
        let t = s.take(i + 1);
        assert(t.drop_last() =~= s.take(i));
        assert(t.last() == s[i]);
        lemma_dec_val_nonneg(s.take(i));
        lemma_dec_val_prefix(s, i + 1);
    }
}

/// Parses a relay identifier as a port number; `None` exactly when `id` is
/// not a digit run or its value does not fit a port.
pub fn parse_relay_port(id: &str) -> (r: Option<u16>)
    ensures
        r is Some <==> is_port_id(id@),
        r is Some ==> r->Some_0 == dec_val(id@),
{
    let n = id.unicode_len();
    if n == 0 {
        return None;
    }
    let mut acc: u32 = 0;
    let mut i: usize = 0;
    while i < n
        invariant
            0 <= i <= n,
            n == id@.len(),
            forall|j: int| 0 <= j < i ==> is_digit(#[trigger] id@[j]),
            acc == dec_val(id@.take(i as int)),
            acc <= 65535,
        decreases n - i,
    {
        let c = id.get_char(i);
        let u = c as u32;
        if u < 48 || u > 57 {
            assert(!is_digit(id@[i as int]));
            return None;
        }
        let d = u - 48;
        proof {
            let t = id@.take(i + 1);
            assert(t.drop_last() =~= id@.take(i as int));
            assert(t.last() == id@[i as int]);
        }
        if acc > 6553 || (acc == 6553 && d > 5) {
            proof {
                if all_digits(id@) {
                    lemma_dec_val_prefix(id@, i + 1);
                }
            }
            return None;
        }
        acc = acc * 10 + d;
        i += 1;
    }
    proof {
        assert(id@.take(n as int) =~= id@);
    }
    Some(acc as u16)
}

/// The conventional host name `relay<id>` of the relay `id`.
pub fn relay_host(id: &str) -> (host: String)
    ensures
        host@ == "relay"@ + id@,
{
    let mut host = String::from_str("relay");
    host.append(id);
    host
}

/// `s` with a leading `relay` host prefix removed, if one is present.
pub open spec fn strip_relay_spec(s: Seq<char>) -> Seq<char> {
    if s.len() >= 5 && s.subrange(0, 5) == "relay"@ {
        s.subrange(5, s.len() as int)
    } else {
        s
    }
}

/// Strips the conventional host prefix from an announcing relay's name,
/// leaving the bare identifier.
pub fn strip_relay_prefix(id: &str) -> (bare: String)
    ensures
        bare@ == strip_relay_spec(id@),
{
    let n = id.unicode_len();
    if n >= 5 {
        let head = id.substring_char(0, 5);
        if String::from_str(head) == String::from_str("relay") {
            return id.substring_char(5, n).to_owned();
        }
        return id.to_owned();
    }
    id.to_owned()
}

} // verus!
