//! Origin records and the per-hop URL rewrite.
//!
//! An origin record locates where a namespace's content can currently be
//! fetched. The registry treats the location as structured plain values
//! (scheme, host, port, path, query); equality is structural and is what the
//! conflict and consistency checks compare.

use vstd::prelude::*;
use crate::relay::{dec_val, is_port_id, parse_relay_port, relay_host};

verus! {

/// The mathematical value of an [`OriginUrl`].
pub ghost struct UrlModel {
    pub scheme: Seq<char>,
    pub host: Seq<char>,
    pub port: Option<u16>,
    pub path: Seq<char>,
    pub query: Option<Seq<char>>,
}

/// A structured URL: the location component of an origin record.
pub struct OriginUrl {
    pub scheme: String,
    pub host: String,
    pub port: Option<u16>,
    pub path: String,
    pub query: Option<String>,
}

impl View for OriginUrl {
    type V = UrlModel;

    open spec fn view(&self) -> UrlModel {
        UrlModel {
            scheme: self.scheme@,
            host: self.host@,
            port: self.port,
            path: self.path@,
            query: match self.query {
                Some(q) => Some(q@),
                None => None,
            },
        }
    }
}

/// The value type exchanged over the API and stored in the registry.
pub struct Origin {
    pub url: OriginUrl,
}

impl View for Origin {
    type V = UrlModel;

    open spec fn view(&self) -> UrlModel {
        self.url@
    }
}

impl Clone for OriginUrl {
    /// A clone carries the same value.
    fn clone(&self) -> (r: Self)
        ensures
            r@ == self@,
    {
        OriginUrl {
            scheme: self.scheme.clone(),
            host: self.host.clone(),
            port: self.port,
            path: self.path.clone(),
            query: match &self.query {
                Some(q) => Some(q.clone()),
                None => None,
            },
        }
    }
}

impl Clone for Origin {
    /// A clone carries the same value.
    fn clone(&self) -> (r: Self)
        ensures
            r@ == self@,
    {
        Origin { url: self.url.clone() }
    }
}

impl Origin {
    /// Structural equality of two records.
    pub fn same_as(&self, other: &Origin) -> (r: bool)
        ensures
            r == (self@ == other@),
    {
        let scheme_eq = self.url.scheme == other.url.scheme;
        let host_eq = self.url.host == other.url.host;
        let port_eq = match (self.url.port, other.url.port) {
            (Some(a), Some(b)) => a == b,
            (None, None) => true,
            _ => false,
        };
        let path_eq = self.url.path == other.url.path;
        let query_eq = match (&self.url.query, &other.url.query) {
            (Some(a), Some(b)) => *a == *b,
            (None, None) => true,
            _ => false,
        };
        scheme_eq && host_eq && port_eq && path_eq && query_eq
    }
}

/// `base` with only its host and port replaced by the conventional address
/// of the relay `hop`; scheme, path and query are preserved verbatim.
pub open spec fn rewritten_for_hop(base: UrlModel, hop: Seq<char>) -> UrlModel {
    UrlModel {
        host: "relay"@ + hop,
        port: Some(dec_val(hop) as u16),
        ..base
    }
}

/// Derives the record a relay must hold so that its lookups resolve one hop
/// closer to the publisher: the publisher-supplied location, redirected at
/// the relay `hop`.
pub fn rewrite_for_hop(origin: &Origin, hop: &str) -> (r: Origin)
    requires
        is_port_id(hop@),
    ensures
        r@ == rewritten_for_hop(origin@, hop@),
{
    let port = parse_relay_port(hop).unwrap();
    Origin {
        url: OriginUrl {
            scheme: origin.url.scheme.clone(),
            host: relay_host(hop),
            port: Some(port),
            path: origin.url.path.clone(),
            query: match &origin.url.query {
                Some(q) => Some(q.clone()),
                None => None,
            },
        },
    }
}

} // verus!
