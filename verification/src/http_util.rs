//! Query and cookie parsing for the HTTP API layer. The query type here
//! mirrors the connection server's: the API layer hands it raw query
//! strings taken from request URIs.

use vstd::prelude::*;

use crate::http;
use crate::text;

verus! {

/// Decoded key/value pairs of a query string, later fields winning.
pub struct HttpQuery {
    inner: http::HttpQuery,
}

impl View for HttpQuery {
    type V = Map<Seq<u8>, Seq<u8>>;

    closed spec fn view(&self) -> Map<Seq<u8>, Seq<u8>> {
        self.inner@
    }
}

impl HttpQuery {
    pub fn from(s: &[u8]) -> (r: HttpQuery)
        ensures
            r@ == http::query_map_spec(s@),
    {
        HttpQuery { inner: http::HttpQuery::from(s) }
    }

    /// The decoded value stored for `key`, if one is present.
    pub fn get_str(&self, key: &[u8]) -> (r: Option<&Vec<u8>>)
        ensures
            r is Some <==> self@.contains_key(key@),
            r is Some ==> r->0@ == self@[key@],
    {
        self.inner.get_str(key)
    }

    /// The value for `key` read as a decimal integer, where it is one.
    pub fn get_i64(&self, key: &[u8]) -> (r: Option<i64>)
        ensures
            r == http::spec_get_i64(self@, key@),
    {
        self.inner.get_i64(key)
    }
}

/// The key of a `;`-separated cookie field: everything before the first
/// `=`, spaces kept.
pub open spec fn cookie_key(f: Seq<u8>) -> Seq<u8> {
    text::split_spec(f, 61)[0]
}

/// The value of a cookie field: the part between the first and second `=`,
/// or empty when there is no `=`.
pub open spec fn cookie_value(f: Seq<u8>) -> Seq<u8> {
    let ps = text::split_spec(f, 61);
    if ps.len() > 1 {
        ps[1]
    } else {
        Seq::empty()
    }
}

pub open spec fn cookies_map_run(fields: Seq<Seq<u8>>, n: int) -> Map<Seq<u8>, Seq<u8>>
    decreases n,
{
    if n <= 0 {
        Map::empty()
    } else {
        cookies_map_run(fields, n - 1).insert(
            cookie_key(fields[n - 1]),
            cookie_value(fields[n - 1]),
        )
    }
}

/// The cookie pairs of a `Cookie` header value: fields split on `;`, each
/// field's key before its first `=` and value between the first and second
/// `=`; no decoding and no trimming.
pub open spec fn cookies_map_spec(s: Seq<u8>) -> Map<Seq<u8>, Seq<u8>> {
    let fields = text::split_spec(s, 59);
    cookies_map_run(fields, fields.len() as int)
}

/// Parses the value of a `Cookie` request header into key/value pairs with
/// unique keys, later fields winning.
pub fn parse_cookies(header: &[u8]) -> (r: Vec<(Vec<u8>, Vec<u8>)>)
    ensures
        http::pairs_unique(r.deep_view()),
        http::pairs_map(r.deep_view()) == cookies_map_spec(header@),
{
    let fields = text::split_bytes(header, 59);
    let ghost fs = text::split_spec(header@, 59);
    let mut pairs: Vec<(Vec<u8>, Vec<u8>)> = Vec::new();
    let mut i: usize = 0;
    proof {
        assert(http::pairs_map(pairs.deep_view()) =~= cookies_map_run(fs, 0));
    }
    while i < fields.len()
        invariant
            i <= fields.len(),
            fields.deep_view() == fs,
            http::pairs_unique(pairs.deep_view()),
            http::pairs_map(pairs.deep_view()) == cookies_map_run(fs, i as int),
        decreases fields.len() - i,
    {
        proof {
            assert(fields@[i as int].deep_view() =~= fields@[i as int]@);
            assert(fields@[i as int]@ == fs[i as int]);
        }
        let field = &fields[i];
        let parts = text::split_bytes(field, 61);
        proof {
            assert(parts.deep_view() == text::split_spec(fs[i as int], 61));
            assert(parts@.len() == parts.deep_view().len());
            assert(parts.deep_view().len() >= 1);
        }
        let key = text::clone_bytes(&parts[0]);
        let value = if parts.len() > 1 {
            text::clone_bytes(&parts[1])
        } else {
            Vec::new()
        };
        proof {
            assert(parts@[0].deep_view() =~= parts@[0]@);
            assert(parts@[0]@ == cookie_key(fs[i as int]));
            if parts@.len() > 1 {
                assert(parts@[1].deep_view() =~= parts@[1]@);
                assert(parts@[1]@ == cookie_value(fs[i as int]));
            }
            assert(key@ == cookie_key(fs[i as int]));
            assert(value@ == cookie_value(fs[i as int]));
        }
        http::insert_pair(&mut pairs, &key, &value);
        i += 1;
    }
    pairs
}

} // verus!
