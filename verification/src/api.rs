//! The access rule of the panel's HTTP API.
use vstd::prelude::*;

use crate::text::{chars_of, range_eq, split_on, split_once, split_ranges};

verus! {

/// The prefix of an `Authorization` header that carries a bearer token.
pub open spec fn bearer_prefix() -> Seq<char> {
    seq!['B', 'e', 'a', 'r', 'e', 'r', ' ']
}

/// The name of the query parameter that may carry the token (event streams cannot set
/// headers).
pub open spec fn token_key() -> Seq<char> {
    seq!['t', 'o', 'k', 'e', 'n']
}

/// Whether an `Authorization` header value is `Bearer ` followed by exactly `token`.
pub open spec fn header_grants(header: Seq<char>, token: Seq<char>) -> bool {
    header.len() >= 7 && header.take(7) == bearer_prefix() && header.skip(7) == token
}

/// The value of the first `key=value` pair of `pairs` whose key is `token`.
pub open spec fn first_token_value(pairs: Seq<Seq<char>>) -> Option<Seq<char>>
    decreases pairs.len(),
{
    if pairs.len() == 0 {
        None
    } else {
        match split_once(pairs[0], '=') {
            Some((k, v)) => if k == token_key() {
                Some(v)
            } else {
                first_token_value(pairs.drop_first())
            },
            None => first_token_value(pairs.drop_first()),
        }
    }
}

/// The token that a query string carries: the value of its first `token=` pair.
pub open spec fn query_token(query: Seq<char>) -> Option<Seq<char>> {
    first_token_value(split_on(query, '&'))
}

/// Whether a request may use the API. Without a configured token every request may; with
/// one, a request may when its `Authorization` header is `Bearer <token>` or when the first
/// `token=` pair of its query string carries the token.
pub open spec fn grants(token: Option<Seq<char>>, header: Option<Seq<char>>, query: Option<Seq<char>>) -> bool {
    match token {
        None => true,
        Some(t) => (header matches Some(h) && header_grants(h, t)) || (query matches Some(q)
            && query_token(q) == Some(t)),
    }
}

/// Whether `s` is `Bearer ` followed by exactly `token`.
fn header_matches(s: &Vec<char>, token: &Vec<char>) -> (b: bool)
    ensures
        b == header_grants(s@, token@),
{
    let prefix = chars_of("Bearer ");
    proof {
        reveal_strlit("Bearer ");
        assert(prefix@ =~= bearer_prefix());
    }
    if s.len() < 7 {
        return false;
    }
    let head = range_eq(s, 0, 7, &prefix);
    let tail = range_eq(s, 7, s.len(), token);
    assert(s@.subrange(0, 7) =~= s@.take(7));
    assert(s@.subrange(7, s.len() as int) =~= s@.skip(7));
    head && tail
}

/// The token that the query string `q` carries, compared with `token`.
fn query_matches(q: &Vec<char>, token: &Vec<char>) -> (b: bool)
    ensures
        b == (query_token(q@) == Some(token@)),
{
    let key = chars_of("token");
    proof {
        reveal_strlit("token");
        assert(key@ =~= token_key());
    }
    let pairs = split_ranges(q, 0, q.len(), '&');
    assert(q@.subrange(0, q.len() as int) =~= q@);
    let ghost fields = split_on(q@, '&');
    let mut i: usize = 0;
    assert(fields.skip(0) =~= fields);
    while i < pairs.len()
        invariant
            0 <= i <= pairs.len(),
            pairs.len() == fields.len(),
            fields == split_on(q@, '&'),
            key@ == token_key(),
            forall|j: int|
                0 <= j < pairs.len() ==> 0 <= (#[trigger] pairs[j]).0 <= pairs[j].1 <= q.len()
                    && q@.subrange(pairs[j].0 as int, pairs[j].1 as int) == fields[j],
            first_token_value(fields) == first_token_value(fields.skip(i as int)),
        decreases pairs.len() - i,
    {
        let (lo, hi) = pairs[i];
        let ghost f = fields[i as int];
        assert(fields.skip(i as int)[0] == f);
        assert(fields.skip(i as int).drop_first() =~= fields.skip(i + 1));
        let kv = split_ranges(q, lo, hi, '=');
        if kv.len() > 1 {
            let ghost parts = split_on(f, '=');
            assert(q@.subrange(kv[0].0 as int, kv[0].1 as int) == parts[0]);
            assert(q@.subrange(kv[0].1 + 1, hi as int) =~= f.skip(parts[0].len() as int + 1));
            if range_eq(q, kv[0].0, kv[0].1, &key) {
                return range_eq(q, kv[0].1 + 1, hi, token);
            }
        }
        i = i + 1;
    }
    assert(fields.skip(i as int) =~= Seq::<Seq<char>>::empty());
    false
}

/// Whether a request may use the API, given the configured token (`None`: the panel asks for
/// none), the request's `Authorization` header value and its query string. Without a token
/// every request may; with one, `Bearer <token>` in the header or `token=<token>` as the first
/// `token` pair of the query grants access.
pub fn authorized(token: Option<&str>, header: Option<&str>, query: Option<&str>) -> (b: bool)
    ensures
        b == grants(
            match token {
                Some(t) => Some(t@),
                None => None,
            },
            match header {
                Some(h) => Some(h@),
                None => None,
            },
            match query {
                Some(q) => Some(q@),
                None => None,
            },
        ),
{
    let t = match token {
        None => return true,
        Some(t) => chars_of(t),
    };
    let header_ok = match header {
        Some(h) => header_matches(&chars_of(h), &t),
        None => false,
    };
    let query_ok = match query {
        Some(q) => query_matches(&chars_of(q), &t),
        None => false,
    };
    header_ok || query_ok
}

/// Law: a panel without a token lets every request through, and with a token, the header
/// `Bearer <token>` always grants access.
pub proof fn law_bearer_token_grants(token: Seq<char>, query: Option<Seq<char>>, header: Option<Seq<char>>)
    ensures
        grants(None, header, query),
        grants(Some(token), Some(bearer_prefix() + token), query),
{
    let h = bearer_prefix() + token;
    assert(h.take(7) =~= bearer_prefix());
    assert(h.skip(7) =~= token);
}

/// Law: with a token, a request that carries neither the header nor a query string is
/// refused.
pub proof fn law_no_credentials_refused(token: Seq<char>)
    ensures
        !grants(Some(token), None, None),
{
}

} // verus!
