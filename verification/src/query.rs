//! Parsing of the announcement query string.  A query is `&`-separated
//! pairs; a pair without `=` is ignored; values are percent-decoded.  The
//! single-valued parameters take the first occurrence of their key, the
//! address lists take every occurrence in order.

use vstd::prelude::*;
use vstd::string::StrSliceExecFns;
use crate::sets::seq_filter_push;
use crate::text::{split_char, split_str, find_char, find_char_in, str_eq, lemma_find_char_bounds};

verus! {

/// What percent-decoding of a query value returns: the result of
/// `urlencoding::decode`, with the raw value as fallback where the decoded
/// bytes are not valid UTF-8.
pub uninterp spec fn percent_decoded(s: Seq<char>) -> Seq<char>;

/// Relies on `urlencoding::decode`: percent-decoding depends on the
/// characters alone, and a string without `%` decodes to itself.  Where the
/// decoded bytes are not valid UTF-8, the raw value is kept as the
/// fallback.
#[verifier::external_body]
fn percent_decode_or_raw(s: &str) -> (r: String)
    ensures
        r@ == percent_decoded(s@),
        !s@.contains('%') ==> r@ == s@,
{
    match urlencoding::decode(s) {
        Ok(cow) => cow.into_owned(),
        Err(_) => s.to_string(),
    }
}

/// The key of a pair: everything before the first `=`.
pub open spec fn pair_key(p: Seq<char>) -> Seq<char> {
    p.subrange(0, find_char(p, '=', 0))
}

/// The raw value of a pair: everything after the first `=`.
pub open spec fn pair_value(p: Seq<char>) -> Seq<char> {
    p.subrange(find_char(p, '=', 0) + 1, p.len() as int)
}

/// Whether a pair carries a value at all.
pub open spec fn pair_has_value(p: Seq<char>) -> bool {
    find_char(p, '=', 0) < p.len()
}

/// The decoded values of every pair with the given key, in query order.
pub open spec fn values_for(ps: Seq<Seq<char>>, key: Seq<char>) -> Seq<Seq<char>> {
    ps.filter(|p: Seq<char>| pair_has_value(p) && pair_key(p) == key).map_values(
        |p: Seq<char>| percent_decoded(pair_value(p)),
    )
}

/// The first decoded value of the given key, if any.
pub open spec fn first_for(ps: Seq<Seq<char>>, key: Seq<char>) -> Option<Seq<char>> {
    if values_for(ps, key).len() == 0 {
        Option::None
    } else {
        Option::Some(values_for(ps, key)[0])
    }
}

/// One announcement request, as decoded from its query string.
pub struct UpdateRequestParams {
    pub version: Option<String>,
    pub host: Option<String>,
    pub ether: Vec<String>,
    pub inet: Vec<String>,
    pub inet6: Vec<String>,
}

/// The operator's request to authorize a hostname.
pub struct AddHostParams {
    pub host: String,
}

/// Matches an option of a string against an option of a character sequence.
pub open spec fn opt_view(o: Option<String>) -> Option<Seq<char>> {
    match o {
        Option::Some(s) => Option::Some(s@),
        Option::None => Option::None,
    }
}

/// Parses a query string, specified by `values_for` / `first_for` over its
/// `&`-separated pairs: `version` and `host` take their first occurrence,
/// the three address lists take every occurrence in order.
pub fn parse_query_params(query: &str) -> (r: UpdateRequestParams)
    ensures
        ({
            let ps = split_char(query@, '&');
            &&& opt_view(r.version) == first_for(ps, "version"@)
            &&& opt_view(r.host) == first_for(ps, "host"@)
            &&& r.ether.deep_view() == values_for(ps, "ether"@)
            &&& r.inet.deep_view() == values_for(ps, "inet"@)
            &&& r.inet6.deep_view() == values_for(ps, "inet6"@)
        }),
{
    let ghost psg = split_char(query@, '&');
    let parts = split_str(query, '&');
    let n = parts.len();
    let mut version: Option<String> = Option::None;
    let mut host: Option<String> = Option::None;
    let mut ether: Vec<String> = Vec::new();
    let mut inet: Vec<String> = Vec::new();
    let mut inet6: Vec<String> = Vec::new();
    let mut i: usize = 0;
    proof {
        assert(psg.subrange(0, 0) =~= Seq::<Seq<char>>::empty());
        lemma_values_empty("version"@);
        lemma_values_empty("host"@);
        lemma_values_empty("ether"@);
        lemma_values_empty("inet"@);
        lemma_values_empty("inet6"@);
    }
    while i < n
        invariant
            psg == parts.deep_view(),
            n == parts@.len(),
            i <= n,
            opt_view(version) == first_for(psg.subrange(0, i as int), "version"@),
            opt_view(host) == first_for(psg.subrange(0, i as int), "host"@),
            ether.deep_view() == values_for(psg.subrange(0, i as int), "ether"@),
            inet.deep_view() == values_for(psg.subrange(0, i as int), "inet"@),
            inet6.deep_view() == values_for(psg.subrange(0, i as int), "inet6"@),
        decreases n - i,
    {
        assert(psg[i as int] == parts@[i as int]@);
        let ghost p = psg[i as int];
        let part = &parts[i];
        let e = find_char_in(part.as_str(), '=');
        let plen = part.as_str().unicode_len();
        proof {
            reveal_strlit("version");
            reveal_strlit("host");
            reveal_strlit("ether");
            reveal_strlit("inet");
            reveal_strlit("inet6");
            assert("version"@.len() == 7 && "ether"@.len() == 5 && "inet6"@.len() == 5);
            assert("host"@.len() == 4 && "inet"@.len() == 4);
            assert("host"@[0] == 'h' && "inet"@[0] == 'i' && "ether"@[0] == 'e');
            assert("inet6"@[0] == 'i');
            lemma_find_char_bounds(p, '=', 0);
            lemma_values_step(psg, i as int, "version"@);
            lemma_values_step(psg, i as int, "host"@);
            lemma_values_step(psg, i as int, "ether"@);
            lemma_values_step(psg, i as int, "inet"@);
            lemma_values_step(psg, i as int, "inet6"@);
        }
        if e < plen {
            let key = part.as_str().substring_char(0, e);
            let raw = part.as_str().substring_char(e + 1, plen);
            let val = percent_decode_or_raw(raw);
            assert(key@ == pair_key(p));
            assert(val@ == percent_decoded(pair_value(p)));
            if str_eq(key, "version") {
                if version.is_none() {
                    version = Option::Some(val);
                }
            } else if str_eq(key, "host") {
                if host.is_none() {
                    host = Option::Some(val);
                }
            } else if str_eq(key, "ether") {
                let ghost dv = ether.deep_view();
                ether.push(val);
                assert(ether.deep_view() =~= dv.push(percent_decoded(pair_value(p))));
            } else if str_eq(key, "inet") {
                let ghost dv = inet.deep_view();
                inet.push(val);
                assert(inet.deep_view() =~= dv.push(percent_decoded(pair_value(p))));
            } else if str_eq(key, "inet6") {
                let ghost dv = inet6.deep_view();
                inet6.push(val);
                assert(inet6.deep_view() =~= dv.push(percent_decoded(pair_value(p))));
            }
        }
        i += 1;
    }
    assert(psg.subrange(0, n as int) =~= psg);
    UpdateRequestParams { version, host, ether, inet, inet6 }
}

/// No pairs, no values.
proof fn lemma_values_empty(key: Seq<char>)
    ensures
        values_for(Seq::<Seq<char>>::empty(), key) == Seq::<Seq<char>>::empty(),
        first_for(Seq::<Seq<char>>::empty(), key) is None,
{
    reveal(Seq::filter);
    assert(values_for(Seq::<Seq<char>>::empty(), key) =~= Seq::<Seq<char>>::empty());
}

/// Extending the scanned prefix by one pair extends each key's values by
/// that pair's value exactly when the pair carries that key.
proof fn lemma_values_step(ps: Seq<Seq<char>>, i: int, key: Seq<char>)
    requires
        0 <= i < ps.len(),
    ensures
        values_for(ps.subrange(0, i + 1), key) == if pair_has_value(ps[i]) && pair_key(ps[i])
            == key {
            values_for(ps.subrange(0, i), key).push(percent_decoded(pair_value(ps[i])))
        } else {
            values_for(ps.subrange(0, i), key)
        },
        first_for(ps.subrange(0, i + 1), key) == if pair_has_value(ps[i]) && pair_key(ps[i])
            == key && first_for(ps.subrange(0, i), key) is None {
            Option::Some(percent_decoded(pair_value(ps[i])))
        } else {
            first_for(ps.subrange(0, i), key)
        },
{
    let pred = |p: Seq<char>| pair_has_value(p) && pair_key(p) == key;
    let s0 = ps.subrange(0, i);
    let x = ps[i];
    assert(ps.subrange(0, i + 1) =~= s0.push(x));
    seq_filter_push(s0, x, pred);
    if pred(x) {
        assert(s0.filter(pred).push(x).map_values(|p: Seq<char>| percent_decoded(pair_value(p)))
            =~= s0.filter(pred).map_values(|p: Seq<char>| percent_decoded(pair_value(p))).push(
            percent_decoded(pair_value(x)),
        ));
    }
}

} // verus!
