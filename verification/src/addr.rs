//! The address-publication policy: parsing of IPv4 and IPv6 address strings
//! and the predicate that decides whether an address may be published in the
//! zone.  The policy fails open toward restriction: a string that does not
//! parse is treated as restricted.

use vstd::prelude::*;
use vstd::string::StrSliceExecFns;
use crate::text::{
    is_digit_char, seq_digits_val, split_char, split_str, contains_char, parse_digits,
    digit_char,
};

verus! {

// ---------------------------------------------------------------------------
// Hexadecimal digits
// ---------------------------------------------------------------------------

pub open spec fn is_hex_char(c: char) -> bool {
    is_digit_char(c) || (97 <= c as u32 && c as u32 <= 102) || (65 <= c as u32 && c as u32 <= 70)
}

/// The numeric value of a hexadecimal digit character (0 for others).
pub open spec fn hex_value(c: char) -> nat {
    if is_digit_char(c) {
        (c as u32 - 48) as nat
    } else if 97 <= c as u32 && c as u32 <= 102 {
        (c as u32 - 87) as nat
    } else if 65 <= c as u32 && c as u32 <= 70 {
        (c as u32 - 55) as nat
    } else {
        0
    }
}

/// The number denoted by a sequence of hexadecimal digit characters.
pub open spec fn seq_hex_val(s: Seq<char>) -> nat
    decreases s.len(),
{
    if s.len() == 0 {
        0
    } else {
        seq_hex_val(s.drop_last()) * 16 + hex_value(s.last())
    }
}

// ---------------------------------------------------------------------------
// IPv4
// ---------------------------------------------------------------------------

/// A dotted-quad component: one to three decimal digits, no superfluous
/// leading zero, value at most 255.
pub open spec fn valid_octet(s: Seq<char>) -> bool {
    &&& 1 <= s.len() <= 3
    &&& forall|k: int| 0 <= k < s.len() ==> is_digit_char(s[k])
    &&& (s.len() > 1 ==> s[0] != '0')
    &&& seq_digits_val(s) <= 255
}

/// The four octet values of a dotted-quad IPv4 address, or `None` when the
/// string is not one.
pub open spec fn parse_ipv4(s: Seq<char>) -> Option<Seq<u8>> {
    let gs = split_char(s, '.');
    if gs.len() == 4 && (forall|k: int| 0 <= k < 4 ==> valid_octet(gs[k])) {
        Some(Seq::new(4, |k: int| seq_digits_val(gs[k]) as u8))
    } else {
        None
    }
}

/// Octet values of `g` when it is a valid octet.
fn check_octet(g: &str) -> (r: Option<u8>)
    ensures
        match r {
            Some(v) => valid_octet(g@) && v as nat == seq_digits_val(g@),
            None => !valid_octet(g@),
        },
{
    let n = g.unicode_len();
    if n < 1 || n > 3 {
        return None;
    }
    let mut k: usize = 0;
    while k < n
        invariant
            n == g@.len(),
            k <= n,
            forall|j: int| 0 <= j < k ==> is_digit_char(g@[j]),
        decreases n - k,
    {
        if !digit_char(g.get_char(k)) {
            return None;
        }
        k += 1;
    }
    if n > 1 && g.get_char(0) == '0' {
        return None;
    }
    assert(g@.subrange(0, n as int) =~= g@);
    match parse_digits(g, 0, n) {
        Some(v) => {
            if v <= 255 {
                Some(v as u8)
            } else {
                None
            }
        },
        None => None,
    }
}

/// Parses a dotted-quad IPv4 address, specified by `parse_ipv4`.
pub fn parse_v4(s: &str) -> (r: Option<Vec<u8>>)
    ensures
        match r {
            Some(v) => parse_ipv4(s@) == Some(v@),
            None => parse_ipv4(s@) is None,
        },
{
    let parts = split_str(s, '.');
    if parts.len() != 4 {
        return None;
    }
    let mut out: Vec<u8> = Vec::new();
    let mut k: usize = 0;
    while k < 4
        invariant
            parts.deep_view() == split_char(s@, '.'),
            parts@.len() == 4,
            k <= 4,
            out@.len() == k,
            forall|j: int| 0 <= j < k ==> valid_octet(parts.deep_view()[j]),
            forall|j: int|
                0 <= j < k ==> out@[j] as nat == seq_digits_val(parts.deep_view()[j]),
        decreases 4 - k,
    {
        assert(parts.deep_view()[k as int] == parts@[k as int]@);
        match check_octet(parts[k].as_str()) {
            Some(v) => {
                out.push(v);
            },
            None => {
                return None;
            },
        }
        k += 1;
    }
    assert(out@ =~= Seq::new(4, |j: int| seq_digits_val(split_char(s@, '.')[j]) as u8));
    Some(out)
}

// ---------------------------------------------------------------------------
// IPv6
// ---------------------------------------------------------------------------

/// A plain IPv6 group: one to four hexadecimal digits.
pub open spec fn valid_hex_group(s: Seq<char>) -> bool {
    &&& 1 <= s.len() <= 4
    &&& forall|k: int| 0 <= k < s.len() ==> is_hex_char(s[k])
}

/// The 16-bit words of a sequence of plain hex groups, or `None` when one of
/// them is not a valid group.
pub open spec fn parse_hex_groups(gs: Seq<Seq<char>>) -> Option<Seq<u16>>
    decreases gs.len(),
{
    if gs.len() == 0 {
        Some(Seq::empty())
    } else if valid_hex_group(gs[0]) {
        match parse_hex_groups(gs.drop_first()) {
            Some(ws) => Some(seq![(seq_hex_val(gs[0]) as u16)] + ws),
            None => None,
        }
    } else {
        None
    }
}

/// Like `parse_hex_groups`, but the last group may instead be an embedded
/// dotted-quad IPv4 address, contributing two words.
pub open spec fn parse_tail_groups(gs: Seq<Seq<char>>) -> Option<Seq<u16>>
    decreases gs.len(),
{
    if gs.len() == 0 {
        Some(Seq::empty())
    } else if gs.len() == 1 {
        if gs[0].contains('.') {
            match parse_ipv4(gs[0]) {
                Some(o) => Some(
                    seq![
                        ((o[0] as int * 256 + o[1] as int) as u16),
                        ((o[2] as int * 256 + o[3] as int) as u16),
                    ],
                ),
                None => None,
            }
        } else if valid_hex_group(gs[0]) {
            Some(seq![(seq_hex_val(gs[0]) as u16)])
        } else {
            None
        }
    } else if valid_hex_group(gs[0]) {
        match parse_tail_groups(gs.drop_first()) {
            Some(ws) => Some(seq![(seq_hex_val(gs[0]) as u16)] + ws),
            None => None,
        }
    } else {
        None
    }
}

/// Position of the first `::` in `s` (`s.len()` if there is none).
pub open spec fn find_dc(s: Seq<char>, i: int) -> int
    decreases s.len() - i,
    when 0 <= i <= s.len()
{
    if i + 1 >= s.len() {
        s.len() as int
    } else if s[i] == ':' && s[i + 1] == ':' {
        i
    } else {
        find_dc(s, i + 1)
    }
}

/// The eight 16-bit words of an IPv6 address string, or `None` when the
/// string is not one.  `::` stands for one or more zero words and may appear
/// once; the final group may be an embedded IPv4 address.
pub open spec fn parse_ipv6(s: Seq<char>) -> Option<Seq<u16>> {
    let dc = find_dc(s, 0);
    if dc == s.len() {
        match parse_tail_groups(split_char(s, ':')) {
            Some(ws) => if ws.len() == 8 {
                Some(ws)
            } else {
                None
            },
            None => None,
        }
    } else {
        let left = s.subrange(0, dc);
        let right = s.subrange(dc + 2, s.len() as int);
        let lws = if left.len() == 0 {
            Some(Seq::<u16>::empty())
        } else {
            parse_hex_groups(split_char(left, ':'))
        };
        let rws = if right.len() == 0 {
            Some(Seq::<u16>::empty())
        } else {
            parse_tail_groups(split_char(right, ':'))
        };
        match (lws, rws) {
            (Some(l), Some(r)) => if l.len() + r.len() <= 7 {
                Some(l + Seq::new((8 - l.len() - r.len()) as nat, |k: int| 0u16) + r)
            } else {
                None
            },
            _ => None,
        }
    }
}

/// Word value of `g` when it is a plain hex group.
fn check_hex_group(g: &str) -> (r: Option<u16>)
    ensures
        match r {
            Some(v) => valid_hex_group(g@) && v as nat == seq_hex_val(g@),
            None => !valid_hex_group(g@),
        },
{
    let n = g.unicode_len();
    if n < 1 || n > 4 {
        return None;
    }
    let mut acc: u32 = 0;
    let mut k: usize = 0;
    while k < n
        invariant
            n == g@.len(),
            n <= 4,
            k <= n,
            forall|j: int| 0 <= j < k ==> is_hex_char(g@[j]),
            acc as nat == seq_hex_val(g@.subrange(0, k as int)),
            acc < 0x10000,
        decreases n - k,
    {
        let c = g.get_char(k);
        let u = c as u32;
        let v: u32 = if 48 <= u && u <= 57 {
            u - 48
        } else if 97 <= u && u <= 102 {
            u - 87
        } else if 65 <= u && u <= 70 {
            u - 55
        } else {
            return None;
        };
        assert(is_hex_char(g@[k as int]) && v == hex_value(g@[k as int]));
        proof {
            lemma_hex_val_bound(g@.subrange(0, k as int));
            assert(g@.subrange(0, k + 1 as int).drop_last() =~= g@.subrange(0, k as int));
            assert(g@.subrange(0, k + 1 as int).last() == g@[k as int]);
        }
        acc = acc * 16 + v;
        k += 1;
    }
    proof {
        assert(g@.subrange(0, n as int) =~= g@);
        lemma_hex_val_bound(g@);
    }
    Some(acc as u16)
}

/// A hex-digit sequence of length at most four denotes a value below 65536.
proof fn lemma_hex_val_bound(s: Seq<char>)
    ensures
        s.len() == 0 ==> seq_hex_val(s) == 0,
        s.len() == 1 ==> seq_hex_val(s) < 16,
        s.len() == 2 ==> seq_hex_val(s) < 256,
        s.len() == 3 ==> seq_hex_val(s) < 4096,
        s.len() == 4 ==> seq_hex_val(s) < 65536,
    decreases s.len(),
{
    if s.len() > 0 {
        lemma_hex_val_bound(s.drop_last());
        assert(hex_value(s.last()) <= 15);
    }
}

/// Parses a run of plain hex groups, specified by `parse_hex_groups`.
fn parse_hex_vec(parts: &Vec<String>) -> (r: Option<Vec<u16>>)
    ensures
        match r {
            Some(v) => parse_hex_groups(parts.deep_view()) == Some(v@),
            None => parse_hex_groups(parts.deep_view()) is None,
        },
{
    let ghost gs = parts.deep_view();
    let m = parts.len();
    let mut out: Vec<u16> = Vec::new();
    let mut i: usize = 0;
    assert(gs.subrange(0, m as int) =~= gs);
    while i < m
        invariant
            gs == parts.deep_view(),
            m == parts@.len(),
            i <= m,
            match parse_hex_groups(gs.subrange(i as int, m as int)) {
                Some(rest) => parse_hex_groups(gs) == Some(out@ + rest),
                None => parse_hex_groups(gs) is None,
            },
        decreases m - i,
    {
        let ghost sub = gs.subrange(i as int, m as int);
        assert(sub[0] == gs[i as int] && gs[i as int] == parts@[i as int]@);
        assert(sub.drop_first() =~= gs.subrange(i + 1 as int, m as int));
        match check_hex_group(parts[i].as_str()) {
            Some(w) => {
                out.push(w);
            },
            None => {
                return None;
            },
        }
        assert(forall|rest: Seq<u16>|
            out@.drop_last() + (seq![out@.last()] + rest) =~= out@ + rest);
        i += 1;
    }
    assert(gs.subrange(m as int, m as int) =~= Seq::<Seq<char>>::empty());
    assert(out@ + Seq::<u16>::empty() =~= out@);
    Some(out)
}

/// Parses groups whose last member may be an embedded IPv4 address,
/// specified by `parse_tail_groups`.
fn parse_tail_vec(parts: &Vec<String>) -> (r: Option<Vec<u16>>)
    ensures
        match r {
            Some(v) => parse_tail_groups(parts.deep_view()) == Some(v@),
            None => parse_tail_groups(parts.deep_view()) is None,
        },
{
    let ghost gs = parts.deep_view();
    let m = parts.len();
    let mut out: Vec<u16> = Vec::new();
    let mut i: usize = 0;
    assert(gs.subrange(0, m as int) =~= gs);
    while i < m
        invariant
            gs == parts.deep_view(),
            m == parts@.len(),
            i <= m,
            match parse_tail_groups(gs.subrange(i as int, m as int)) {
                Some(rest) => parse_tail_groups(gs) == Some(out@ + rest),
                None => parse_tail_groups(gs) is None,
            },
        decreases m - i,
    {
        let ghost sub = gs.subrange(i as int, m as int);
        assert(sub[0] == gs[i as int] && gs[i as int] == parts@[i as int]@);
        assert(sub.drop_first() =~= gs.subrange(i + 1 as int, m as int));
        if i + 1 == m && contains_char(parts[i].as_str(), '.') {
            match parse_v4(parts[i].as_str()) {
                Some(o) => {
                    let hi: u16 = (o[0] as u16) * 256 + (o[1] as u16);
                    let lo: u16 = (o[2] as u16) * 256 + (o[3] as u16);
                    out.push(hi);
                    out.push(lo);
                    assert(parse_ipv4(sub[0]).unwrap().len() == 4);
                },
                None => {
                    return None;
                },
            }
        } else {
            match check_hex_group(parts[i].as_str()) {
                Some(w) => {
                    out.push(w);
                },
                None => {
                    return None;
                },
            }
        }
        assert(forall|rest: Seq<u16>, a: Seq<u16>, b: Seq<u16>| (a + b) + rest =~= a + (b + rest));
        assert(forall|rest: Seq<u16>, a: Seq<u16>, w: u16|
            a.push(w) + rest =~= a + (seq![w] + rest));
        assert(forall|rest: Seq<u16>, a: Seq<u16>, w1: u16, w2: u16|
            a.push(w1).push(w2) + rest =~= a + (seq![w1, w2] + rest));
        i += 1;
    }
    assert(gs.subrange(m as int, m as int) =~= Seq::<Seq<char>>::empty());
    assert(out@ + Seq::<u16>::empty() =~= out@);
    Some(out)
}

pub proof fn lemma_find_dc(s: Seq<char>, i: int)
    requires
        0 <= i <= s.len(),
    ensures
        i <= find_dc(s, i) <= s.len(),
        find_dc(s, i) < s.len() ==> find_dc(s, i) + 1 < s.len() && s[find_dc(s, i)] == ':'
            && s[find_dc(s, i) + 1] == ':',
    decreases s.len() - i,
{
    if i + 1 < s.len() && !(s[i] == ':' && s[i + 1] == ':') {
        lemma_find_dc(s, i + 1);
    }
}

/// Position of the first `::`, as executable code.
fn find_dc_exec(s: &str, n: usize) -> (r: usize)
    requires
        n == s@.len(),
    ensures
        r as int == find_dc(s@, 0),
{
    let mut i: usize = 0;
    while n - i > 1
        invariant
            n == s@.len(),
            i <= n,
            find_dc(s@, 0) == find_dc(s@, i as int),
        decreases n - i,
    {
        if s.get_char(i) == ':' && s.get_char(i + 1) == ':' {
            return i;
        }
        i += 1;
    }
    n
}

/// Parses an IPv6 address string, specified by `parse_ipv6`.
pub fn parse_v6(s: &str) -> (r: Option<Vec<u16>>)
    ensures
        match r {
            Some(v) => parse_ipv6(s@) == Some(v@),
            None => parse_ipv6(s@) is None,
        },
{
    let n = s.unicode_len();
    let dc = find_dc_exec(s, n);
    proof {
        lemma_find_dc(s@, 0);
    }
    if dc == n {
        let parts = split_str(s, ':');
        match parse_tail_vec(&parts) {
            Some(v) => {
                if v.len() == 8 {
                    Some(v)
                } else {
                    None
                }
            },
            None => None,
        }
    } else {
        let left = s.substring_char(0, dc);
        let right = s.substring_char(dc + 2, n);
        let lws: Vec<u16> = if left.unicode_len() == 0 {
            Vec::new()
        } else {
            match parse_hex_vec(&split_str(left, ':')) {
                Some(v) => v,
                None => {
                    return None;
                },
            }
        };
        let rws: Vec<u16> = if right.unicode_len() == 0 {
            Vec::new()
        } else {
            match parse_tail_vec(&split_str(right, ':')) {
                Some(v) => v,
                None => {
                    return None;
                },
            }
        };
        if lws.len() <= 7 && rws.len() <= 7 - lws.len() {
            let fill = 8 - lws.len() - rws.len();
            let mut out: Vec<u16> = Vec::new();
            let mut k: usize = 0;
            while k < lws.len()
                invariant
                    k <= lws@.len(),
                    out@ =~= lws@.subrange(0, k as int),
                decreases lws@.len() - k,
            {
                out.push(lws[k]);
                assert(out@ =~= lws@.subrange(0, k + 1 as int));
                k += 1;
            }
            assert(lws@.subrange(0, lws@.len() as int) =~= lws@);
            k = 0;
            while k < fill
                invariant
                    k <= fill,
                    fill == 8 - lws@.len() - rws@.len(),
                    out@ =~= lws@ + Seq::new(k as nat, |j: int| 0u16),
                decreases fill - k,
            {
                out.push(0);
                assert(out@ =~= lws@ + Seq::new((k + 1) as nat, |j: int| 0u16));
                k += 1;
            }
            k = 0;
            while k < rws.len()
                invariant
                    k <= rws@.len(),
                    fill == 8 - lws@.len() - rws@.len(),
                    out@ =~= lws@ + Seq::new(fill as nat, |j: int| 0u16) + rws@.subrange(
                        0,
                        k as int,
                    ),
                decreases rws@.len() - k,
            {
                out.push(rws[k]);
                assert(out@ =~= lws@ + Seq::new(fill as nat, |j: int| 0u16) + rws@.subrange(
                    0,
                    k + 1 as int,
                ));
                k += 1;
            }
            assert(rws@.subrange(0, rws@.len() as int) =~= rws@);
            Some(out)
        } else {
            None
        }
    }
}

// ---------------------------------------------------------------------------
// The publication policy
// ---------------------------------------------------------------------------

/// Restricted IPv4 ranges: loopback 127/8, multicast 224/4, the private
/// ranges 10/8, 172.16/12 and 192.168/16, and link-local 169.254/16.
pub open spec fn v4_restricted(o: Seq<u8>) -> bool {
    ||| o[0] == 127
    ||| 224 <= o[0] <= 239
    ||| o[0] == 10
    ||| (o[0] == 172 && 16 <= o[1] <= 31)
    ||| (o[0] == 192 && o[1] == 168)
    ||| (o[0] == 169 && o[1] == 254)
}

/// Restricted IPv6 ranges: the loopback address `::1`, multicast `ff00::/8`,
/// link-local `fe80::/10`, unique-local `fc00::/7`, and the deprecated
/// site-local `fec0::/10`.
pub open spec fn v6_restricted(w: Seq<u16>) -> bool {
    ||| (w[0] == 0 && w[1] == 0 && w[2] == 0 && w[3] == 0 && w[4] == 0 && w[5] == 0 && w[6] == 0
        && w[7] == 1)
    ||| w[0] >= 0xff00
    ||| (0xfe80 <= w[0] <= 0xfebf)
    ||| (0xfc00 <= w[0] <= 0xfdff)
    ||| (0xfec0 <= w[0] <= 0xfeff)
}

/// The publication policy on address strings: a string with a colon is read
/// as IPv6 and one without as IPv4; whatever does not parse is restricted.
pub open spec fn ip_restricted(s: Seq<char>) -> bool {
    if s.contains(':') {
        match parse_ipv6(s) {
            Some(w) => v6_restricted(w),
            None => true,
        }
    } else {
        match parse_ipv4(s) {
            Some(o) => v4_restricted(o),
            None => true,
        }
    }
}

/// Whether an address may not be published: true for loopback, multicast,
/// private, link-local, unique-local and site-local addresses, and for every
/// string that is not a well-formed address.
pub fn is_ip_restricted(ip_str: &str) -> (r: bool)
    ensures
        r == ip_restricted(ip_str@),
{
    if contains_char(ip_str, ':') {
        match parse_v6(ip_str) {
            Some(w) => {
                let r = (w[0] == 0 && w[1] == 0 && w[2] == 0 && w[3] == 0 && w[4] == 0 && w[5]
                    == 0 && w[6] == 0 && w[7] == 1) || w[0] >= 0xff00 || (0xfe80 <= w[0] && w[0]
                    <= 0xfebf) || (0xfc00 <= w[0] && w[0] <= 0xfdff) || (0xfec0 <= w[0] && w[0]
                    <= 0xfeff);
                r
            },
            None => true,
        }
    } else {
        match parse_v4(ip_str) {
            Some(o) => {
                let r = o[0] == 127 || (224 <= o[0] && o[0] <= 239) || o[0] == 10 || (o[0] == 172
                    && 16 <= o[1] && o[1] <= 31) || (o[0] == 192 && o[1] == 168) || (o[0] == 169
                    && o[1] == 254);
                r
            },
            None => true,
        }
    }
}

} // verus!
