//! The per-host announcement record.  Address collections are sets: the
//! order in which a client lists its addresses carries no meaning, and
//! record equality (the change-detection signal) compares memberships.

use vstd::prelude::*;
use crate::sets::{StrSet, seq_set_eq};
use crate::text::str_eq;

verus! {

/// One host's announcement: hostname (lower-cased by the store), optional
/// client software version, the observed source address of the request, and
/// optional sets of MAC, IPv4 and IPv6 addresses.
pub struct Record {
    pub hostname: String,
    pub version: Option<String>,
    pub remote_addr: String,
    pub ether: Option<StrSet>,
    pub inet: Option<StrSet>,
    pub inet6: Option<StrSet>,
}

/// The mathematical image of a `Record`: strings as character sequences,
/// address sets as sequences in their stored order.
pub struct RecordView {
    pub hostname: Seq<char>,
    pub version: Option<Seq<char>>,
    pub remote_addr: Seq<char>,
    pub ether: Option<Seq<Seq<char>>>,
    pub inet: Option<Seq<Seq<char>>>,
    pub inet6: Option<Seq<Seq<char>>>,
}

impl View for Record {
    type V = RecordView;

    open spec fn view(&self) -> RecordView {
        RecordView {
            hostname: self.hostname@,
            version: match self.version {
                Option::Some(v) => Option::Some(v@),
                Option::None => Option::None,
            },
            remote_addr: self.remote_addr@,
            ether: match self.ether {
                Option::Some(s) => Option::Some(s@),
                Option::None => Option::None,
            },
            inet: match self.inet {
                Option::Some(s) => Option::Some(s@),
                Option::None => Option::None,
            },
            inet6: match self.inet6 {
                Option::Some(s) => Option::Some(s@),
                Option::None => Option::None,
            },
        }
    }
}

pub open spec fn opt_no_duplicates(o: Option<Seq<Seq<char>>>) -> bool {
    match o {
        Option::Some(s) => s.no_duplicates(),
        Option::None => true,
    }
}

impl Record {
    /// Validity: each address collection is duplicate-free.
    pub open spec fn wf(self) -> bool {
        opt_no_duplicates(self@.ether) && opt_no_duplicates(self@.inet) && opt_no_duplicates(
            self@.inet6,
        )
    }
}

/// Set equality on optional address collections: both absent, or both
/// present with the same members.
pub open spec fn opt_set_eq(a: Option<Seq<Seq<char>>>, b: Option<Seq<Seq<char>>>) -> bool {
    match (a, b) {
        (Option::None, Option::None) => true,
        (Option::Some(x), Option::Some(y)) => seq_set_eq(x, y),
        _ => false,
    }
}

/// Structural record equality, the sole change-detection signal: plain
/// fields must match exactly, address collections as sets.
pub open spec fn record_same(a: RecordView, b: RecordView) -> bool {
    &&& a.hostname == b.hostname
    &&& a.version == b.version
    &&& a.remote_addr == b.remote_addr
    &&& opt_set_eq(a.ether, b.ether)
    &&& opt_set_eq(a.inet, b.inet)
    &&& opt_set_eq(a.inet6, b.inet6)
}

fn opt_str_eq(a: &Option<String>, b: &Option<String>) -> (r: bool)
    ensures
        r == (match (a, b) {
            (Option::None, Option::None) => true,
            (Option::Some(x), Option::Some(y)) => x@ == y@,
            _ => false,
        }),
{
    match (a, b) {
        (Option::None, Option::None) => true,
        (Option::Some(x), Option::Some(y)) => str_eq(x.as_str(), y.as_str()),
        _ => false,
    }
}

fn opt_sets_eq(a: &Option<StrSet>, b: &Option<StrSet>) -> (r: bool)
    ensures
        r == (match (a, b) {
            (Option::None, Option::None) => true,
            (Option::Some(x), Option::Some(y)) => seq_set_eq(x@, y@),
            _ => false,
        }),
{
    match (a, b) {
        (Option::None, Option::None) => true,
        (Option::Some(x), Option::Some(y)) => x.same_set(y),
        _ => false,
    }
}

impl Record {
    /// Whether two records carry the same announcement, address order aside;
    /// specified by `record_same`.
    pub fn same_as(&self, other: &Record) -> (r: bool)
        ensures
            r == record_same(self@, other@),
    {
        str_eq(self.hostname.as_str(), other.hostname.as_str()) && opt_str_eq(
            &self.version,
            &other.version,
        ) && str_eq(self.remote_addr.as_str(), other.remote_addr.as_str()) && opt_sets_eq(
            &self.ether,
            &other.ether,
        ) && opt_sets_eq(&self.inet, &other.inet) && opt_sets_eq(&self.inet6, &other.inet6)
    }
}

fn clone_opt_string(o: &Option<String>) -> (r: Option<String>)
    ensures
        (match (o, &r) {
            (Option::None, Option::None) => true,
            (Option::Some(x), Option::Some(y)) => x@ == y@,
            _ => false,
        }),
{
    match o {
        Option::Some(v) => Option::Some(crate::sets::clone_string(v)),
        Option::None => Option::None,
    }
}

fn clone_opt_set(o: &Option<StrSet>) -> (r: Option<StrSet>)
    ensures
        (match (o, &r) {
            (Option::None, Option::None) => true,
            (Option::Some(x), Option::Some(y)) => x@ == y@,
            _ => false,
        }),
{
    match o {
        Option::Some(v) => Option::Some(v.clone()),
        Option::None => Option::None,
    }
}

impl Clone for Record {
    /// Cloning preserves the record's image exactly.
    fn clone(&self) -> (r: Self)
        ensures
            r@ == self@,
    {
        Record {
            hostname: crate::sets::clone_string(&self.hostname),
            version: clone_opt_string(&self.version),
            remote_addr: crate::sets::clone_string(&self.remote_addr),
            ether: clone_opt_set(&self.ether),
            inet: clone_opt_set(&self.inet),
            inet6: clone_opt_set(&self.inet6),
        }
    }
}

/// First-occurrence deduplication of a string sequence, scanning from `i`
/// with `acc` already kept.
pub open spec fn dedup_rec(s: Seq<Seq<char>>, i: int, acc: Seq<Seq<char>>) -> Seq<Seq<char>>
    decreases s.len() - i,
    when 0 <= i <= s.len()
{
    if i >= s.len() {
        acc
    } else if acc.contains(s[i]) {
        dedup_rec(s, i + 1, acc)
    } else {
        dedup_rec(s, i + 1, acc.push(s[i]))
    }
}

/// The distinct elements of a string sequence, first occurrences in order.
pub open spec fn dedup(s: Seq<Seq<char>>) -> Seq<Seq<char>> {
    dedup_rec(s, 0, Seq::empty())
}

/// Turns a list of strings into an optional set: `None` for an empty list,
/// otherwise the set of its elements.
pub fn vec_to_hashset_opt(vec: Vec<String>) -> (r: Option<StrSet>)
    ensures
        match r {
            Option::None => vec@.len() == 0,
            Option::Some(s) => vec@.len() > 0 && s@ == dedup(vec.deep_view()) && s.wf(),
        },
{
    if vec.is_empty() {
        return Option::None;
    }
    let ghost dv = vec.deep_view();
    let n = vec.len();
    let mut s = StrSet::new();
    let mut k: usize = 0;
    while k < n
        invariant
            dv == vec.deep_view(),
            n == vec@.len(),
            k <= n,
            s.wf(),
            dedup(dv) == dedup_rec(dv, k as int, s@),
        decreases n - k,
    {
        assert(dv[k as int] == vec@[k as int]@);
        let item = crate::sets::clone_string(&vec[k]);
        s.insert_item(item);
        k += 1;
    }
    Option::Some(s)
}

} // verus!
