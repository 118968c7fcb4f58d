//! Sets of strings kept as duplicate-free vectors.  The vector order is
//! incidental (callers that need determinism sort), but keeping it lets the
//! zone rewriter state exactly which lines it appends and in which order.

use vstd::prelude::*;
use crate::text::str_eq;

verus! {

/// Two string sequences hold the same elements, order and multiplicity
/// aside.
pub open spec fn seq_set_eq(a: Seq<Seq<char>>, b: Seq<Seq<char>>) -> bool {
    forall|x: Seq<char>| a.contains(x) <==> b.contains(x)
}

/// `s` with the first occurrence of `x` removed (unchanged when absent).
pub open spec fn remove_first(s: Seq<Seq<char>>, x: Seq<char>) -> Seq<Seq<char>>
    decreases s.len(),
{
    if s.len() == 0 {
        s
    } else if s[0] == x {
        s.drop_first()
    } else {
        seq![s[0]] + remove_first(s.drop_first(), x)
    }
}

/// A set of strings (hostnames or addresses), kept as a duplicate-free
/// vector.
pub struct StrSet {
    pub items: Vec<String>,
}

impl View for StrSet {
    type V = Seq<Seq<char>>;

    open spec fn view(&self) -> Seq<Seq<char>> {
        self.items.deep_view()
    }
}

impl StrSet {
    /// Validity: no hostname occurs twice.
    pub open spec fn wf(self) -> bool {
        self@.no_duplicates()
    }

    pub fn new() -> (r: StrSet)
        ensures
            r@ == Seq::<Seq<char>>::empty(),
            r.wf(),
    {
        let r = StrSet { items: Vec::new() };
        assert(r@ =~= Seq::<Seq<char>>::empty());
        r
    }

    pub fn len(&self) -> (r: usize)
        ensures
            r == self@.len(),
    {
        self.items.len()
    }

    pub fn is_empty(&self) -> (r: bool)
        ensures
            r == (self@.len() == 0),
    {
        self.items.len() == 0
    }

    /// Membership test.
    pub fn contains_item(&self, h: &str) -> (r: bool)
        ensures
            r == self@.contains(h@),
    {
        let n = self.items.len();
        let mut i: usize = 0;
        while i < n
            invariant
                n == self@.len(),
                i <= n,
                forall|k: int| 0 <= k < i ==> self@[k] != h@,
            decreases n - i,
        {
            assert(self@[i as int] == self.items@[i as int]@);
            if str_eq(self.items[i].as_str(), h) {
                assert(self@.contains(h@));
                return true;
            }
            i += 1;
        }
        assert(forall|k: int| 0 <= k < self@.len() ==> self@[k] != h@);
        false
    }

    /// Adds an element; no effect when it is already present.
    pub fn insert_item(&mut self, h: String)
        requires
            old(self).wf(),
        ensures
            final(self).wf(),
            final(self)@ == if old(self)@.contains(h@) {
                old(self)@
            } else {
                old(self)@.push(h@)
            },
    {
        if !self.contains_item(h.as_str()) {
            let ghost before = self@;
            self.items.push(h);
            assert(self@ =~= before.push(h@));
        }
    }

    /// Removes an element; no effect when it is absent.
    pub fn remove_item(&mut self, h: &str)
        requires
            old(self).wf(),
        ensures
            final(self).wf(),
            final(self)@ == remove_first(old(self)@, h@),
            !final(self)@.contains(h@),
            forall|x: Seq<char>| x != h@ ==> (final(self)@.contains(x) == old(self)@.contains(x)),
    {
        let ghost before = self@;
        let n = self.items.len();
        let mut i: usize = 0;
        while i < n
            invariant
                before == self@,
                before == old(self)@,
                before.no_duplicates(),
                n == self@.len(),
                i <= n,
                forall|k: int| 0 <= k < i ==> self@[k] != h@,
            decreases n - i,
        {
            assert(self@[i as int] == self.items@[i as int]@);
            if str_eq(self.items[i].as_str(), h) {
                let ghost bitems = self.items@;
                self.items.remove(i);
                proof {
                    let cut = before.subrange(0, i as int) + before.subrange(
                        i + 1 as int,
                        before.len() as int,
                    );
                    assert(self.items@ == bitems.remove(i as int));
                    assert forall|k: int| 0 <= k < self@.len() implies self@[k] == cut[k] by {
                        if k < i {
                            assert(self.items@[k] == bitems[k]);
                            assert(before[k] == bitems[k]@);
                        } else {
                            assert(self.items@[k] == bitems[k + 1]);
                            assert(before[k + 1] == bitems[k + 1]@);
                        }
                    }
                    assert(self@ =~= cut);
                    lemma_remove_first_at(before, h@, i as int);
                    lemma_remove_at_membership(before, h@, i as int);
                }
                return ;
            }
            i += 1;
        }
        proof {
            lemma_remove_first_absent(before, h@);
        }
    }

    /// The elements of `self` that are not in `other`, in order.
    #[allow(deprecated)]
    pub fn minus(&self, other: &StrSet) -> (r: StrSet)
        requires
            self.wf(),
        ensures
            r.wf(),
            r@ == self@.filter(|x: Seq<char>| !other@.contains(x)),
    {
        let ghost pred = |x: Seq<char>| !other@.contains(x);
        let n = self.items.len();
        let mut out: Vec<String> = Vec::new();
        let mut i: usize = 0;
        assert(self@.subrange(0, 0) =~= Seq::<Seq<char>>::empty());
        assert(Seq::<Seq<char>>::empty().filter(pred) =~= Seq::<Seq<char>>::empty());
        while i < n
            invariant
                n == self@.len(),
                i <= n,
                pred == (|x: Seq<char>| !other@.contains(x)),
                out.deep_view() == self@.subrange(0, i as int).filter(pred),
                self.wf(),
            decreases n - i,
        {
            assert(self@[i as int] == self.items@[i as int]@);
            let ghost dv = out.deep_view();
            let keep = !other.contains_item(self.items[i].as_str());
            if keep {
                let cl = clone_string(&self.items[i]);
                out.push(cl);
                assert(out.deep_view() =~= dv.push(self@[i as int]));
            }
            proof {
                let s0 = self@.subrange(0, i as int);
                let x = self@[i as int];
                assert(self@.subrange(0, i + 1 as int) =~= s0.push(x));
                seq_filter_push(s0, x, pred);
            }
            i += 1;
        }
        assert(self@.subrange(0, n as int) =~= self@);
        let r = StrSet { items: out };
        proof {
            self@.filter_lemma(pred);
            lemma_filter_no_duplicates(self@, pred);
        }
        r
    }

    /// Whether two sets hold exactly the same elements.
    pub fn same_set(&self, other: &StrSet) -> (r: bool)
        ensures
            r == seq_set_eq(self@, other@),
    {
        let n = self.items.len();
        let mut i: usize = 0;
        while i < n
            invariant
                n == self@.len(),
                i <= n,
                forall|k: int| 0 <= k < i ==> other@.contains(self@[k]),
            decreases n - i,
        {
            assert(self@[i as int] == self.items@[i as int]@);
            if !other.contains_item(self.items[i].as_str()) {
                assert(self@.contains(self@[i as int]));
                return false;
            }
            i += 1;
        }
        let m = other.items.len();
        let mut j: usize = 0;
        while j < m
            invariant
                m == other@.len(),
                j <= m,
                forall|k: int| 0 <= k < j ==> self@.contains(other@[k]),
                forall|k: int| 0 <= k < self@.len() ==> other@.contains(self@[k]),
            decreases m - j,
        {
            assert(other@[j as int] == other.items@[j as int]@);
            if !self.contains_item(other.items[j].as_str()) {
                assert(other@.contains(other@[j as int]));
                return false;
            }
            j += 1;
        }
        proof {
            assert forall|x: Seq<char>| self@.contains(x) implies other@.contains(x) by {
                let k = choose|k: int| 0 <= k < self@.len() && self@[k] == x;
                assert(other@.contains(self@[k]));
            }
            assert forall|x: Seq<char>| other@.contains(x) implies self@.contains(x) by {
                let k = choose|k: int| 0 <= k < other@.len() && other@[k] == x;
                assert(self@.contains(other@[k]));
            }
        }
        true
    }

    /// An element by index (the iteration order of the set).
    pub fn get(&self, i: usize) -> (r: &String)
        requires
            i < self@.len(),
        ensures
            r@ == self@[i as int],
    {
        let r = &self.items[i];
        assert(self@[i as int] == self.items@[i as int]@);
        r
    }
}

impl Clone for StrSet {
    /// Cloning preserves the elements and their order.
    fn clone(&self) -> (r: Self)
        ensures
            r@ == self@,
    {
        let n = self.items.len();
        let mut out: Vec<String> = Vec::new();
        let mut i: usize = 0;
        while i < n
            invariant
                n == self@.len(),
                i <= n,
                out.deep_view() == self@.subrange(0, i as int),
            decreases n - i,
        {
            assert(self@[i as int] == self.items@[i as int]@);
            let ghost dv = out.deep_view();
            let cl = clone_string(&self.items[i]);
            out.push(cl);
            assert(out.deep_view() =~= dv.push(self@[i as int]));
            assert(out.deep_view() =~= self@.subrange(0, i + 1 as int));
            i += 1;
        }
        assert(self@.subrange(0, n as int) =~= self@);
        let r = StrSet { items: out };
        assert(r@ =~= self@);
        r
    }
}

/// A clone of a string, with its contents pinned.
pub fn clone_string(s: &String) -> (r: String)
    ensures
        r@ == s@,
{
    s.clone()
}

/// Whatever survives `remove_first` was in the sequence.
pub proof fn lemma_remove_first_subset(s: Seq<Seq<char>>, x: Seq<char>)
    ensures
        forall|y: Seq<char>| remove_first(s, x).contains(y) ==> s.contains(y),
    decreases s.len(),
{
    if s.len() > 0 && s[0] != x {
        let t = s.drop_first();
        lemma_remove_first_subset(t, x);
        let r = seq![s[0]] + remove_first(t, x);
        assert forall|y: Seq<char>| r.contains(y) implies s.contains(y) by {
            let k = choose|k: int| 0 <= k < r.len() && r[k] == y;
            if k == 0 {
                assert(s[0] == y);
            } else {
                assert(remove_first(t, x)[k - 1] == y);
                assert(remove_first(t, x).contains(y));
                assert(t.contains(y));
                let k2 = choose|k2: int| 0 <= k2 < t.len() && t[k2] == y;
                assert(s[k2 + 1] == y);
            }
        }
    } else if s.len() > 0 {
        assert forall|y: Seq<char>| s.drop_first().contains(y) implies s.contains(y) by {
            let k = choose|k: int| 0 <= k < s.drop_first().len() && s.drop_first()[k] == y;
            assert(s[k + 1] == y);
        }
    }
}

/// Membership effect of removing the first occurrence from a
/// duplicate-free sequence: the element is gone, everything else stays.
pub proof fn lemma_remove_first_props(s: Seq<Seq<char>>, x: Seq<char>)
    requires
        s.no_duplicates(),
    ensures
        remove_first(s, x).no_duplicates(),
        !remove_first(s, x).contains(x),
        forall|y: Seq<char>| y != x ==> remove_first(s, x).contains(y) == s.contains(y),
        forall|y: Seq<char>| remove_first(s, x).contains(y) ==> s.contains(y),
    decreases s.len(),
{
    if s.len() == 0 {
    } else if s[0] == x {
        let t = s.drop_first();
        assert(t.no_duplicates());
        assert(!t.contains(x)) by {
            if t.contains(x) {
                let k = choose|k: int| 0 <= k < t.len() && t[k] == x;
                assert(s[k + 1] == x && s[0] == x);
            }
        }
        assert forall|y: Seq<char>| y != x implies t.contains(y) == s.contains(y) by {
            if t.contains(y) {
                let k = choose|k: int| 0 <= k < t.len() && t[k] == y;
                assert(s[k + 1] == y);
            }
            if s.contains(y) {
                let k = choose|k: int| 0 <= k < s.len() && s[k] == y;
                assert(k != 0);
                assert(t[k - 1] == y);
            }
        }
    } else {
        let t = s.drop_first();
        assert(t.no_duplicates());
        lemma_remove_first_props(t, x);
        let r = seq![s[0]] + remove_first(t, x);
        assert(remove_first(s, x) == r);
        assert forall|y: Seq<char>| r.contains(y) implies (y == s[0] || remove_first(
            t,
            x,
        ).contains(y)) by {
            let k = choose|k: int| 0 <= k < r.len() && r[k] == y;
            if k > 0 {
                assert(remove_first(t, x)[k - 1] == y);
            }
        }
        assert forall|y: Seq<char>| remove_first(t, x).contains(y) implies r.contains(y) by {
            let k = choose|k: int| 0 <= k < remove_first(t, x).len() && remove_first(t, x)[k]
                == y;
            assert(r[k + 1] == y);
        }
        assert(r.contains(s[0])) by {
            assert(r[0] == s[0]);
        }
        assert(!t.contains(s[0])) by {
            if t.contains(s[0]) {
                let k = choose|k: int| 0 <= k < t.len() && t[k] == s[0];
                assert(s[k + 1] == s[0]);
            }
        }
        assert(!remove_first(t, x).contains(s[0]));
        assert(r.no_duplicates()) by {
            assert forall|a: int, b: int|
                0 <= a < r.len() && 0 <= b < r.len() && a != b implies r[a] != r[b] by {
                if a == 0 && b > 0 {
                    assert(r[b] == remove_first(t, x)[b - 1]);
                    assert(remove_first(t, x).contains(remove_first(t, x)[b - 1]));
                } else if b == 0 && a > 0 {
                    assert(r[a] == remove_first(t, x)[a - 1]);
                    assert(remove_first(t, x).contains(remove_first(t, x)[a - 1]));
                } else if a > 0 && b > 0 {
                    assert(r[a] == remove_first(t, x)[a - 1] && r[b] == remove_first(t, x)[b
                        - 1]);
                }
            }
        }
        assert forall|y: Seq<char>| y != x implies r.contains(y) == s.contains(y) by {
            if s.contains(y) {
                let k = choose|k: int| 0 <= k < s.len() && s[k] == y;
                if k == 0 {
                } else {
                    assert(t[k - 1] == y);
                    assert(t.contains(y));
                }
            }
            if r.contains(y) {
                if y == s[0] {
                    assert(s.contains(y)) by {
                        assert(s[0] == y);
                    }
                } else {
                    assert(remove_first(t, x).contains(y));
                    assert(t.contains(y));
                    let k = choose|k: int| 0 <= k < t.len() && t[k] == y;
                    assert(s[k + 1] == y);
                }
            }
        }
    }
}

proof fn lemma_remove_first_at(s: Seq<Seq<char>>, x: Seq<char>, i: int)
    requires
        0 <= i < s.len(),
        s[i] == x,
        forall|k: int| 0 <= k < i ==> s[k] != x,
    ensures
        remove_first(s, x) == s.subrange(0, i) + s.subrange(i + 1, s.len() as int),
    decreases i,
{
    if i == 0 {
        assert(remove_first(s, x) == s.drop_first());
        assert(s.drop_first() =~= s.subrange(0, 0) + s.subrange(1, s.len() as int));
    } else {
        assert(s[0] != x);
        lemma_remove_first_at(s.drop_first(), x, i - 1);
        assert(s.drop_first().subrange(0, i - 1) =~= s.subrange(1, i));
        assert(s.drop_first().subrange(i, s.len() - 1) =~= s.subrange(i + 1, s.len() as int));
        assert(seq![s[0]] + (s.subrange(1, i) + s.subrange(i + 1, s.len() as int)) =~= s.subrange(
            0,
            i,
        ) + s.subrange(i + 1, s.len() as int));
    }
}

proof fn lemma_remove_at_membership(s: Seq<Seq<char>>, x: Seq<char>, i: int)
    requires
        0 <= i < s.len(),
        s[i] == x,
        s.no_duplicates(),
    ensures
        (s.subrange(0, i) + s.subrange(i + 1, s.len() as int)).no_duplicates(),
        !(s.subrange(0, i) + s.subrange(i + 1, s.len() as int)).contains(x),
        forall|y: Seq<char>|
            y != x ==> ((s.subrange(0, i) + s.subrange(i + 1, s.len() as int)).contains(y)
                == s.contains(y)),
{
    let t = s.subrange(0, i) + s.subrange(i + 1, s.len() as int);
    assert forall|y: Seq<char>| y != x && s.contains(y) implies t.contains(y) by {
        let k = choose|k: int| 0 <= k < s.len() && s[k] == y;
        if k < i {
            assert(t[k] == y);
        } else {
            assert(t[k - 1] == y);
        }
    }
    assert forall|k1: int, k2: int| 0 <= k1 < k2 < t.len() implies t[k1] != t[k2] by {
        let m1 = if k1 < i {
            k1
        } else {
            k1 + 1
        };
        let m2 = if k2 < i {
            k2
        } else {
            k2 + 1
        };
        assert(t[k1] == s[m1] && t[k2] == s[m2]);
    }
    assert forall|k: int| 0 <= k < t.len() implies t[k] != x by {
        let m = if k < i {
            k
        } else {
            k + 1
        };
        assert(t[k] == s[m]);
    }
}

proof fn lemma_remove_first_absent(s: Seq<Seq<char>>, x: Seq<char>)
    requires
        !s.contains(x),
    ensures
        remove_first(s, x) == s,
    decreases s.len(),
{
    if s.len() > 0 {
        assert(s[0] != x);
        assert(!s.drop_first().contains(x)) by {
            if s.drop_first().contains(x) {
                let k = choose|k: int| 0 <= k < s.drop_first().len() && s.drop_first()[k] == x;
                assert(s[k + 1] == x);
            }
        }
        lemma_remove_first_absent(s.drop_first(), x);
        assert(seq![s[0]] + s.drop_first() =~= s);
    }
}

pub proof fn seq_filter_push(s: Seq<Seq<char>>, x: Seq<char>, pred: spec_fn(Seq<char>) -> bool)
    ensures
        s.push(x).filter(pred) == if pred(x) {
            s.filter(pred).push(x)
        } else {
            s.filter(pred)
        },
{
    reveal(Seq::filter);
    assert(s.push(x).drop_last() =~= s);
}

pub proof fn lemma_filter_no_duplicates(s: Seq<Seq<char>>, pred: spec_fn(Seq<char>) -> bool)
    requires
        s.no_duplicates(),
    ensures
        s.filter(pred).no_duplicates(),
        forall|x: Seq<char>| s.filter(pred).contains(x) ==> s.contains(x),
    decreases s.len(),
{
    reveal(Seq::filter);
    if s.len() == 0 {
    } else {
        let sub = s.drop_last();
        assert(sub.no_duplicates());
        lemma_filter_no_duplicates(sub, pred);
        let fsub = sub.filter(pred);
        assert forall|x: Seq<char>| sub.contains(x) implies s.contains(x) by {
            let k = choose|k: int| 0 <= k < sub.len() && sub[k] == x;
            assert(s[k] == x);
        }
        if pred(s.last()) {
            let t = fsub.push(s.last());
            assert(s.filter(pred) == t);
            assert(!sub.contains(s.last())) by {
                if sub.contains(s.last()) {
                    let k = choose|k: int| 0 <= k < sub.len() && sub[k] == s.last();
                    assert(s[k] == s[s.len() - 1]);
                }
            }
            assert(!fsub.contains(s.last()));
            assert forall|i: int, j: int|
                0 <= i < t.len() && 0 <= j < t.len() && i != j implies t[i] != t[j] by {
                if i < t.len() - 1 && j < t.len() - 1 {
                    assert(t[i] == fsub[i] && t[j] == fsub[j]);
                } else if j == t.len() - 1 && i < j {
                    assert(t[i] == fsub[i]);
                    assert(fsub.contains(fsub[i]));
                } else if i == t.len() - 1 && j < i {
                    assert(t[j] == fsub[j]);
                    assert(fsub.contains(fsub[j]));
                }
            }
            assert forall|x: Seq<char>| t.contains(x) implies s.contains(x) by {
                let k = choose|k: int| 0 <= k < t.len() && t[k] == x;
                if k < t.len() - 1 {
                    assert(fsub.contains(x));
                } else {
                    assert(s[s.len() - 1] == x);
                }
            }
        }
    }
}

} // verus!
