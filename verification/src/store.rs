//! The in-memory record store: per-hostname announcement state plus the
//! bookkeeping sets that drive reconciliation.
//!
//! - `pending`: hosts whose record changed since the zone last reflected it;
//! - `forced`: hosts an operator authorized for first-time addition;
//! - `unreconciled`: hosts the last cycle could not place.
//!
//! The store is a single-owner value; the caller provides whatever locking
//! its runtime needs around it.

use vstd::prelude::*;
use vstd::pervasive::VecAdditionalExecFns;
use crate::record::{Record, RecordView, record_same};
use crate::sets::StrSet;
use crate::text::{lower_seq, to_lower, str_eq, lemma_lower_idempotent};
use crate::time::Timestamp;

verus! {

/// One host's stored state: the canonical (lower-cased) hostname, the
/// freshest record, and the time of the last update, both as a calendar
/// timestamp and as unix seconds.
pub struct HostEntry {
    pub hostname: String,
    pub record: Record,
    pub stamp: Timestamp,
    pub epoch: i64,
}

/// The mathematical image of a stored host: record image, timestamp, unix
/// seconds.
pub struct HostEntryView {
    pub record: RecordView,
    pub stamp: Timestamp,
    pub epoch: i64,
}

impl View for HostEntry {
    type V = HostEntryView;

    open spec fn view(&self) -> HostEntryView {
        HostEntryView { record: self.record@, stamp: self.stamp, epoch: self.epoch }
    }
}

impl Clone for HostEntry {
    /// Cloning preserves the key and the image.
    fn clone(&self) -> (r: Self)
        ensures
            r@ == self@,
            r.hostname@ == self.hostname@,
    {
        HostEntry {
            hostname: crate::sets::clone_string(&self.hostname),
            record: self.record.clone(),
            stamp: self.stamp,
            epoch: self.epoch,
        }
    }
}

/// The hostnames of a run of entries, in order.
pub open spec fn entries_keys(s: Seq<HostEntry>) -> Seq<Seq<char>> {
    Seq::new(s.len(), |i: int| s[i].hostname@)
}

/// The map from hostname to stored state that a run of entries denotes.
pub open spec fn entries_map(s: Seq<HostEntry>) -> Map<Seq<char>, HostEntryView>
    decreases s.len(),
{
    if s.len() == 0 {
        Map::empty()
    } else {
        entries_map(s.drop_last()).insert(s.last().hostname@, s.last()@)
    }
}

pub proof fn lemma_entries_map_domain(s: Seq<HostEntry>)
    ensures
        forall|k: Seq<char>|
            entries_map(s).dom().contains(k) <==> entries_keys(s).contains(k),
    decreases s.len(),
{
    if s.len() > 0 {
        lemma_entries_map_domain(s.drop_last());
        assert(entries_map(s) == entries_map(s.drop_last()).insert(
            s.last().hostname@,
            s.last()@,
        ));
        assert forall|k: Seq<char>|
            entries_map(s).dom().contains(k) implies entries_keys(s).contains(k) by {
            if k == s.last().hostname@ {
                assert(entries_keys(s)[s.len() - 1] == k);
            } else {
                assert(entries_map(s.drop_last()).dom().contains(k));
                assert(entries_keys(s.drop_last()).contains(k));
                let j = choose|j: int|
                    0 <= j < entries_keys(s.drop_last()).len() && entries_keys(s.drop_last())[j]
                        == k;
                assert(entries_keys(s)[j] == k);
            }
        }
        assert forall|k: Seq<char>|
            entries_keys(s).contains(k) implies entries_map(s).dom().contains(k) by {
            let j = choose|j: int|
                0 <= j < entries_keys(s).len() && entries_keys(s)[j] == k;
            if j < s.len() - 1 {
                assert(entries_keys(s.drop_last())[j] == k);
                assert(entries_keys(s.drop_last()).contains(k));
                assert(entries_map(s.drop_last()).dom().contains(k));
            }
        }
    }
}

pub proof fn lemma_entries_map_index(s: Seq<HostEntry>, i: int)
    requires
        0 <= i < s.len(),
        entries_keys(s).no_duplicates(),
    ensures
        entries_map(s).dom().contains(s[i].hostname@),
        entries_map(s)[s[i].hostname@] == s[i]@,
    decreases s.len(),
{
    if i < s.len() - 1 {
        assert(entries_keys(s.drop_last()) =~= entries_keys(s).drop_last());
        assert(entries_keys(s.drop_last()).no_duplicates());
        lemma_entries_map_index(s.drop_last(), i);
        assert(entries_keys(s)[i] != entries_keys(s)[s.len() - 1]);
    }
}

/// An entry replaced in place, key unchanged, shows up in the map as an
/// insertion of the new state.
pub proof fn lemma_entries_map_update(s: Seq<HostEntry>, i: int, e: HostEntry)
    requires
        0 <= i < s.len(),
        entries_keys(s).no_duplicates(),
        e.hostname@ == s[i].hostname@,
    ensures
        entries_keys(s.update(i, e)) =~= entries_keys(s),
        entries_map(s.update(i, e)) == entries_map(s).insert(e.hostname@, e@),
    decreases s.len(),
{
    assert(entries_keys(s.update(i, e)) =~= entries_keys(s));
    if i == s.len() - 1 {
        assert(s.update(i, e).drop_last() =~= s.drop_last());
        assert(s.update(i, e).last() == e);
        assert(entries_map(s.drop_last()).insert(s.last().hostname@, s.last()@).insert(
            e.hostname@,
            e@,
        ) =~= entries_map(s.drop_last()).insert(e.hostname@, e@));
    } else {
        assert(entries_keys(s.drop_last()) =~= entries_keys(s).drop_last());
        lemma_entries_map_update(s.drop_last(), i, e);
        assert(s.update(i, e).drop_last() =~= s.drop_last().update(i, e));
        assert(s.update(i, e).last() == s.last());
        assert(entries_keys(s)[i] != entries_keys(s)[s.len() - 1]);
        assert(entries_map(s.drop_last()).insert(e.hostname@, e@).insert(
            s.last().hostname@,
            s.last()@,
        ) =~= entries_map(s.drop_last()).insert(s.last().hostname@, s.last()@).insert(
            e.hostname@,
            e@,
        ));
    }
}

/// Validity of one stored entry: well-formed record and timestamp, the
/// record keyed consistently, and the key already lower-cased.
pub open spec fn entry_ok(e: HostEntry) -> bool {
    &&& e.record.wf()
    &&& e.stamp.wf()
    &&& e.record.hostname@ == e.hostname@
    &&& lower_seq(e.hostname@) == e.hostname@
}

/// Validity of the entry run: unique keys, each entry valid.
pub open spec fn hosts_wf(hs: Seq<HostEntry>) -> bool {
    &&& entries_keys(hs).no_duplicates()
    &&& forall|i: int| 0 <= i < hs.len() ==> entry_ok(#[trigger] hs[i])
}

/// Every pending host is known to the store.
pub open spec fn pending_covered(p: Seq<Seq<char>>, hs: Seq<HostEntry>) -> bool {
    forall|k: Seq<char>| p.contains(k) ==> #[trigger] entries_keys(hs).contains(k)
}

/// A record image with its hostname replaced by the canonical key.
pub open spec fn with_hostname(r: RecordView, key: Seq<char>) -> RecordView {
    RecordView {
        hostname: key,
        version: r.version,
        remote_addr: r.remote_addr,
        ether: r.ether,
        inet: r.inet,
        inet6: r.inet6,
    }
}

/// Index of the entry keyed by `key` in a run of entries, if any.
pub fn find_entry(hosts: &Vec<HostEntry>, key: &str) -> (r: Option<usize>)
    requires
        entries_keys(hosts@).no_duplicates(),
    ensures
        match r {
            Option::Some(i) => i < hosts@.len() && hosts@[i as int].hostname@ == key@,
            Option::None => !entries_map(hosts@).dom().contains(key@),
        },
{
    let n = hosts.len();
    let mut i: usize = 0;
    while i < n
        invariant
            n == hosts@.len(),
            i <= n,
            forall|k: int| 0 <= k < i ==> hosts@[k].hostname@ != key@,
        decreases n - i,
    {
        if str_eq(hosts[i].hostname.as_str(), key) {
            return Option::Some(i);
        }
        i += 1;
    }
    proof {
        lemma_entries_map_domain(hosts@);
        if entries_map(hosts@).dom().contains(key@) {
            assert(entries_keys(hosts@).contains(key@));
            let j = choose|j: int|
                0 <= j < entries_keys(hosts@).len() && entries_keys(hosts@)[j] == key@;
            assert(hosts@[j].hostname@ == key@);
        }
    }
    Option::None
}

/// Whether taking `rec` changes the stored record: the key is new, or the
/// stored record differs from the announcement.
pub open spec fn ingest_changed(m: Map<Seq<char>, HostEntryView>, rec: RecordView) -> bool {
    let key = lower_seq(rec.hostname);
    !(m.dom().contains(key) && record_same(m[key].record, with_hostname(rec, key)))
}

/// The host map after taking `rec`: the record replaced on change, kept
/// otherwise, the update times always refreshed.
pub open spec fn ingest_hosts(
    m: Map<Seq<char>, HostEntryView>,
    rec: RecordView,
    now: Timestamp,
    epoch: i64,
) -> Map<Seq<char>, HostEntryView> {
    let key = lower_seq(rec.hostname);
    m.insert(
        key,
        HostEntryView {
            record: if ingest_changed(m, rec) {
                with_hostname(rec, key)
            } else {
                m[key].record
            },
            stamp: now,
            epoch,
        },
    )
}

/// The pending set after taking `rec`: the key joins it exactly on change.
pub open spec fn ingest_pending(
    p: Seq<Seq<char>>,
    m: Map<Seq<char>, HostEntryView>,
    rec: RecordView,
) -> Seq<Seq<char>> {
    let key = lower_seq(rec.hostname);
    if ingest_changed(m, rec) && !p.contains(key) {
        p.push(key)
    } else {
        p
    }
}

/// The concurrent keyed state of the daemon (single-owner value; see the
/// module note on locking).
pub struct RecordStore {
    pub hosts: Vec<HostEntry>,
    pub pending: StrSet,
    pub forced: StrSet,
    pub unreconciled: StrSet,
}

impl RecordStore {
    /// The hostname-to-state map this store denotes.
    pub open spec fn hosts_map(self) -> Map<Seq<char>, HostEntryView> {
        entries_map(self.hosts@)
    }

    /// Validity: unique lower-cased keys, records keyed consistently,
    /// well-formed sets, and every pending host known to the store.
    pub open spec fn wf(self) -> bool {
        &&& hosts_wf(self.hosts@)
        &&& self.pending@.no_duplicates()
        &&& self.forced@.no_duplicates()
        &&& self.unreconciled@.no_duplicates()
        &&& pending_covered(self.pending@, self.hosts@)
    }

    pub fn new() -> (r: RecordStore)
        ensures
            r.wf(),
            r.hosts_map() == Map::<Seq<char>, HostEntryView>::empty(),
            r.pending@.len() == 0,
            r.forced@.len() == 0,
            r.unreconciled@.len() == 0,
    {
        RecordStore {
            hosts: Vec::new(),
            pending: StrSet::new(),
            forced: StrSet::new(),
            unreconciled: StrSet::new(),
        }
    }

    /// Index of the entry keyed by `key`, if any.
    fn find_host(&self, key: &str) -> (r: Option<usize>)
        requires
            self.wf(),
        ensures
            match r {
                Option::Some(i) => i < self.hosts@.len() && self.hosts@[i as int].hostname@
                    == key@,
                Option::None => !self.hosts_map().dom().contains(key@),
            },
    {
        find_entry(&self.hosts, key)
    }

    /// Takes one announcement: normalizes the hostname, compares against the
    /// stored record, stores the new record and marks the host pending when
    /// they differ, and always refreshes the host's update time.  Returns
    /// whether the record changed.
    pub fn ingest(&mut self, rec: Record, now: Timestamp, epoch: i64) -> (changed: bool)
        requires
            old(self).wf(),
            rec.wf(),
            now.wf(),
        ensures
            final(self).wf(),
            changed == ingest_changed(old(self).hosts_map(), rec@),
            final(self).hosts_map() == ingest_hosts(old(self).hosts_map(), rec@, now, epoch),
            final(self).pending@ == ingest_pending(
                old(self).pending@,
                old(self).hosts_map(),
                rec@,
            ),
            final(self).forced@ == old(self).forced@,
            final(self).unreconciled@ == old(self).unreconciled@,
    {
        let key = to_lower(rec.hostname.as_str());
        let key2 = crate::sets::clone_string(&key);
        let key3 = crate::sets::clone_string(&key);
        let rec2 = Record {
            hostname: key2,
            version: rec.version,
            remote_addr: rec.remote_addr,
            ether: rec.ether,
            inet: rec.inet,
            inet6: rec.inet6,
        };
        assert(rec2@ == with_hostname(rec@, lower_seq(rec@.hostname)));
        let ghost kview = lower_seq(rec@.hostname);
        let ghost map0 = self.hosts_map();
        let found = self.find_host(key.as_str());
        let changed: bool;
        match found {
            Option::Some(i) => {
                proof {
                    lemma_entries_map_index(self.hosts@, i as int);
                }
                let same = self.hosts[i].record.same_as(&rec2);
                changed = !same;
                let entry = if changed {
                    HostEntry { hostname: key3, record: rec2, stamp: now, epoch }
                } else {
                    HostEntry {
                        hostname: key3,
                        record: self.hosts[i].record.clone(),
                        stamp: now,
                        epoch,
                    }
                };
                let ghost before = self.hosts@;
                proof {
                    lemma_entries_map_update(before, i as int, entry);
                    lemma_lower_idempotent(rec@.hostname);
                    assert(entry_ok(entry));
                }
                self.hosts.set(i, entry);
                proof {
                    assert(self.hosts@ == before.update(i as int, entry));
                    assert(entries_keys(self.hosts@) == entries_keys(before));
                    assert forall|j: int|
                        0 <= j < self.hosts@.len() implies entry_ok(#[trigger] self.hosts@[j]) by {
                        if j == i {
                        } else {
                            assert(self.hosts@[j] == before[j]);
                            assert(entry_ok(before[j]));
                        }
                    }
                    assert(hosts_wf(self.hosts@));
                    assert(self.hosts_map() == map0.insert(kview, entry@));
                    assert(pending_covered(self.pending@, self.hosts@));
                }
            },
            Option::None => {
                changed = true;
                let entry = HostEntry { hostname: key3, record: rec2, stamp: now, epoch };
                let ghost before = self.hosts@;
                self.hosts.push(entry);
                proof {
                    lemma_lower_idempotent(rec@.hostname);
                    assert(entry_ok(entry));
                    assert(self.hosts@.drop_last() =~= before);
                    assert(self.hosts@.last() == entry);
                    let ks = entries_keys(self.hosts@);
                    assert(ks =~= entries_keys(before).push(entry.hostname@));
                    lemma_entries_map_domain(before);
                    assert(!entries_keys(before).contains(entry.hostname@));
                    assert forall|a: int, b: int|
                        0 <= a < ks.len() && 0 <= b < ks.len() && a != b implies ks[a] != ks[b] by {
                        if a < ks.len() - 1 && b < ks.len() - 1 {
                            assert(ks[a] == entries_keys(before)[a]);
                            assert(ks[b] == entries_keys(before)[b]);
                        } else if a == ks.len() - 1 {
                            assert(ks[b] == entries_keys(before)[b]);
                            assert(entries_keys(before).contains(entries_keys(before)[b]));
                        } else {
                            assert(ks[a] == entries_keys(before)[a]);
                            assert(entries_keys(before).contains(entries_keys(before)[a]));
                        }
                    }
                    assert forall|j: int|
                        0 <= j < self.hosts@.len() implies entry_ok(#[trigger] self.hosts@[j]) by {
                        if j < self.hosts@.len() - 1 {
                            assert(self.hosts@[j] == before[j]);
                            assert(entry_ok(before[j]));
                        }
                    }
                    assert(hosts_wf(self.hosts@));
                    assert(self.hosts_map() == map0.insert(kview, entry@));
                    assert(pending_covered(self.pending@, self.hosts@)) by {
                        assert forall|k: Seq<char>|
                            self.pending@.contains(k) implies #[trigger] entries_keys(
                            self.hosts@,
                        ).contains(k) by {
                            assert(entries_keys(before).contains(k));
                            let j = choose|j: int|
                                0 <= j < entries_keys(before).len() && entries_keys(before)[j]
                                    == k;
                            assert(entries_keys(self.hosts@)[j] == k);
                        }
                    }
                }
            },
        }
        if changed {
            proof {
                lemma_entries_map_domain(self.hosts@);
                assert(self.hosts_map().dom().contains(kview));
                assert(entries_keys(self.hosts@).contains(kview));
            }
            let ghost pend_pre = self.pending@;
            self.pending.insert_item(key);
            proof {
                assert forall|k: Seq<char>|
                    self.pending@.contains(k) implies #[trigger] entries_keys(
                    self.hosts@,
                ).contains(k) by {
                    if k != kview {
                        assert(pend_pre.contains(k)) by {
                            if !pend_pre.contains(k) {
                                if pend_pre.contains(kview) {
                                    assert(self.pending@ == pend_pre);
                                } else {
                                    assert(self.pending@ == pend_pre.push(kview));
                                    let t = choose|t: int|
                                        0 <= t < self.pending@.len() && self.pending@[t] == k;
                                    assert(t < pend_pre.len());
                                    assert(pend_pre[t] == k);
                                }
                            }
                        }
                    }
                }
            }
        }
        changed
    }

    /// Records operator authorization for a hostname to be newly added to
    /// the zone.
    pub fn mark_forced(&mut self, host: &str)
        requires
            old(self).wf(),
        ensures
            final(self).wf(),
            final(self).forced@ == if old(self).forced@.contains(lower_seq(host@)) {
                old(self).forced@
            } else {
                old(self).forced@.push(lower_seq(host@))
            },
            final(self).hosts@ == old(self).hosts@,
            final(self).pending@ == old(self).pending@,
            final(self).unreconciled@ == old(self).unreconciled@,
    {
        let key = to_lower(host);
        self.forced.insert_item(key);
    }

    /// Replaces the unreconciled set wholesale (the reconciler's residue).
    pub fn set_unreconciled(&mut self, u: StrSet)
        requires
            old(self).wf(),
            u.wf(),
        ensures
            final(self).wf(),
            final(self).unreconciled@ == u@,
            final(self).hosts@ == old(self).hosts@,
            final(self).pending@ == old(self).pending@,
            final(self).forced@ == old(self).forced@,
    {
        self.unreconciled = u;
    }

    /// End-of-cycle bookkeeping: every processed host leaves `pending`, and
    /// leaves `forced` as well when the cycle's forced snapshot held it.
    pub fn finish_cycle(&mut self, processed: &StrSet, forced_snapshot: &StrSet)
        requires
            old(self).wf(),
        ensures
            final(self).wf(),
            forall|x: Seq<char>|
                final(self).pending@.contains(x) <==> (old(self).pending@.contains(x)
                    && !processed@.contains(x)),
            forall|x: Seq<char>|
                final(self).forced@.contains(x) <==> (old(self).forced@.contains(x) && !(
                processed@.contains(x) && forced_snapshot@.contains(x))),
            final(self).hosts@ == old(self).hosts@,
            final(self).unreconciled@ == old(self).unreconciled@,
    {
        let ghost p0 = old(self).pending@;
        let ghost f0 = old(self).forced@;
        let n = processed.len();
        let mut j: usize = 0;
        while j < n
            invariant
                self.wf(),
                p0 == old(self).pending@,
                f0 == old(self).forced@,
                n == processed@.len(),
                j <= n,
                self.hosts@ == old(self).hosts@,
                self.unreconciled@ == old(self).unreconciled@,
                forall|x: Seq<char>|
                    self.pending@.contains(x) <==> (p0.contains(x) && !processed@.subrange(
                        0,
                        j as int,
                    ).contains(x)),
                forall|x: Seq<char>|
                    self.forced@.contains(x) <==> (f0.contains(x) && !(processed@.subrange(
                        0,
                        j as int,
                    ).contains(x) && forced_snapshot@.contains(x))),
            decreases n - j,
        {
            let ghost pj = processed@.subrange(0, j as int);
            let ghost pj1 = processed@.subrange(0, j + 1 as int);
            proof {
                assert(pj1 =~= pj.push(processed@[j as int]));
                assert forall|x: Seq<char>|
                    pj1.contains(x) implies (pj.contains(x) || x == processed@[j as int]) by {
                    let t = choose|t: int| 0 <= t < pj1.len() && pj1[t] == x;
                    if t < pj.len() {
                        assert(pj[t] == x);
                    }
                }
                assert forall|x: Seq<char>|
                    (pj.contains(x) || x == processed@[j as int]) implies pj1.contains(x) by {
                    if pj.contains(x) {
                        let t = choose|t: int| 0 <= t < pj.len() && pj[t] == x;
                        assert(pj1[t] == x);
                    } else {
                        assert(pj1[pj.len() as int] == x);
                    }
                }
            }
            let h = processed.get(j);
            let hc = crate::sets::clone_string(h);
            let ghost hview = hc@;
            let ghost pend_pre = self.pending@;
            let ghost forced_pre = self.forced@;
            self.pending.remove_item(hc.as_str());
            let in_snap = forced_snapshot.contains_item(hc.as_str());
            if in_snap {
                self.forced.remove_item(hc.as_str());
            }
            proof {
                assert(pj1.contains(hview));
                assert forall|x: Seq<char>|
                    self.pending@.contains(x) == (p0.contains(x) && !pj1.contains(x)) by {
                    assert(pend_pre.contains(x) == (p0.contains(x) && !pj.contains(x)));
                    if x == hview {
                        assert(!self.pending@.contains(x));
                    } else {
                        assert(self.pending@.contains(x) == pend_pre.contains(x));
                        assert(pj1.contains(x) == pj.contains(x));
                    }
                }
                assert forall|x: Seq<char>|
                    self.forced@.contains(x) == (f0.contains(x) && !(pj1.contains(x)
                        && forced_snapshot@.contains(x))) by {
                    assert(forced_pre.contains(x) == (f0.contains(x) && !(pj.contains(x)
                        && forced_snapshot@.contains(x))));
                    if in_snap {
                        if x == hview {
                            assert(!self.forced@.contains(x));
                        } else {
                            assert(self.forced@.contains(x) == forced_pre.contains(x));
                            assert(pj1.contains(x) == pj.contains(x));
                        }
                    } else {
                        assert(self.forced@ == forced_pre);
                        if x == hview {
                            assert(!forced_snapshot@.contains(x));
                        } else {
                            assert(pj1.contains(x) == pj.contains(x));
                        }
                    }
                }
                assert(pending_covered(self.pending@, self.hosts@)) by {
                    assert forall|k: Seq<char>|
                        self.pending@.contains(k) implies #[trigger] entries_keys(
                        self.hosts@,
                    ).contains(k) by {
                        assert(pend_pre.contains(k) == (p0.contains(k) && !pj.contains(k)));
                        assert(p0.contains(k));
                    }
                }
            }
            j += 1;
        }
        proof {
            assert(processed@.subrange(0, n as int) =~= processed@);
        }
    }
}


/// Structural record equality carries across to an equal announcement.
proof fn lemma_record_same_trans(a: RecordView, b: RecordView, c: RecordView)
    requires
        record_same(a, b),
        record_same(b, c),
    ensures
        record_same(a, c),
{
}

/// Law: `Ingest` called twice with an identical announcement — the same
/// hostname and fields, the address sets equal as sets whatever their
/// order — does not add the hostname to `pending` on the second call,
/// while both calls refresh the host's update times.
pub proof fn lemma_second_ingest_no_change(
    m: Map<Seq<char>, HostEntryView>,
    p: Seq<Seq<char>>,
    rec1: RecordView,
    rec2: RecordView,
    t1: Timestamp,
    e1: i64,
    t2: Timestamp,
    e2: i64,
)
    requires
        rec1.hostname == rec2.hostname,
        rec1.version == rec2.version,
        rec1.remote_addr == rec2.remote_addr,
        crate::record::opt_set_eq(rec1.ether, rec2.ether),
        crate::record::opt_set_eq(rec1.inet, rec2.inet),
        crate::record::opt_set_eq(rec1.inet6, rec2.inet6),
    ensures
        ({
            let key = lower_seq(rec1.hostname);
            let m1 = ingest_hosts(m, rec1, t1, e1);
            let p1 = ingest_pending(p, m, rec1);
            &&& !ingest_changed(m1, rec2)
            &&& ingest_pending(p1, m1, rec2) == p1
            &&& m1[key].stamp == t1 && m1[key].epoch == e1
            &&& ingest_hosts(m1, rec2, t2, e2)[key].stamp == t2
            &&& ingest_hosts(m1, rec2, t2, e2)[key].epoch == e2
        }),
{
    let key = lower_seq(rec1.hostname);
    let s1 = with_hostname(rec1, key);
    let s2 = with_hostname(rec2, key);
    assert(record_same(s1, s2));
    let m1 = ingest_hosts(m, rec1, t1, e1);
    if ingest_changed(m, rec1) {
        assert(m1[key].record == s1);
    } else {
        assert(record_same(m[key].record, s1));
        lemma_record_same_trans(m[key].record, s1, s2);
    }
}


/// One row of the display/dump output: the record, the rendered update
/// time, and the unix seconds.
pub struct DumpEntry {
    pub record: Record,
    pub datetime: String,
    pub t: i64,
}

/// The display image of a dump row.
pub open spec fn dump_view(d: DumpEntry) -> (RecordView, Seq<char>, i64) {
    (d.record@, d.datetime@, d.t)
}

/// The display image a stored host should produce.
pub open spec fn entry_dump_view(e: HostEntry) -> (RecordView, Seq<char>, i64) {
    (e.record@, crate::time::ts_format(e.stamp), e.epoch)
}

/// Inserting anywhere adds exactly one occurrence to the multiset.
proof fn lemma_insert_to_multiset(s: Seq<DumpEntry>, i: int, e: DumpEntry)
    requires
        0 <= i <= s.len(),
    ensures
        s.insert(i, e).to_multiset() == s.to_multiset().insert(e),
{
    broadcast use vstd::seq_lib::group_to_multiset_ensures;

    let pre = s.subrange(0, i);
    let post = s.subrange(i, s.len() as int);
    assert(s.insert(i, e) =~= pre + (seq![e] + post));
    assert(s =~= pre + post);
    vstd::seq_lib::lemma_multiset_commutative(pre, seq![e] + post);
    vstd::seq_lib::lemma_multiset_commutative(pre, post);
    assert(seq![e] + post =~= post.insert(0, e));
    assert(post.insert(0, e) =~= post.reverse().push(e).reverse()) by {
        assert(post.insert(0, e).len() == post.len() + 1);
        assert(post.reverse().push(e).reverse().len() == post.len() + 1);
        assert forall|k: int| 0 <= k < post.len() + 1 implies post.insert(0, e)[k]
            == post.reverse().push(e).reverse()[k] by {
            if k == 0 {
            }
        }
    }
    post.reverse().push(e).lemma_reverse_to_multiset();
    post.lemma_reverse_to_multiset();
    assert((seq![e] + post).to_multiset() =~= post.to_multiset().insert(e));
    assert(s.insert(i, e).to_multiset() =~= pre.to_multiset().add(
        post.to_multiset().insert(e),
    ));
    assert(s.to_multiset().insert(e) =~= pre.to_multiset().add(post.to_multiset()).insert(e));
    assert(pre.to_multiset().add(post.to_multiset().insert(e)) =~= pre.to_multiset().add(
        post.to_multiset(),
    ).insert(e));
}

/// Inserts a row into a run sorted by hostname, keeping it sorted.
fn insert_sorted(out: &mut Vec<DumpEntry>, e: DumpEntry)
    requires
        forall|i: int, j: int|
            0 <= i < j < old(out)@.len() ==> crate::text::lex_le(
                #[trigger] old(out)@[i].record.hostname@,
                #[trigger] old(out)@[j].record.hostname@,
            ),
    ensures
        final(out)@.len() == old(out)@.len() + 1,
        final(out)@.to_multiset() == old(out)@.to_multiset().insert(e),
        forall|i: int, j: int|
            0 <= i < j < final(out)@.len() ==> crate::text::lex_le(
                #[trigger] final(out)@[i].record.hostname@,
                #[trigger] final(out)@[j].record.hostname@,
            ),
{
    let ghost before = out@;
    let n = out.len();
    let mut pos: usize = 0;
    while pos < n && crate::text::str_lex_le(
        out[pos].record.hostname.as_str(),
        e.record.hostname.as_str(),
    )
        invariant
            before == out@,
            n == out@.len(),
            pos <= n,
            forall|k: int|
                0 <= k < pos ==> crate::text::lex_le(
                    #[trigger] out@[k].record.hostname@,
                    e.record.hostname@,
                ),
        decreases n - pos,
    {
        pos += 1;
    }
    proof {
        if pos < n {
            crate::text::lemma_lex_le_total(out@[pos as int].record.hostname@, e.record.hostname@);
        }
    }
    let ghost ev = e.record.hostname@;
    out.insert(pos, e);
    proof {
        lemma_insert_to_multiset(before, pos as int, e);
        assert forall|i: int, j: int|
            0 <= i < j < out@.len() implies crate::text::lex_le(
            #[trigger] out@[i].record.hostname@,
            #[trigger] out@[j].record.hostname@,
        ) by {
            let a = if i < pos {
                before[i]
            } else if i == pos {
                e
            } else {
                before[i - 1]
            };
            assert(out@[i] == a);
            let b = if j < pos {
                before[j]
            } else if j == pos {
                e
            } else {
                before[j - 1]
            };
            assert(out@[j] == b);
            if i == pos && j > pos + 1 {
                // e precedes the row at the insertion point, which precedes
                // every later row
                crate::text::lemma_lex_le_trans(
                    ev,
                    before[pos as int].record.hostname@,
                    before[j - 1].record.hostname@,
                );
            }
        }
    }
}

impl RecordStore {
    /// A consistent point-in-time copy of the whole store, for one
    /// reconciliation cycle: entries, pending, forced, unreconciled.
    pub fn snapshot(&self) -> (r: (Vec<HostEntry>, StrSet, StrSet, StrSet))
        requires
            self.wf(),
        ensures
            hosts_wf(r.0@),
            r.0@.len() == self.hosts@.len(),
            forall|i: int|
                0 <= i < r.0@.len() ==> (#[trigger] r.0@[i])@ == self.hosts@[i]@
                    && r.0@[i].hostname@ == self.hosts@[i].hostname@,
            r.1@ == self.pending@,
            r.2@ == self.forced@,
            r.3@ == self.unreconciled@,
            r.1.wf(),
            r.2.wf(),
            r.3.wf(),
    {
        let n = self.hosts.len();
        let mut hs: Vec<HostEntry> = Vec::new();
        let mut i: usize = 0;
        while i < n
            invariant
                self.wf(),
                n == self.hosts@.len(),
                i <= n,
                hs@.len() == i,
                forall|k: int|
                    0 <= k < i ==> (#[trigger] hs@[k])@ == self.hosts@[k]@ && hs@[k].hostname@
                        == self.hosts@[k].hostname@,
            decreases n - i,
        {
            let e = self.hosts[i].clone();
            let ghost hpre = hs@;
            hs.push(e);
            proof {
                assert forall|k: int|
                    0 <= k < i + 1 implies (#[trigger] hs@[k])@ == self.hosts@[k]@
                    && hs@[k].hostname@ == self.hosts@[k].hostname@ by {
                    if k < i {
                        assert(hs@[k] == hpre[k]);
                        assert(hpre[k]@ == self.hosts@[k]@);
                    } else {
                        assert(hs@[k] == e);
                    }
                }
            }
            i += 1;
        }
        proof {
            assert(entries_keys(hs@) =~= entries_keys(self.hosts@));
            assert forall|k: int| 0 <= k < hs@.len() implies entry_ok(#[trigger] hs@[k]) by {
                assert(entry_ok(self.hosts@[k]));
            }
        }
        (hs, self.pending.clone(), self.forced.clone(), self.unreconciled.clone())
    }

    /// The store's contents for display: one row per host with the record,
    /// the rendered update time and the unix seconds, sorted by hostname
    /// for deterministic output.
    pub fn snapshot_for_display(&self) -> (r: Vec<DumpEntry>)
        requires
            self.wf(),
        ensures
            r@.len() == self.hosts@.len(),
            forall|i: int, j: int|
                0 <= i < j < r@.len() ==> crate::text::lex_le(
                    #[trigger] r@[i].record.hostname@,
                    #[trigger] r@[j].record.hostname@,
                ),
            r@.map_values(|d: DumpEntry| dump_view(d)).to_multiset() == self.hosts@.map_values(
                |e: HostEntry| entry_dump_view(e),
            ).to_multiset(),
    {
        broadcast use vstd::seq_lib::group_to_multiset_ensures;

        let n = self.hosts.len();
        let mut out: Vec<DumpEntry> = Vec::new();
        let mut i: usize = 0;
        assert(out@.map_values(|d: DumpEntry| dump_view(d)) =~= Seq::<(
            RecordView,
            Seq<char>,
            i64,
        )>::empty());
        assert(self.hosts@.subrange(0, 0).map_values(|e: HostEntry| entry_dump_view(e)) =~= Seq::<
            (RecordView, Seq<char>, i64),
        >::empty());
        while i < n
            invariant
                self.wf(),
                n == self.hosts@.len(),
                i <= n,
                out@.len() == i,
                forall|a: int, b: int|
                    0 <= a < b < out@.len() ==> crate::text::lex_le(
                        #[trigger] out@[a].record.hostname@,
                        #[trigger] out@[b].record.hostname@,
                    ),
                out@.map_values(|d: DumpEntry| dump_view(d)).to_multiset() == self.hosts@.subrange(
                    0,
                    i as int,
                ).map_values(|e: HostEntry| entry_dump_view(e)).to_multiset(),
            decreases n - i,
        {
            broadcast use vstd::seq_lib::group_to_multiset_ensures;

            let he = &self.hosts[i];
            assert(entry_ok(self.hosts@[i as int]));
            let d = DumpEntry {
                record: he.record.clone(),
                datetime: crate::time::dt_format(&he.stamp),
                t: he.epoch,
            };
            let ghost outpre = out@;
            insert_sorted(&mut out, d);
            proof {
                let f = |d: DumpEntry| dump_view(d);
                let g = |e: HostEntry| entry_dump_view(e);
                assert(dump_view(d) == entry_dump_view(self.hosts@[i as int]));
                lemma_map_multiset_insert(outpre, out@, d);
                assert(self.hosts@.subrange(0, i + 1 as int) =~= self.hosts@.subrange(
                    0,
                    i as int,
                ).push(self.hosts@[i as int]));
                assert(self.hosts@.subrange(0, i + 1 as int).map_values(g) =~= self.hosts@.subrange(
                    0,
                    i as int,
                ).map_values(g).push(g(self.hosts@[i as int])));
            }
            i += 1;
        }
        assert(self.hosts@.subrange(0, n as int) =~= self.hosts@);
        out
    }
}

/// Sequences holding the same multiset of rows map to the same multiset of
/// row images.
proof fn lemma_map_to_multiset_eq(a: Seq<DumpEntry>, b: Seq<DumpEntry>)
    requires
        a.to_multiset() == b.to_multiset(),
    ensures
        a.map_values(|x: DumpEntry| dump_view(x)).to_multiset() == b.map_values(
            |x: DumpEntry| dump_view(x),
        ).to_multiset(),
    decreases a.len(),
{
    broadcast use vstd::seq_lib::group_to_multiset_ensures;

    let f = |x: DumpEntry| dump_view(x);
    if a.len() == 0 {
        assert(b.to_multiset().len() == 0);
        if b.len() > 0 {
            assert(b.drop_last().push(b.last()) =~= b);
            assert(b.to_multiset().len() == b.drop_last().to_multiset().len() + 1);
        }
        assert(b.len() == 0);
        assert(a.map_values(f) =~= Seq::<(RecordView, Seq<char>, i64)>::empty());
        assert(b.map_values(f) =~= Seq::<(RecordView, Seq<char>, i64)>::empty());
    } else {
        let x = a.last();
        let a2 = a.drop_last();
        assert(a2.push(x) =~= a);
        assert(a.to_multiset() == a2.to_multiset().insert(x));
        assert(b.to_multiset().count(x) >= 1) by {
            assert(a.to_multiset().count(x) >= 1);
        }
        assert(b.contains(x));
        let k = choose|k: int| 0 <= k < b.len() && b[k] == x;
        let b2 = b.remove(k);
        assert(b2.to_multiset() =~= b.to_multiset().remove(x));
        assert(a2.to_multiset() =~= a.to_multiset().remove(x));
        assert(a2.to_multiset() == b2.to_multiset());
        lemma_map_to_multiset_eq(a2, b2);
        assert(b.map_values(f).remove(k) =~= b2.map_values(f));
        assert(b.map_values(f)[k] == f(x));
        assert(b.map_values(f).remove(k).to_multiset() =~= b.map_values(f).to_multiset().remove(
            f(x),
        ));
        assert(b.map_values(f).to_multiset().count(f(x)) >= 1) by {
            assert(b.map_values(f).contains(b.map_values(f)[k]));
        }
        assert(b.map_values(f).to_multiset() =~= b2.map_values(f).to_multiset().insert(f(x)));
        assert(a.map_values(f) =~= a2.map_values(f).push(f(x)));
        assert(a.map_values(f).to_multiset() == a2.map_values(f).to_multiset().insert(f(x)));
    }
}

/// Mapping commutes with a multiset insertion.
proof fn lemma_map_multiset_insert(pre: Seq<DumpEntry>, post: Seq<DumpEntry>, d: DumpEntry)
    requires
        post.to_multiset() == pre.to_multiset().insert(d),
    ensures
        post.map_values(|x: DumpEntry| dump_view(x)).to_multiset() == pre.map_values(
            |x: DumpEntry| dump_view(x),
        ).to_multiset().insert(dump_view(d)),
{
    broadcast use vstd::seq_lib::group_to_multiset_ensures;

    let f = |x: DumpEntry| dump_view(x);
    assert(pre.push(d).to_multiset() == pre.to_multiset().insert(d));
    lemma_map_to_multiset_eq(post, pre.push(d));
    assert(pre.push(d).map_values(f) =~= pre.map_values(f).push(f(d)));
    assert(pre.push(d).map_values(f).to_multiset() == pre.map_values(f).to_multiset().insert(
        f(d),
    ));
}

} // verus!
