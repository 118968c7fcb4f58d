//! The zone rewriter: generation of machine-managed zone lines from a
//! record, and the single-pass merge that rewrites a zone file's marked
//! lines from the store's state.  Only lines carrying the `@faddns` sentinel
//! are ever touched; everything else passes through verbatim.

use vstd::prelude::*;
use vstd::string::StringExecFns;
use crate::addr::{ip_restricted, is_ip_restricted};
use crate::record::{Record, RecordView};
use crate::sets::{StrSet, remove_first};
use crate::store::{
    HostEntry, HostEntryView, entries_map, entries_keys, hosts_wf, find_entry,
    lemma_entries_map_index, lemma_entries_map_domain, entry_ok,
};
use crate::text::{
    contains_seq, contains_str, first_token, lower_seq, to_lower, first_token_of,
};
use crate::time::{Timestamp, ts_format, dt_format};

verus! {

/// The sentinel that marks a machine-managed line.
pub open spec fn marker_seq() -> Seq<char> {
    seq!['@', 'f', 'a', 'd', 'd', 'n', 's']
}

/// `\t10M\t`: the fixed TTL column between hostname and record type.
pub open spec fn ttl_sep() -> Seq<char> {
    seq!['\t', '1', '0', 'M', '\t']
}

/// ` ; @faddns `: the comment that tags a generated line.
pub open spec fn comment_sep() -> Seq<char> {
    seq![' ', ';', ' '] + marker_seq() + seq![' ']
}

/// One generated zone line:
/// `<host>\t10M\t<type>\t<address> ; @faddns <timestamp>`.
pub open spec fn render_line(
    host: Seq<char>,
    rtype: Seq<char>,
    addr: Seq<char>,
    t: Timestamp,
) -> Seq<char> {
    host + ttl_sep() + rtype + seq!['\t'] + addr + comment_sep() + ts_format(t)
}

/// The publishable members of an optional address set, in stored order.
pub open spec fn publishable(addrs: Option<Seq<Seq<char>>>) -> Seq<Seq<char>> {
    match addrs {
        Option::Some(s) => s.filter(|a: Seq<char>| !ip_restricted(a)),
        Option::None => Seq::empty(),
    }
}

/// All zone lines generated for one record: one `A` line per publishable
/// IPv4 address, then one `AAAA` line per publishable IPv6 address.  MAC
/// addresses are never emitted.
pub open spec fn bind_lines(rec: RecordView, t: Timestamp) -> Seq<Seq<char>> {
    let host = lower_seq(rec.hostname);
    publishable(rec.inet).map_values(|a: Seq<char>| render_line(host, seq!['A'], a, t))
        + publishable(rec.inet6).map_values(
        |a: Seq<char>| render_line(host, seq!['A', 'A', 'A', 'A'], a, t),
    )
}

/// Whether a line carries the sentinel marker.
pub fn line_is_marked(line: &str) -> (r: bool)
    ensures
        r == contains_seq(line@, marker_seq()),
{
    proof {
        reveal_strlit("@faddns");
        assert("@faddns"@ =~= marker_seq());
    }
    contains_str(line, "@faddns")
}

/// The hostname that owns a line: its first token, lower-cased.
pub open spec fn owner_of(line: Seq<char>) -> Seq<char> {
    lower_seq(first_token(line))
}

/// The hostname that owns a line, as executable code.
pub fn owner_of_line(line: &str) -> (r: String)
    ensures
        r@ == owner_of(line@),
{
    let tok = first_token_of(line);
    to_lower(tok.as_str())
}

fn render_one(host: &str, four: bool, addr: &str, ts: &String, Ghost(t): Ghost<Timestamp>) -> (r:
    String)
    requires
        ts@ == ts_format(t),
    ensures
        four ==> r@ == render_line(host@, seq!['A', 'A', 'A', 'A'], addr@, t),
        !four ==> r@ == render_line(host@, seq!['A'], addr@, t),
{
    let mut r = host.to_owned();
    r.push('\t');
    r.push('1');
    r.push('0');
    r.push('M');
    r.push('\t');
    r.push('A');
    if four {
        r.push('A');
        r.push('A');
        r.push('A');
    }
    r.push('\t');
    r.append(addr);
    r.push(' ');
    r.push(';');
    r.push(' ');
    r.push('@');
    r.push('f');
    r.push('a');
    r.push('d');
    r.push('d');
    r.push('n');
    r.push('s');
    r.push(' ');
    r.append(ts.as_str());
    proof {
        if four {
            assert(r@ =~= render_line(host@, seq!['A', 'A', 'A', 'A'], addr@, t));
        } else {
            assert(r@ =~= render_line(host@, seq!['A'], addr@, t));
        }
    }
    r
}

/// The generated zone lines of a record, one string per line, specified by
/// `bind_lines`.
pub fn bind_line_vec(rec: &Record, t: &Timestamp) -> (r: Vec<String>)
    requires
        rec.wf(),
        t.wf(),
    ensures
        r.deep_view() == bind_lines(rec@, *t),
{
    let host = to_lower(rec.hostname.as_str());
    let ts = dt_format(t);
    let ghost hv = lower_seq(rec@.hostname);
    let ghost fa = |a: Seq<char>| render_line(hv, seq!['A'], a, *t);
    let ghost faaaa = |a: Seq<char>| render_line(hv, seq!['A', 'A', 'A', 'A'], a, *t);
    let ghost pred = |a: Seq<char>| !ip_restricted(a);
    let mut out: Vec<String> = Vec::new();
    match &rec.inet {
        Option::Some(set) => {
            let n = set.items.len();
            let mut i: usize = 0;
            assert(set@.subrange(0, 0) =~= Seq::<Seq<char>>::empty());
            assert(Seq::<Seq<char>>::empty().filter(pred) =~= Seq::<Seq<char>>::empty());
            assert(out.deep_view() =~= set@.subrange(0, 0).filter(pred).map_values(fa));
            while i < n
                invariant
                    n == set@.len(),
                    i <= n,
                    rec@.inet == Option::Some(set@),
                    hv == lower_seq(rec@.hostname),
                    host@ == hv,
                    ts@ == ts_format(*t),
                    fa == (|a: Seq<char>| render_line(hv, seq!['A'], a, *t)),
                    pred == (|a: Seq<char>| !ip_restricted(a)),
                    out.deep_view() == set@.subrange(0, i as int).filter(pred).map_values(fa),
                decreases n - i,
            {
                assert(set@[i as int] == set.items@[i as int]@);
                let ghost dv = out.deep_view();
                if !is_ip_restricted(set.items[i].as_str()) {
                    let line = render_one(
                        host.as_str(),
                        false,
                        set.items[i].as_str(),
                        &ts,
                        Ghost(*t),
                    );
                    out.push(line);
                    assert(out.deep_view() =~= dv.push(fa(set@[i as int])));
                }
                proof {
                    let s0 = set@.subrange(0, i as int);
                    let x = set@[i as int];
                    assert(set@.subrange(0, i + 1 as int) =~= s0.push(x));
                    crate::sets::seq_filter_push(s0, x, pred);
                    if pred(x) {
                        assert(s0.filter(pred).push(x).map_values(fa) =~= s0.filter(
                            pred,
                        ).map_values(fa).push(fa(x)));
                    }
                }
                i += 1;
            }
            assert(set@.subrange(0, n as int) =~= set@);
        },
        Option::None => {
            assert(publishable(rec@.inet) =~= Seq::<Seq<char>>::empty());
        },
    }
    let ghost part1 = publishable(rec@.inet).map_values(fa);
    assert(out.deep_view() =~= part1);
    match &rec.inet6 {
        Option::Some(set) => {
            let n = set.items.len();
            let mut i: usize = 0;
            assert(set@.subrange(0, 0) =~= Seq::<Seq<char>>::empty());
            assert(Seq::<Seq<char>>::empty().filter(pred) =~= Seq::<Seq<char>>::empty());
            assert(out.deep_view() =~= part1 + set@.subrange(0, 0).filter(pred).map_values(
                faaaa,
            ));
            while i < n
                invariant
                    n == set@.len(),
                    i <= n,
                    rec@.inet6 == Option::Some(set@),
                    hv == lower_seq(rec@.hostname),
                    host@ == hv,
                    ts@ == ts_format(*t),
                    part1 == publishable(rec@.inet).map_values(fa),
                    fa == (|a: Seq<char>| render_line(hv, seq!['A'], a, *t)),
                    faaaa == (|a: Seq<char>| render_line(hv, seq!['A', 'A', 'A', 'A'], a, *t)),
                    pred == (|a: Seq<char>| !ip_restricted(a)),
                    out.deep_view() == part1 + set@.subrange(0, i as int).filter(
                        pred,
                    ).map_values(faaaa),
                decreases n - i,
            {
                assert(set@[i as int] == set.items@[i as int]@);
                let ghost dv = out.deep_view();
                if !is_ip_restricted(set.items[i].as_str()) {
                    let line = render_one(
                        host.as_str(),
                        true,
                        set.items[i].as_str(),
                        &ts,
                        Ghost(*t),
                    );
                    out.push(line);
                    assert(out.deep_view() =~= dv.push(faaaa(set@[i as int])));
                }
                proof {
                    let s0 = set@.subrange(0, i as int);
                    let x = set@[i as int];
                    assert(set@.subrange(0, i + 1 as int) =~= s0.push(x));
                    crate::sets::seq_filter_push(s0, x, pred);
                    if pred(x) {
                        assert(part1 + s0.filter(pred).push(x).map_values(faaaa) =~= (part1
                            + s0.filter(pred).map_values(faaaa)).push(faaaa(x)));
                    } else {
                        assert(part1 + s0.filter(pred).map_values(faaaa) =~= out.deep_view());
                    }
                }
                i += 1;
            }
            assert(set@.subrange(0, n as int) =~= set@);
        },
        Option::None => {
            assert(publishable(rec@.inet6) =~= Seq::<Seq<char>>::empty());
        },
    }
    assert(out.deep_view() =~= bind_lines(rec@, *t));
    out
}

// ---------------------------------------------------------------------------
// The merge pass
// ---------------------------------------------------------------------------
// The running state of a merge is a triple: the output lines so far, the
// hosts already rewritten in this pass, and the pending hosts not yet
// placed.  The file scan consumes the zone file line by line; the append
// phase then walks the pending snapshot and adds authorized new hosts.

/// One line of the file scan.  Unmarked lines and lines of unknown or
/// untouched hosts pass through; a marked line of a pending host is
/// replaced by that host's generated lines (or kept when generation is
/// empty), and later lines of the same host are dropped.
pub open spec fn scan_step(
    st: (Seq<Seq<char>>, Seq<Seq<char>>, Seq<Seq<char>>),
    line: Seq<char>,
    hosts: Map<Seq<char>, HostEntryView>,
) -> (Seq<Seq<char>>, Seq<Seq<char>>, Seq<Seq<char>>) {
    let (out, written, left) = st;
    if !contains_seq(line, marker_seq()) {
        (out.push(line), written, left)
    } else {
        let h = owner_of(line);
        if h.len() == 0 {
            (out.push(line), written, left)
        } else if written.contains(h) {
            (out, written, left)
        } else if !left.contains(h) {
            (out.push(line), written, left)
        } else if !hosts.dom().contains(h) {
            (out.push(line), written, left)
        } else {
            let gen = bind_lines(hosts[h].record, hosts[h].stamp);
            if gen.len() > 0 {
                (out + gen, written.push(h), remove_first(left, h))
            } else {
                (out.push(line), written.push(h), remove_first(left, h))
            }
        }
    }
}

/// The file scan from line `i` on.
pub open spec fn scan_from(
    lines: Seq<Seq<char>>,
    hosts: Map<Seq<char>, HostEntryView>,
    i: int,
    st: (Seq<Seq<char>>, Seq<Seq<char>>, Seq<Seq<char>>),
) -> (Seq<Seq<char>>, Seq<Seq<char>>, Seq<Seq<char>>)
    decreases lines.len() - i,
    when 0 <= i <= lines.len()
{
    if i >= lines.len() {
        st
    } else {
        scan_from(lines, hosts, i + 1, scan_step(st, lines[i], hosts))
    }
}

/// One host of the append phase: a pending host that never appeared in the
/// file is added at the end, but only with operator authorization and only
/// when it has at least one publishable address.
pub open spec fn append_step(
    st: (Seq<Seq<char>>, Seq<Seq<char>>, Seq<Seq<char>>),
    h: Seq<char>,
    hosts: Map<Seq<char>, HostEntryView>,
    forced: Seq<Seq<char>>,
) -> (Seq<Seq<char>>, Seq<Seq<char>>, Seq<Seq<char>>) {
    let (out, written, left) = st;
    if !left.contains(h) {
        st
    } else if !forced.contains(h) {
        st
    } else if !hosts.dom().contains(h) {
        st
    } else {
        let gen = bind_lines(hosts[h].record, hosts[h].stamp);
        if gen.len() > 0 {
            (out + gen, written.push(h), remove_first(left, h))
        } else {
            st
        }
    }
}

/// The append phase over the pending snapshot from index `i` on.
pub open spec fn append_from(
    pend: Seq<Seq<char>>,
    hosts: Map<Seq<char>, HostEntryView>,
    forced: Seq<Seq<char>>,
    i: int,
    st: (Seq<Seq<char>>, Seq<Seq<char>>, Seq<Seq<char>>),
) -> (Seq<Seq<char>>, Seq<Seq<char>>, Seq<Seq<char>>)
    decreases pend.len() - i,
    when 0 <= i <= pend.len()
{
    if i >= pend.len() {
        st
    } else {
        append_from(pend, hosts, forced, i + 1, append_step(st, pend[i], hosts, forced))
    }
}

/// The whole merge: scan the file, then append authorized new hosts.
pub open spec fn zone_merge(
    lines: Seq<Seq<char>>,
    hosts: Map<Seq<char>, HostEntryView>,
    pending: Seq<Seq<char>>,
    forced: Seq<Seq<char>>,
) -> (Seq<Seq<char>>, Seq<Seq<char>>, Seq<Seq<char>>) {
    let st = scan_from(lines, hosts, 0, (Seq::empty(), Seq::empty(), pending));
    append_from(pending, hosts, forced, 0, st)
}

/// The merged output lines.
pub open spec fn zone_merge_out(
    lines: Seq<Seq<char>>,
    hosts: Map<Seq<char>, HostEntryView>,
    pending: Seq<Seq<char>>,
    forced: Seq<Seq<char>>,
) -> Seq<Seq<char>> {
    zone_merge(lines, hosts, pending, forced).0
}

/// The residue: pending hosts the merge could not place (the next
/// unreconciled set).
pub open spec fn zone_merge_residual(
    lines: Seq<Seq<char>>,
    hosts: Map<Seq<char>, HostEntryView>,
    pending: Seq<Seq<char>>,
    forced: Seq<Seq<char>>,
) -> Seq<Seq<char>> {
    zone_merge(lines, hosts, pending, forced).2
}

/// Appends clones of all of `gen` to `out`.
fn append_all(out: &mut Vec<String>, gen: &Vec<String>)
    ensures
        final(out).deep_view() == old(out).deep_view() + gen.deep_view(),
{
    let n = gen.len();
    let mut k: usize = 0;
    while k < n
        invariant
            n == gen@.len(),
            k <= n,
            out.deep_view() == old(out).deep_view() + gen.deep_view().subrange(0, k as int),
        decreases n - k,
    {
        assert(gen.deep_view()[k as int] == gen@[k as int]@);
        let ghost dv = out.deep_view();
        out.push(crate::sets::clone_string(&gen[k]));
        proof {
            assert(out.deep_view() =~= dv.push(gen.deep_view()[k as int]));
            assert(dv.push(gen.deep_view()[k as int]) =~= old(out).deep_view()
                + gen.deep_view().subrange(0, k + 1 as int));
        }
        k += 1;
    }
    assert(gen.deep_view().subrange(0, n as int) =~= gen.deep_view());
}

/// Rewrites a zone file's lines from the store's state, specified by
/// `zone_merge`: unmarked lines and lines of untouched hosts are copied
/// verbatim, each pending host's marked lines are replaced by its generated
/// lines (kept unchanged when it has no publishable address), duplicate
/// marked lines collapse, and pending hosts absent from the file are
/// appended when authorized.  Returns the new lines and the residue of
/// `pending` that could not be placed.
pub fn update_zone_file_content(
    lines: &Vec<String>,
    hosts: &Vec<HostEntry>,
    pending: StrSet,
    forced: &StrSet,
) -> (r: (Vec<String>, StrSet))
    requires
        hosts_wf(hosts@),
        pending.wf(),
    ensures
        r.0.deep_view() == zone_merge_out(
            lines.deep_view(),
            entries_map(hosts@),
            pending@,
            forced@,
        ),
        r.1@ == zone_merge_residual(lines.deep_view(), entries_map(hosts@), pending@, forced@),
        r.1.wf(),
{
    let ghost ldv = lines.deep_view();
    let ghost m = entries_map(hosts@);
    let ghost p0 = pending@;
    let ghost st0 = (Seq::<Seq<char>>::empty(), Seq::<Seq<char>>::empty(), p0);
    let pend_iter = pending.clone();
    let mut out: Vec<String> = Vec::new();
    let mut written = StrSet::new();
    let mut left = pending;
    let n = lines.len();
    let mut i: usize = 0;
    assert(out.deep_view() =~= Seq::<Seq<char>>::empty());
    while i < n
        invariant
            hosts_wf(hosts@),
            m == entries_map(hosts@),
            ldv == lines.deep_view(),
            n == lines@.len(),
            i <= n,
            written.wf(),
            left.wf(),
            forall|x: Seq<char>| left@.contains(x) ==> !written@.contains(x),
            scan_from(ldv, m, 0, st0) == scan_from(
                ldv,
                m,
                i as int,
                (out.deep_view(), written@, left@),
            ),
        decreases n - i,
    {
        assert(ldv[i as int] == lines@[i as int]@);
        let ghost cur = (out.deep_view(), written@, left@);
        let line = &lines[i];
        if !line_is_marked(line.as_str()) {
            let ghost dv = out.deep_view();
            out.push(crate::sets::clone_string(line));
            assert(out.deep_view() =~= dv.push(ldv[i as int]));
        } else {
            let h = owner_of_line(line.as_str());
            if h.as_str().unicode_len() == 0 {
                let ghost dv = out.deep_view();
                out.push(crate::sets::clone_string(line));
                assert(out.deep_view() =~= dv.push(ldv[i as int]));
            } else if written.contains_item(h.as_str()) {
                // a later line of a host already rewritten: collapse it
            } else if !left.contains_item(h.as_str()) {
                let ghost dv = out.deep_view();
                out.push(crate::sets::clone_string(line));
                assert(out.deep_view() =~= dv.push(ldv[i as int]));
            } else {
                match find_entry(hosts, h.as_str()) {
                    Option::None => {
                        proof {
                            lemma_entries_map_domain(hosts@);
                        }
                        let ghost dv = out.deep_view();
                        out.push(crate::sets::clone_string(line));
                        assert(out.deep_view() =~= dv.push(ldv[i as int]));
                    },
                    Option::Some(idx) => {
                        proof {
                            lemma_entries_map_index(hosts@, idx as int);
                            assert(entry_ok(hosts@[idx as int]));
                        }
                        let gen = bind_line_vec(&hosts[idx].record, &hosts[idx].stamp);
                        if gen.len() > 0 {
                            append_all(&mut out, &gen);
                        } else {
                            let ghost dv = out.deep_view();
                            out.push(crate::sets::clone_string(line));
                            assert(out.deep_view() =~= dv.push(ldv[i as int]));
                        }
                        let h2 = crate::sets::clone_string(&h);
                        written.insert_item(h2);
                        left.remove_item(h.as_str());
                    },
                }
            }
        }
        proof {
            assert(scan_step(cur, ldv[i as int], m) == (out.deep_view(), written@, left@));
            assert(scan_from(ldv, m, i as int, cur) == scan_from(
                ldv,
                m,
                i + 1 as int,
                (out.deep_view(), written@, left@),
            ));
        }
        i += 1;
    }
    let ghost st1 = scan_from(ldv, m, 0, st0);
    assert(st1 == (out.deep_view(), written@, left@));
    // append phase: walk the pending snapshot in its stored order
    let np = pend_iter.len();
    let mut j: usize = 0;
    while j < np
        invariant
            hosts_wf(hosts@),
            m == entries_map(hosts@),
            pend_iter@ == p0,
            st1 == scan_from(ldv, m, 0, st0),
            np == pend_iter@.len(),
            j <= np,
            written.wf(),
            left.wf(),
            forall|x: Seq<char>| left@.contains(x) ==> !written@.contains(x),
            append_from(p0, m, forced@, 0, st1) == append_from(
                p0,
                m,
                forced@,
                j as int,
                (out.deep_view(), written@, left@),
            ),
        decreases np - j,
    {
        let ghost cur = (out.deep_view(), written@, left@);
        let h = pend_iter.get(j);
        if left.contains_item(h.as_str()) && forced.contains_item(h.as_str()) {
            match find_entry(hosts, h.as_str()) {
                Option::None => {
                    proof {
                        lemma_entries_map_domain(hosts@);
                    }
                },
                Option::Some(idx) => {
                    proof {
                        lemma_entries_map_index(hosts@, idx as int);
                        assert(entry_ok(hosts@[idx as int]));
                    }
                    let gen = bind_line_vec(&hosts[idx].record, &hosts[idx].stamp);
                    if gen.len() > 0 {
                        append_all(&mut out, &gen);
                        let h2 = crate::sets::clone_string(h);
                        written.insert_item(h2);
                        left.remove_item(h.as_str());
                    }
                },
            }
        }
        proof {
            assert(append_step(cur, p0[j as int], m, forced@) == (
                out.deep_view(),
                written@,
                left@,
            ));
            assert(append_from(p0, m, forced@, j as int, cur) == append_from(
                p0,
                m,
                forced@,
                j + 1 as int,
                (out.deep_view(), written@, left@),
            ));
        }
        j += 1;
    }
    (out, left)
}

/// The lines of one record joined with a newline after each, the shape in
/// which the caller writes them to a file.
pub open spec fn join_lines_nl(ls: Seq<Seq<char>>) -> Seq<char>
    decreases ls.len(),
{
    if ls.len() == 0 {
        Seq::empty()
    } else {
        join_lines_nl(ls.drop_last()) + ls.last() + seq!['\n']
    }
}

/// The generated zone lines of a record as one newline-terminated string
/// (empty when no address is publishable).
pub fn generate_bind_lines_for_record(record: &Record, dt: &Timestamp) -> (r: String)
    requires
        record.wf(),
        dt.wf(),
    ensures
        r@ == join_lines_nl(bind_lines(record@, *dt)),
{
    let lines = bind_line_vec(record, dt);
    let ghost dv = lines.deep_view();
    let n = lines.len();
    let mut r = String::new();
    let mut i: usize = 0;
    assert(r@ =~= join_lines_nl(dv.subrange(0, 0)));
    while i < n
        invariant
            n == lines@.len(),
            dv == lines.deep_view(),
            i <= n,
            r@ == join_lines_nl(dv.subrange(0, i as int)),
        decreases n - i,
    {
        assert(dv[i as int] == lines@[i as int]@);
        r.append(lines[i].as_str());
        r.push('\n');
        proof {
            assert(dv.subrange(0, i + 1 as int).drop_last() =~= dv.subrange(0, i as int));
            assert(dv.subrange(0, i + 1 as int).last() == dv[i as int]);
            assert(r@ =~= join_lines_nl(dv.subrange(0, i as int)) + dv[i as int] + seq!['\n']);
        }
        i += 1;
    }
    assert(dv.subrange(0, n as int) =~= dv);
    r
}

// ---------------------------------------------------------------------------
// Laws of the merge
// ---------------------------------------------------------------------------

/// A hostname fit to own zone lines: non-empty, free of whitespace, and
/// already lower-case.
pub open spec fn clean_key(k: Seq<char>) -> bool {
    &&& k.len() > 0
    &&& forall|i: int| 0 <= i < k.len() ==> !crate::text::is_space_char(k[i])
    &&& lower_seq(k) == k
}

/// Every stored host is keyed consistently by a clean key.
pub open spec fn map_keys_ok(m: Map<Seq<char>, HostEntryView>) -> bool {
    forall|k: Seq<char>| #[trigger] m.dom().contains(k) ==> clean_key(k)
        && m[k].record.hostname == k
}

/// A generated line is owned by its generating host and carries the marker.
pub proof fn lemma_render_owner(host: Seq<char>, rtype: Seq<char>, addr: Seq<char>, t: Timestamp)
    requires
        clean_key(host),
    ensures
        owner_of(render_line(host, rtype, addr, t)) == host,
        contains_seq(render_line(host, rtype, addr, t), marker_seq()),
{
    let line = render_line(host, rtype, addr, t);
    let hl = host.len() as int;
    assert(line.subrange(0, hl) =~= host);
    assert(line[hl] == '\t');
    assert forall|k: int| 0 <= k < hl implies !crate::text::is_space_char(line[k]) by {
        assert(line[k] == host[k]);
    }
    crate::text::lemma_first_token_prefix(line, hl);
    assert(first_token(line) == host);
    assert(owner_of(line) == lower_seq(host));
    let idx = hl + 5 + rtype.len() + 1 + addr.len() + 3;
    assert(line.subrange(idx, idx + 7) =~= marker_seq());
    assert(crate::text::matches_at(line, marker_seq(), idx));
}

/// Every line generated for a record with a clean lower-cased hostname is
/// owned by that hostname and is marked.
pub proof fn lemma_bind_lines_owner(rec: RecordView, t: Timestamp, g: Seq<char>)
    requires
        clean_key(lower_seq(rec.hostname)),
        bind_lines(rec, t).contains(g),
    ensures
        owner_of(g) == lower_seq(rec.hostname),
        contains_seq(g, marker_seq()),
{
    let host = lower_seq(rec.hostname);
    let p4 = publishable(rec.inet).map_values(|a: Seq<char>| render_line(host, seq!['A'], a, t));
    let p6 = publishable(rec.inet6).map_values(
        |a: Seq<char>| render_line(host, seq!['A', 'A', 'A', 'A'], a, t),
    );
    let k = choose|k: int| 0 <= k < bind_lines(rec, t).len() && bind_lines(rec, t)[k] == g;
    if k < p4.len() {
        assert(g == render_line(host, seq!['A'], publishable(rec.inet)[k], t));
        lemma_render_owner(host, seq!['A'], publishable(rec.inet)[k], t);
    } else {
        assert(g == p6[k - p4.len()]);
        assert(g == render_line(
            host,
            seq!['A', 'A', 'A', 'A'],
            publishable(rec.inet6)[k - p4.len()],
            t,
        ));
        lemma_render_owner(host, seq!['A', 'A', 'A', 'A'], publishable(rec.inet6)[k - p4.len()], t);
    }
}

/// Law: zone-line generation excludes every restricted address and
/// includes every publishable one, exactly once each, with the correct
/// record type — one `A` line per publishable IPv4 address, one `AAAA`
/// line per publishable IPv6 address, in stored order.
#[allow(deprecated)]
pub proof fn lemma_bind_lines_exact(rec: RecordView, t: Timestamp)
    requires
        crate::record::opt_no_duplicates(rec.inet),
        crate::record::opt_no_duplicates(rec.inet6),
    ensures
        forall|a: Seq<char>|
            #[trigger] publishable(rec.inet).contains(a) <==> ((rec.inet matches Some(s)
                && s.contains(a)) && !ip_restricted(a)),
        forall|a: Seq<char>|
            #[trigger] publishable(rec.inet6).contains(a) <==> ((rec.inet6 matches Some(s)
                && s.contains(a)) && !ip_restricted(a)),
        publishable(rec.inet).no_duplicates(),
        publishable(rec.inet6).no_duplicates(),
        bind_lines(rec, t).len() == publishable(rec.inet).len() + publishable(rec.inet6).len(),
        forall|k: int|
            0 <= k < publishable(rec.inet).len() ==> bind_lines(rec, t)[k] == render_line(
                lower_seq(rec.hostname),
                seq!['A'],
                publishable(rec.inet)[k],
                t,
            ),
        forall|k: int|
            0 <= k < publishable(rec.inet6).len() ==> bind_lines(rec, t)[publishable(
                rec.inet,
            ).len() + k] == render_line(
                lower_seq(rec.hostname),
                seq!['A', 'A', 'A', 'A'],
                publishable(rec.inet6)[k],
                t,
            ),
{
    let pred = |a: Seq<char>| !ip_restricted(a);
    match rec.inet {
        Option::Some(s) => {
            s.filter_lemma(pred);
            crate::sets::lemma_filter_no_duplicates(s, pred);
        },
        Option::None => {},
    }
    match rec.inet6 {
        Option::Some(s) => {
            s.filter_lemma(pred);
            crate::sets::lemma_filter_no_duplicates(s, pred);
        },
        Option::None => {},
    }
}

/// A line the merge will copy verbatim whenever `left` is the pending set:
/// unmarked, ownerless, owned by a host that is not pending, or owned by a
/// host the store does not know.
pub open spec fn line_stable(line: Seq<char>, left: Seq<Seq<char>>, m: Map<Seq<char>, HostEntryView>) -> bool {
    ||| !contains_seq(line, marker_seq())
    ||| owner_of(line).len() == 0
    ||| !left.contains(owner_of(line))
    ||| !m.dom().contains(owner_of(line))
}

/// Through the file scan, output lines stay stable against the shrinking
/// pending set, which loses members only and keeps its uniqueness.
proof fn lemma_scan_stable(
    lines: Seq<Seq<char>>,
    m: Map<Seq<char>, HostEntryView>,
    i: int,
    st: (Seq<Seq<char>>, Seq<Seq<char>>, Seq<Seq<char>>),
)
    requires
        0 <= i <= lines.len(),
        map_keys_ok(m),
        st.2.no_duplicates(),
        forall|ln: Seq<char>| #[trigger] st.0.contains(ln) ==> line_stable(ln, st.2, m),
    ensures
        ({
            let st2 = scan_from(lines, m, i, st);
            &&& forall|ln: Seq<char>| #[trigger] st2.0.contains(ln) ==> line_stable(ln, st2.2, m)
            &&& forall|x: Seq<char>| #[trigger] st2.2.contains(x) ==> st.2.contains(x)
            &&& st2.2.no_duplicates()
        }),
    decreases lines.len() - i,
{
    if i < lines.len() {
        let stp = scan_step(st, lines[i], m);
        let line = lines[i];
        let h = owner_of(line);
        // the step's new state satisfies the invariants
        if contains_seq(line, marker_seq()) && h.len() > 0 && !st.1.contains(h)
            && st.2.contains(h) && m.dom().contains(h) {
            let gen = bind_lines(m[h].record, m[h].stamp);
            crate::sets::lemma_remove_first_props(st.2, h);
            assert(stp.2 == crate::sets::remove_first(st.2, h));
            assert forall|ln: Seq<char>| #[trigger] stp.0.contains(ln) implies line_stable(
                ln,
                stp.2,
                m,
            ) by {
                if gen.len() > 0 {
                    let k = choose|k: int| 0 <= k < stp.0.len() && stp.0[k] == ln;
                    if k < st.0.len() {
                        assert(st.0[k] == ln);
                        assert(st.0.contains(ln));
                    } else {
                        assert(ln == gen[k - st.0.len()]);
                        assert(gen.contains(ln));
                        assert(clean_key(h));
                        assert(lower_seq(m[h].record.hostname) == h) by {
                            assert(m[h].record.hostname == h);
                        }
                        lemma_bind_lines_owner(m[h].record, m[h].stamp, ln);
                        assert(owner_of(ln) == h);
                        assert(!stp.2.contains(h));
                    }
                } else {
                    let k = choose|k: int| 0 <= k < stp.0.len() && stp.0[k] == ln;
                    if k < st.0.len() {
                        assert(st.0[k] == ln);
                        assert(st.0.contains(ln));
                    } else {
                        assert(ln == line);
                        assert(!stp.2.contains(h));
                    }
                }
            }
        } else {
            // copy or drop: left unchanged
            assert(stp.2 == st.2);
            assert forall|ln: Seq<char>| #[trigger] stp.0.contains(ln) implies line_stable(
                ln,
                stp.2,
                m,
            ) by {
                let k = choose|k: int| 0 <= k < stp.0.len() && stp.0[k] == ln;
                if k < st.0.len() {
                    assert(st.0[k] == ln);
                    assert(st.0.contains(ln));
                } else {
                    assert(ln == line);
                }
            }
        }
        lemma_scan_stable(lines, m, i + 1, stp);
    }
}

/// Through the append phase, output lines stay stable, the pending residue
/// only shrinks, and every residual host that is authorized and known has
/// nothing to generate.
proof fn lemma_append_stable(
    pend: Seq<Seq<char>>,
    m: Map<Seq<char>, HostEntryView>,
    forced: Seq<Seq<char>>,
    j: int,
    st: (Seq<Seq<char>>, Seq<Seq<char>>, Seq<Seq<char>>),
)
    requires
        0 <= j <= pend.len(),
        map_keys_ok(m),
        st.2.no_duplicates(),
        forall|ln: Seq<char>| #[trigger] st.0.contains(ln) ==> line_stable(ln, st.2, m),
    ensures
        ({
            let st2 = append_from(pend, m, forced, j, st);
            &&& forall|ln: Seq<char>| #[trigger] st2.0.contains(ln) ==> line_stable(ln, st2.2, m)
            &&& forall|x: Seq<char>| #[trigger] st2.2.contains(x) ==> st.2.contains(x)
            &&& st2.2.no_duplicates()
            &&& forall|k: int|
                j <= k < pend.len() && #[trigger] st2.2.contains(pend[k]) && forced.contains(
                    pend[k],
                ) && m.dom().contains(pend[k]) ==> bind_lines(
                    m[pend[k]].record,
                    m[pend[k]].stamp,
                ).len() == 0
        }),
    decreases pend.len() - j,
{
    if j < pend.len() {
        let g = pend[j];
        let stp = append_step(st, g, m, forced);
        if st.2.contains(g) && forced.contains(g) && m.dom().contains(g) && bind_lines(
            m[g].record,
            m[g].stamp,
        ).len() > 0 {
            let gen = bind_lines(m[g].record, m[g].stamp);
            crate::sets::lemma_remove_first_props(st.2, g);
            assert(stp.2 == crate::sets::remove_first(st.2, g));
            assert forall|ln: Seq<char>| #[trigger] stp.0.contains(ln) implies line_stable(
                ln,
                stp.2,
                m,
            ) by {
                let k = choose|k: int| 0 <= k < stp.0.len() && stp.0[k] == ln;
                if k < st.0.len() {
                    assert(st.0[k] == ln);
                    assert(st.0.contains(ln));
                } else {
                    assert(ln == gen[k - st.0.len()]);
                    assert(gen.contains(ln));
                    assert(clean_key(g));
                    assert(lower_seq(m[g].record.hostname) == g) by {
                        assert(m[g].record.hostname == g);
                    }
                    lemma_bind_lines_owner(m[g].record, m[g].stamp, ln);
                    assert(!stp.2.contains(g));
                }
            }
        } else {
            assert(stp == st);
        }
        lemma_append_stable(pend, m, forced, j + 1, stp);
        let st2 = append_from(pend, m, forced, j, st);
        assert(st2 == append_from(pend, m, forced, j + 1, stp));
        assert forall|k: int|
            j <= k < pend.len() && #[trigger] st2.2.contains(pend[k]) && forced.contains(
                pend[k],
            ) && m.dom().contains(pend[k]) implies bind_lines(
            m[pend[k]].record,
            m[pend[k]].stamp,
        ).len() == 0 by {
            if k == j {
                if st.2.contains(g) && forced.contains(g) && m.dom().contains(g) && bind_lines(
                    m[g].record,
                    m[g].stamp,
                ).len() > 0 {
                    crate::sets::lemma_remove_first_props(st.2, g);
                    assert(!stp.2.contains(g));
                    assert(!st2.2.contains(g));
                    assert(false);
                } else {
                    assert(st.2.contains(g));
                }
            }
        }
    } else {
        assert(append_from(pend, m, forced, j, st) == st);
    }
}

/// A scan over lines that are all stable, with nothing yet rewritten,
/// copies everything and changes nothing.
proof fn lemma_scan_noop(
    lines: Seq<Seq<char>>,
    m: Map<Seq<char>, HostEntryView>,
    i: int,
    st: (Seq<Seq<char>>, Seq<Seq<char>>, Seq<Seq<char>>),
)
    requires
        0 <= i <= lines.len(),
        st.1 == Seq::<Seq<char>>::empty(),
        forall|k: int| i <= k < lines.len() ==> line_stable(#[trigger] lines[k], st.2, m),
    ensures
        scan_from(lines, m, i, st) == (
            st.0 + lines.subrange(i, lines.len() as int),
            st.1,
            st.2,
        ),
    decreases lines.len() - i,
{
    if i >= lines.len() {
        assert(st.0 + lines.subrange(i, lines.len() as int) =~= st.0);
        assert(scan_from(lines, m, i, st) == st);
    } else {
        let line = lines[i];
        let stp = scan_step(st, line, m);
        assert(line_stable(line, st.2, m));
        assert(!st.1.contains(owner_of(line)));
        assert(stp == (st.0.push(line), st.1, st.2));
        lemma_scan_noop(lines, m, i + 1, stp);
        assert(st.0.push(line) + lines.subrange(i + 1, lines.len() as int) =~= st.0
            + lines.subrange(i as int, lines.len() as int));
    }
}

/// An append phase in which every candidate host has nothing to generate
/// (or is unauthorized or unknown) changes nothing.
proof fn lemma_append_noop(
    pend: Seq<Seq<char>>,
    m: Map<Seq<char>, HostEntryView>,
    forced: Seq<Seq<char>>,
    j: int,
    st: (Seq<Seq<char>>, Seq<Seq<char>>, Seq<Seq<char>>),
)
    requires
        0 <= j <= pend.len(),
        forall|k: int|
            j <= k < pend.len() && #[trigger] st.2.contains(pend[k]) && forced.contains(
                pend[k],
            ) && m.dom().contains(pend[k]) ==> bind_lines(
                m[pend[k]].record,
                m[pend[k]].stamp,
            ).len() == 0,
    ensures
        append_from(pend, m, forced, j, st) == st,
    decreases pend.len() - j,
{
    if j < pend.len() {
        let g = pend[j];
        assert(append_step(st, g, m, forced) == st);
        lemma_append_noop(pend, m, forced, j + 1, st);
    }
}

/// Law: the reconciler is idempotent.  Run it once; run it again on its
/// own output with the residue as the pending snapshot, the same records
/// and the same authorizations: the second run returns the output lines
/// byte for byte and the same residue.  (Hostnames here are well-formed
/// keys: non-empty, whitespace-free, lower-case.)
pub proof fn lemma_reconcile_idempotent(
    lines: Seq<Seq<char>>,
    m: Map<Seq<char>, HostEntryView>,
    pending: Seq<Seq<char>>,
    forced: Seq<Seq<char>>,
)
    requires
        map_keys_ok(m),
        pending.no_duplicates(),
    ensures
        ({
            let first = zone_merge(lines, m, pending, forced);
            zone_merge(first.0, m, first.2, forced) == (
                first.0,
                Seq::<Seq<char>>::empty(),
                first.2,
            )
        }),
{
    let st0 = (Seq::<Seq<char>>::empty(), Seq::<Seq<char>>::empty(), pending);
    let st1 = scan_from(lines, m, 0, st0);
    lemma_scan_stable(lines, m, 0, st0);
    let st2 = append_from(pending, m, forced, 0, st1);
    lemma_append_stable(pending, m, forced, 0, st1);
    assert(pending.subrange(0, pending.len() as int) =~= pending);
    // second run, phase one: every output line is stable against the residue
    let r0 = (Seq::<Seq<char>>::empty(), Seq::<Seq<char>>::empty(), st2.2);
    assert forall|k: int| 0 <= k < st2.0.len() implies line_stable(
        #[trigger] st2.0[k],
        r0.2,
        m,
    ) by {
        assert(st2.0.contains(st2.0[k]));
    }
    lemma_scan_noop(st2.0, m, 0, r0);
    assert(Seq::<Seq<char>>::empty() + st2.0.subrange(0, st2.0.len() as int) =~= st2.0);
    let r1 = scan_from(st2.0, m, 0, r0);
    assert(r1 == (st2.0, Seq::<Seq<char>>::empty(), st2.2));
    // second run, phase two: every residual candidate generates nothing
    assert forall|k: int|
        0 <= k < st2.2.len() && #[trigger] r1.2.contains(st2.2[k]) && forced.contains(
            st2.2[k],
        ) && m.dom().contains(st2.2[k]) implies bind_lines(
        m[st2.2[k]].record,
        m[st2.2[k]].stamp,
    ).len() == 0 by {
        let h = st2.2[k];
        assert(st2.2.contains(h));
        assert(st1.2.contains(h));
        assert(pending.contains(h));
        let k0 = choose|k0: int| 0 <= k0 < pending.len() && pending[k0] == h;
        assert(st2.2.contains(pending[k0]));
    }
    lemma_append_noop(st2.2, m, forced, 0, r1);
}

/// Frame of the file scan: output lines are never dropped, the pending set
/// never grows, uniqueness is kept.
proof fn lemma_scan_frame(
    lines: Seq<Seq<char>>,
    m: Map<Seq<char>, HostEntryView>,
    i: int,
    st: (Seq<Seq<char>>, Seq<Seq<char>>, Seq<Seq<char>>),
)
    requires
        0 <= i <= lines.len(),
        st.2.no_duplicates(),
    ensures
        ({
            let st2 = scan_from(lines, m, i, st);
            &&& forall|x: Seq<char>| #[trigger] st.0.contains(x) ==> st2.0.contains(x)
            &&& forall|x: Seq<char>| #[trigger] st2.2.contains(x) ==> st.2.contains(x)
            &&& st2.2.no_duplicates()
        }),
    decreases lines.len() - i,
{
    if i < lines.len() {
        let stp = scan_step(st, lines[i], m);
        let h = owner_of(lines[i]);
        if contains_seq(lines[i], marker_seq()) && h.len() > 0 && !st.1.contains(h)
            && st.2.contains(h) && m.dom().contains(h) {
            crate::sets::lemma_remove_first_props(st.2, h);
        }
        assert forall|x: Seq<char>| #[trigger] st.0.contains(x) implies stp.0.contains(x) by {
            let k = choose|k: int| 0 <= k < st.0.len() && st.0[k] == x;
            assert(stp.0[k] == x);
        }
        lemma_scan_frame(lines, m, i + 1, stp);
    }
}

/// Frame of the append phase: output lines are never dropped, the residue
/// never grows, uniqueness is kept.
proof fn lemma_append_frame(
    pend: Seq<Seq<char>>,
    m: Map<Seq<char>, HostEntryView>,
    forced: Seq<Seq<char>>,
    j: int,
    st: (Seq<Seq<char>>, Seq<Seq<char>>, Seq<Seq<char>>),
)
    requires
        0 <= j <= pend.len(),
        st.2.no_duplicates(),
    ensures
        ({
            let st2 = append_from(pend, m, forced, j, st);
            &&& forall|x: Seq<char>| #[trigger] st.0.contains(x) ==> st2.0.contains(x)
            &&& forall|x: Seq<char>| #[trigger] st2.2.contains(x) ==> st.2.contains(x)
            &&& st2.2.no_duplicates()
        }),
    decreases pend.len() - j,
{
    if j < pend.len() {
        let g = pend[j];
        let stp = append_step(st, g, m, forced);
        if st.2.contains(g) && forced.contains(g) && m.dom().contains(g) && bind_lines(
            m[g].record,
            m[g].stamp,
        ).len() > 0 {
            crate::sets::lemma_remove_first_props(st.2, g);
        }
        assert forall|x: Seq<char>| #[trigger] st.0.contains(x) implies stp.0.contains(x) by {
            let k = choose|k: int| 0 <= k < st.0.len() && st.0[k] == x;
            assert(stp.0[k] == x);
        }
        lemma_append_frame(pend, m, forced, j + 1, stp);
    }
}

/// A pending host that owns no line of the file survives the scan, and
/// every output line either stems from the input or belongs to another
/// host.
proof fn lemma_scan_unowned(
    lines: Seq<Seq<char>>,
    m: Map<Seq<char>, HostEntryView>,
    i: int,
    st: (Seq<Seq<char>>, Seq<Seq<char>>, Seq<Seq<char>>),
    h: Seq<char>,
)
    requires
        0 <= i <= lines.len(),
        map_keys_ok(m),
        st.2.no_duplicates(),
        st.2.contains(h),
        forall|k: int| 0 <= k < lines.len() ==> owner_of(#[trigger] lines[k]) != h,
        forall|ln: Seq<char>|
            #[trigger] st.0.contains(ln) ==> (lines.contains(ln) || owner_of(ln) != h),
    ensures
        ({
            let st2 = scan_from(lines, m, i, st);
            &&& st2.2.contains(h)
            &&& st2.2.no_duplicates()
            &&& forall|ln: Seq<char>|
                #[trigger] st2.0.contains(ln) ==> (lines.contains(ln) || owner_of(ln) != h)
        }),
    decreases lines.len() - i,
{
    if i < lines.len() {
        let line = lines[i];
        let w = owner_of(line);
        let stp = scan_step(st, line, m);
        assert(w != h);
        if contains_seq(line, marker_seq()) && w.len() > 0 && !st.1.contains(w) && st.2.contains(
            w,
        ) && m.dom().contains(w) {
            crate::sets::lemma_remove_first_props(st.2, w);
            assert(stp.2.contains(h));
        }
        assert forall|ln: Seq<char>| #[trigger] stp.0.contains(ln) implies (lines.contains(ln)
            || owner_of(ln) != h) by {
            let k = choose|k: int| 0 <= k < stp.0.len() && stp.0[k] == ln;
            if k < st.0.len() {
                assert(st.0[k] == ln);
                assert(st.0.contains(ln));
            } else if contains_seq(line, marker_seq()) && w.len() > 0 && !st.1.contains(w)
                && st.2.contains(w) && m.dom().contains(w) && bind_lines(
                m[w].record,
                m[w].stamp,
            ).len() > 0 {
                let gen = bind_lines(m[w].record, m[w].stamp);
                assert(ln == gen[k - st.0.len()]);
                assert(gen.contains(ln));
                assert(clean_key(w));
                assert(lower_seq(m[w].record.hostname) == w) by {
                    assert(m[w].record.hostname == w);
                }
                lemma_bind_lines_owner(m[w].record, m[w].stamp, ln);
            } else {
                assert(ln == line);
                assert(lines.contains(line)) by {
                    assert(lines[i] == line);
                }
            }
        }
        lemma_scan_unowned(lines, m, i + 1, stp, h);
    }
}

/// An unauthorized host survives the append phase, and every appended line
/// belongs to another host.
proof fn lemma_append_unforced(
    lines: Seq<Seq<char>>,
    pend: Seq<Seq<char>>,
    m: Map<Seq<char>, HostEntryView>,
    forced: Seq<Seq<char>>,
    j: int,
    st: (Seq<Seq<char>>, Seq<Seq<char>>, Seq<Seq<char>>),
    h: Seq<char>,
)
    requires
        0 <= j <= pend.len(),
        map_keys_ok(m),
        st.2.no_duplicates(),
        st.2.contains(h),
        !forced.contains(h),
        forall|ln: Seq<char>|
            #[trigger] st.0.contains(ln) ==> (lines.contains(ln) || owner_of(ln) != h),
    ensures
        ({
            let st2 = append_from(pend, m, forced, j, st);
            &&& st2.2.contains(h)
            &&& st2.2.no_duplicates()
            &&& forall|ln: Seq<char>|
                #[trigger] st2.0.contains(ln) ==> (lines.contains(ln) || owner_of(ln) != h)
        }),
    decreases pend.len() - j,
{
    if j < pend.len() {
        let g = pend[j];
        let stp = append_step(st, g, m, forced);
        assert(g == h ==> stp == st);
        if g != h && st.2.contains(g) && forced.contains(g) && m.dom().contains(g) && bind_lines(
            m[g].record,
            m[g].stamp,
        ).len() > 0 {
            crate::sets::lemma_remove_first_props(st.2, g);
            assert(stp.2.contains(h));
            let gen = bind_lines(m[g].record, m[g].stamp);
            assert forall|ln: Seq<char>| #[trigger] stp.0.contains(ln) implies (lines.contains(
                ln,
            ) || owner_of(ln) != h) by {
                let k = choose|k: int| 0 <= k < stp.0.len() && stp.0[k] == ln;
                if k < st.0.len() {
                    assert(st.0[k] == ln);
                    assert(st.0.contains(ln));
                } else {
                    assert(ln == gen[k - st.0.len()]);
                    assert(gen.contains(ln));
                    assert(clean_key(g));
                    assert(lower_seq(m[g].record.hostname) == g) by {
                        assert(m[g].record.hostname == g);
                    }
                    lemma_bind_lines_owner(m[g].record, m[g].stamp, ln);
                }
            }
        }
        lemma_append_unforced(lines, pend, m, forced, j + 1, stp, h);
    }
}

/// Law (refusal): a hostname that never appears in the zone file, pending
/// but not authorized, is never written into the zone — every output line
/// stems from the input verbatim or belongs to another host — and the
/// hostname lands in the residue, to be reported unreconciled.
pub proof fn lemma_new_host_unauthorized(
    lines: Seq<Seq<char>>,
    m: Map<Seq<char>, HostEntryView>,
    pending: Seq<Seq<char>>,
    forced: Seq<Seq<char>>,
    h: Seq<char>,
)
    requires
        map_keys_ok(m),
        pending.no_duplicates(),
        pending.contains(h),
        !forced.contains(h),
        forall|k: int| 0 <= k < lines.len() ==> owner_of(#[trigger] lines[k]) != h,
    ensures
        ({
            let r = zone_merge(lines, m, pending, forced);
            &&& r.2.contains(h)
            &&& forall|ln: Seq<char>|
                #[trigger] r.0.contains(ln) ==> (lines.contains(ln) || owner_of(ln) != h)
        }),
{
    let st0 = (Seq::<Seq<char>>::empty(), Seq::<Seq<char>>::empty(), pending);
    lemma_scan_unowned(lines, m, 0, st0, h);
    let st1 = scan_from(lines, m, 0, st0);
    lemma_append_unforced(lines, pending, m, forced, 0, st1, h);
}

/// An authorized pending host with lines to generate is appended once the
/// walk reaches it: its generated lines appear in the output and it leaves
/// the residue.
proof fn lemma_append_processes(
    pend: Seq<Seq<char>>,
    m: Map<Seq<char>, HostEntryView>,
    forced: Seq<Seq<char>>,
    j: int,
    st: (Seq<Seq<char>>, Seq<Seq<char>>, Seq<Seq<char>>),
    h: Seq<char>,
    k0: int,
)
    requires
        0 <= j <= k0 < pend.len(),
        pend[k0] == h,
        st.2.no_duplicates(),
        st.2.contains(h),
        forced.contains(h),
        m.dom().contains(h),
        bind_lines(m[h].record, m[h].stamp).len() > 0,
    ensures
        ({
            let st2 = append_from(pend, m, forced, j, st);
            &&& !st2.2.contains(h)
            &&& forall|g: Seq<char>|
                bind_lines(m[h].record, m[h].stamp).contains(g) ==> #[trigger] st2.0.contains(g)
        }),
    decreases pend.len() - j,
{
    let g = pend[j];
    let stp = append_step(st, g, m, forced);
    let gen = bind_lines(m[h].record, m[h].stamp);
    if g == h {
        crate::sets::lemma_remove_first_props(st.2, h);
        assert(stp.0 == st.0 + gen);
        assert(!stp.2.contains(h));
        assert forall|x: Seq<char>| gen.contains(x) implies #[trigger] stp.0.contains(x) by {
            let k = choose|k: int| 0 <= k < gen.len() && gen[k] == x;
            assert(stp.0[st.0.len() + k] == x);
        }
        lemma_append_frame(pend, m, forced, j + 1, stp);
        let st2 = append_from(pend, m, forced, j, st);
        assert(st2 == append_from(pend, m, forced, j + 1, stp));
        assert forall|g2: Seq<char>| gen.contains(g2) implies #[trigger] st2.0.contains(g2) by {
            assert(stp.0.contains(g2));
        }
        assert(!st2.2.contains(h)) by {
            if st2.2.contains(h) {
                assert(stp.2.contains(h));
            }
        }
    } else {
        if st.2.contains(g) && forced.contains(g) && m.dom().contains(g) && bind_lines(
            m[g].record,
            m[g].stamp,
        ).len() > 0 {
            crate::sets::lemma_remove_first_props(st.2, g);
            assert(stp.2.contains(h));
        }
        lemma_append_processes(pend, m, forced, j + 1, stp, h, k0);
    }
}

/// Law (grant): once authorized, a pending hostname never seen in the zone
/// file and holding at least one publishable address is written: all its
/// generated lines appear in the output, and it leaves the residue — the
/// cycle's bookkeeping then clears it from both `pending` and `forced`.
pub proof fn lemma_new_host_authorized(
    lines: Seq<Seq<char>>,
    m: Map<Seq<char>, HostEntryView>,
    pending: Seq<Seq<char>>,
    forced: Seq<Seq<char>>,
    h: Seq<char>,
)
    requires
        map_keys_ok(m),
        pending.no_duplicates(),
        pending.contains(h),
        forced.contains(h),
        m.dom().contains(h),
        bind_lines(m[h].record, m[h].stamp).len() > 0,
        forall|k: int| 0 <= k < lines.len() ==> owner_of(#[trigger] lines[k]) != h,
    ensures
        ({
            let r = zone_merge(lines, m, pending, forced);
            &&& !r.2.contains(h)
            &&& forall|g: Seq<char>|
                bind_lines(m[h].record, m[h].stamp).contains(g) ==> #[trigger] r.0.contains(g)
        }),
{
    let st0 = (Seq::<Seq<char>>::empty(), Seq::<Seq<char>>::empty(), pending);
    lemma_scan_unowned(lines, m, 0, st0, h);
    let st1 = scan_from(lines, m, 0, st0);
    let k0 = choose|k0: int| 0 <= k0 < pending.len() && pending[k0] == h;
    lemma_append_processes(pending, m, forced, 0, st1, h, k0);
}

/// A pending host whose first marked line sits at `j0`, known to the store
/// but with nothing to generate, keeps that line verbatim and leaves the
/// pending set during the scan.
proof fn lemma_scan_keeps(
    lines: Seq<Seq<char>>,
    m: Map<Seq<char>, HostEntryView>,
    i: int,
    st: (Seq<Seq<char>>, Seq<Seq<char>>, Seq<Seq<char>>),
    h: Seq<char>,
    j0: int,
)
    requires
        0 <= i <= j0 < lines.len(),
        contains_seq(lines[j0], marker_seq()),
        owner_of(lines[j0]) == h,
        h.len() > 0,
        forall|k: int|
            i <= k < j0 ==> !(contains_seq(#[trigger] lines[k], marker_seq()) && owner_of(
                lines[k],
            ) == h),
        st.2.no_duplicates(),
        st.2.contains(h),
        !st.1.contains(h),
        m.dom().contains(h),
        bind_lines(m[h].record, m[h].stamp).len() == 0,
    ensures
        ({
            let st2 = scan_from(lines, m, i, st);
            &&& st2.0.contains(lines[j0])
            &&& !st2.2.contains(h)
            &&& st2.2.no_duplicates()
        }),
    decreases lines.len() - i,
{
    let line = lines[i];
    let w = owner_of(line);
    let stp = scan_step(st, line, m);
    if i == j0 {
        assert(stp.0 == st.0.push(line));
        assert(stp.0.contains(line)) by {
            assert(stp.0[st.0.len() as int] == line);
        }
        crate::sets::lemma_remove_first_props(st.2, h);
        assert(!stp.2.contains(h));
        lemma_scan_frame(lines, m, i + 1, stp);
    } else {
        // before j0: this line is unmarked or owned by someone else
        assert(!(contains_seq(line, marker_seq()) && w == h));
        if contains_seq(line, marker_seq()) && w.len() > 0 && !st.1.contains(w) && st.2.contains(
            w,
        ) && m.dom().contains(w) {
            assert(w != h);
            crate::sets::lemma_remove_first_props(st.2, w);
            assert(stp.2.contains(h));
            assert(!stp.1.contains(h)) by {
                if stp.1.contains(h) {
                    let k = choose|k: int| 0 <= k < stp.1.len() && stp.1[k] == h;
                    if k < st.1.len() {
                        assert(st.1[k] == h);
                        assert(st.1.contains(h));
                    }
                }
            }
        }
        lemma_scan_keeps(lines, m, i + 1, stp, h, j0);
    }
}

/// Law: an already-present pending host with no publishable address keeps
/// its original zone line verbatim in the output, counts as processed —
/// it leaves the residue — and so is not reported unreconciled.
pub proof fn lemma_existing_host_no_publishable(
    lines: Seq<Seq<char>>,
    m: Map<Seq<char>, HostEntryView>,
    pending: Seq<Seq<char>>,
    forced: Seq<Seq<char>>,
    h: Seq<char>,
    j0: int,
)
    requires
        map_keys_ok(m),
        pending.no_duplicates(),
        pending.contains(h),
        m.dom().contains(h),
        bind_lines(m[h].record, m[h].stamp).len() == 0,
        0 <= j0 < lines.len(),
        contains_seq(lines[j0], marker_seq()),
        owner_of(lines[j0]) == h,
        h.len() > 0,
        forall|k: int|
            0 <= k < j0 ==> !(contains_seq(#[trigger] lines[k], marker_seq()) && owner_of(
                lines[k],
            ) == h),
    ensures
        ({
            let r = zone_merge(lines, m, pending, forced);
            &&& r.0.contains(lines[j0])
            &&& !r.2.contains(h)
        }),
{
    let st0 = (Seq::<Seq<char>>::empty(), Seq::<Seq<char>>::empty(), pending);
    lemma_scan_keeps(lines, m, 0, st0, h, j0);
    let st1 = scan_from(lines, m, 0, st0);
    lemma_append_frame(pending, m, forced, 0, st1);
    assert(st1.0.contains(lines[j0]));
}

} // verus!
