//! The serial incrementer: finds the first line whose lower-cased text
//! holds the word `serial` and carries a run of decimal digits, and
//! replaces that run, in place, with its value plus one.  All other lines
//! pass through unchanged; with no such line the operation fails.

use vstd::prelude::*;
use vstd::string::StrSliceExecFns;
use vstd::string::StringExecFns;
use crate::text::{
    contains_seq, contains_str, lower_seq, to_lower, run_start, run_end, seq_digits_val,
    digits_of, parse_digits, digit_char, u64_to_string, lemma_run_end_bounds,
};

verus! {

/// The word that marks the serial-bearing line.
pub open spec fn serial_word() -> Seq<char> {
    seq!['s', 'e', 'r', 'i', 'a', 'l']
}

/// Whether a line's lower-cased text holds the word `serial`.
pub open spec fn is_serial_line(line: Seq<char>) -> bool {
    contains_seq(lower_seq(line), serial_word())
}

/// Whether the incrementer handles this line: it is a serial line, holds a
/// run of decimal digits, and the incremented value still fits.
pub open spec fn line_bumpable(line: Seq<char>) -> bool {
    let a = run_start(line, 0);
    let b = run_end(line, a);
    &&& is_serial_line(line)
    &&& a < line.len()
    &&& seq_digits_val(line.subrange(a, b)) + 1 <= u64::MAX
}

/// The line with its first digit run replaced by the run's value plus one.
pub open spec fn bump_applied(line: Seq<char>) -> Seq<char> {
    let a = run_start(line, 0);
    let b = run_end(line, a);
    let v = seq_digits_val(line.subrange(a, b));
    line.subrange(0, a) + digits_of(v + 1) + line.subrange(b, line.len() as int)
}

/// Index of the first line the incrementer handles (`lines.len()` if none).
pub open spec fn first_bumpable(lines: Seq<Seq<char>>, i: int) -> int
    decreases lines.len() - i,
    when 0 <= i <= lines.len()
{
    if i >= lines.len() {
        i
    } else if line_bumpable(lines[i]) {
        i
    } else {
        first_bumpable(lines, i + 1)
    }
}

/// Failure of the incrementer: no line holds a serial to bump.
#[derive(Debug, PartialEq, Eq, Structural)]
pub enum SerialError {
    NotFound,
}

/// Whether a line is a serial line, as executable code.
fn serial_line(line: &str) -> (r: bool)
    ensures
        r == is_serial_line(line@),
{
    proof {
        reveal_strlit("serial");
        assert("serial"@ =~= serial_word());
    }
    let low = to_lower(line);
    contains_str(low.as_str(), "serial")
}

/// The first run of decimal digits of `s`: start index, and end index when
/// a run exists.
fn digit_run(s: &str) -> (r: (usize, usize))
    ensures
        r.0 as int == run_start(s@, 0),
        (r.0 as int) < s@.len() ==> r.1 as int == run_end(s@, r.0 as int),
        r.0 <= r.1 <= s@.len(),
{
    let n = s.unicode_len();
    let mut a: usize = 0;
    while a < n && !digit_char(s.get_char(a))
        invariant
            n == s@.len(),
            a <= n,
            run_start(s@, 0) == run_start(s@, a as int),
        decreases n - a,
    {
        a += 1;
    }
    assert(run_start(s@, a as int) == a);
    let mut b: usize = a;
    while b < n && digit_char(s.get_char(b))
        invariant
            n == s@.len(),
            a <= b <= n,
            run_end(s@, a as int) == run_end(s@, b as int),
        decreases n - b,
    {
        b += 1;
    }
    assert(run_end(s@, b as int) == b);
    (a, b)
}

/// Bumps the serial in a run of lines, specified by `first_bumpable` and
/// `bump_applied`: the first handled line has its digit run replaced in
/// place, every other line passes through unchanged, and with no handled
/// line the result is `SerialError::NotFound`.
pub fn bump_serial_lines(lines: &Vec<String>) -> (r: Result<Vec<String>, SerialError>)
    ensures
        ({
            let ldv = lines.deep_view();
            let k = first_bumpable(ldv, 0);
            match r {
                Result::Ok(out) => k < ldv.len() && out.deep_view() == ldv.update(
                    k,
                    bump_applied(ldv[k]),
                ),
                Result::Err(e) => k == ldv.len() && e == SerialError::NotFound,
            }
        }),
{
    let ghost ldv = lines.deep_view();
    let n = lines.len();
    let mut out: Vec<String> = Vec::new();
    let mut i: usize = 0;
    assert(out.deep_view() =~= ldv.subrange(0, 0));
    while i < n
        invariant
            ldv == lines.deep_view(),
            n == lines@.len(),
            i <= n,
            first_bumpable(ldv, 0) == first_bumpable(ldv, i as int),
            out.deep_view() == ldv.subrange(0, i as int),
        decreases n - i,
    {
        assert(ldv[i as int] == lines@[i as int]@);
        let line = &lines[i];
        if serial_line(line.as_str()) {
            let (a, b) = digit_run(line.as_str());
            if a < line.as_str().unicode_len() {
                proof {
                    lemma_run_end_bounds(line@, a as int);
                }
                match parse_digits(line.as_str(), a, b) {
                    Option::Some(v) => {
                        if v < u64::MAX {
                            let pre = line.as_str().substring_char(0, a);
                            let post = line.as_str().substring_char(
                                b,
                                line.as_str().unicode_len(),
                            );
                            let mid = u64_to_string(v + 1);
                            let mut nl = pre.to_owned();
                            nl.append(mid.as_str());
                            nl.append(post);
                            assert(nl@ =~= bump_applied(ldv[i as int]));
                            assert(line_bumpable(ldv[i as int]));
                            let ghost k = i as int;
                            let ghost dv = out.deep_view();
                            out.push(nl);
                            assert(out.deep_view() =~= dv.push(bump_applied(ldv[k])));
                            let mut j: usize = i + 1;
                            while j < n
                                invariant
                                    ldv == lines.deep_view(),
                                    n == lines@.len(),
                                    0 <= k < j <= n,
                                    out.deep_view() == ldv.update(
                                        k,
                                        bump_applied(ldv[k]),
                                    ).subrange(0, j as int),
                                decreases n - j,
                            {
                                assert(ldv[j as int] == lines@[j as int]@);
                                let ghost dv2 = out.deep_view();
                                out.push(crate::sets::clone_string(&lines[j]));
                                assert(out.deep_view() =~= dv2.push(ldv[j as int]));
                                assert(out.deep_view() =~= ldv.update(
                                    k,
                                    bump_applied(ldv[k]),
                                ).subrange(0, j + 1 as int));
                                j += 1;
                            }
                            proof {
                                assert(first_bumpable(ldv, 0) == k);
                                assert(ldv.update(k, bump_applied(ldv[k])).subrange(
                                    0,
                                    n as int,
                                ) =~= ldv.update(k, bump_applied(ldv[k])));
                            }
                            return Result::Ok(out);
                        } else {
                            assert(!line_bumpable(ldv[i as int]));
                        }
                    },
                    Option::None => {
                        assert(!line_bumpable(ldv[i as int]));
                    },
                }
            } else {
                assert(!line_bumpable(ldv[i as int]));
            }
        } else {
            assert(!line_bumpable(ldv[i as int]));
        }
        let ghost dv = out.deep_view();
        out.push(crate::sets::clone_string(line));
        assert(out.deep_view() =~= dv.push(ldv[i as int]));
        assert(out.deep_view() =~= ldv.subrange(0, i + 1 as int));
        i += 1;
    }
    assert(first_bumpable(ldv, n as int) == n);
    Result::Err(SerialError::NotFound)
}

} // verus!
