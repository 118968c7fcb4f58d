//! Verified text primitives shared by the zone and serial rewriters: ASCII
//! lower-casing, substring search, whitespace-delimited tokens, runs of
//! decimal digits, and decimal rendering of integers.

use vstd::prelude::*;
use vstd::string::StrSliceExecFns;
use vstd::string::StringExecFns;

verus! {

// ---------------------------------------------------------------------------
// Characters
// ---------------------------------------------------------------------------

/// The whitespace characters that delimit tokens in a zone-file line.
pub open spec fn is_space_char(c: char) -> bool {
    c == ' ' || c == '\t' || c == '\r' || c == '\n'
}

pub fn space_char(c: char) -> (r: bool)
    ensures
        r == is_space_char(c),
{
    c == ' ' || c == '\t' || c == '\r' || c == '\n'
}

pub open spec fn is_digit_char(c: char) -> bool {
    48 <= c as u32 && c as u32 <= 57
}

pub fn digit_char(c: char) -> (r: bool)
    ensures
        r == is_digit_char(c),
{
    let u = c as u32;
    48 <= u && u <= 57
}

/// The numeric value of a decimal digit character (0 for non-digits).
pub open spec fn digit_value(c: char) -> nat {
    if is_digit_char(c) {
        (c as u32 - 48) as nat
    } else {
        0
    }
}

/// The decimal digit character for a value below ten.
pub open spec fn char_of_digit(d: nat) -> char {
    ((d + 48) as u8) as char
}

/// ASCII lower-casing of one character: `A`..`Z` map to `a`..`z`, everything
/// else is unchanged.
pub open spec fn lower_char(c: char) -> char {
    if 65 <= c as u32 && c as u32 <= 90 {
        ((c as u32 + 32) as u8) as char
    } else {
        c
    }
}

pub open spec fn lower_seq(s: Seq<char>) -> Seq<char> {
    s.map_values(|c: char| lower_char(c))
}

/// Lower-casing twice is the same as lower-casing once.
pub proof fn lemma_lower_idempotent(s: Seq<char>)
    ensures
        lower_seq(lower_seq(s)) == lower_seq(s),
{
    assert forall|i: int| 0 <= i < s.len() implies lower_char(lower_char(s[i])) == lower_char(
        s[i],
    ) by {
        let c = s[i];
        if 65 <= c as u32 && c as u32 <= 90 {
            assert(lower_char(c) as u32 == c as u32 + 32);
        }
    }
    assert(lower_seq(lower_seq(s)) =~= lower_seq(s));
}

// ---------------------------------------------------------------------------
// String builders
// ---------------------------------------------------------------------------

/// Relies on `String::push` from std: it appends exactly the one given
/// character to the string.
pub assume_specification[ String::push ](s: &mut String, ch: char)
    ensures
        final(s)@ == old(s)@.push(ch),
;

/// ASCII lower-casing of a whole string.
pub fn to_lower(s: &str) -> (r: String)
    ensures
        r@ == lower_seq(s@),
{
    let n = s.unicode_len();
    let mut r = String::new();
    let mut i: usize = 0;
    while i < n
        invariant
            n == s@.len(),
            i <= n,
            r@ == lower_seq(s@.subrange(0, i as int)),
        decreases n - i,
    {
        let c = s.get_char(i);
        let u = c as u32;
        let lc = if 65 <= u && u <= 90 {
            ((u + 32) as u8) as char
        } else {
            c
        };
        assert(lc == lower_char(c));
        r.push(lc);
        assert(r@ =~= lower_seq(s@.subrange(0, i + 1 as int)));
        i += 1;
    }
    assert(s@.subrange(0, n as int) =~= s@);
    r
}

// ---------------------------------------------------------------------------
// Substring search
// ---------------------------------------------------------------------------

/// `pat` occurs in `s` starting at position `i`.
pub open spec fn matches_at(s: Seq<char>, pat: Seq<char>, i: int) -> bool {
    0 <= i && i + pat.len() <= s.len() && s.subrange(i, i + pat.len()) == pat
}

/// `pat` occurs somewhere in `s`.
pub open spec fn contains_seq(s: Seq<char>, pat: Seq<char>) -> bool {
    exists|i: int| matches_at(s, pat, i)
}

fn matches_here(s: &str, n: usize, pat: &str, m: usize, i: usize) -> (r: bool)
    requires
        n == s@.len(),
        m == pat@.len(),
        i + m <= n,
    ensures
        r == matches_at(s@, pat@, i as int),
{
    let mut j: usize = 0;
    while j < m
        invariant
            n == s@.len(),
            m == pat@.len(),
            i + m <= n,
            j <= m,
            forall|k: int| 0 <= k < j ==> s@[i + k] == pat@[k],
        decreases m - j,
    {
        if s.get_char(i + j) != pat.get_char(j) {
            assert(s@.subrange(i as int, i + m)[j as int] == s@[i + j]);
            return false;
        }
        j += 1;
    }
    assert(s@.subrange(i as int, i + m) =~= pat@);
    true
}

/// Substring search, specified by `contains_seq`.
pub fn contains_str(s: &str, pat: &str) -> (r: bool)
    ensures
        r == contains_seq(s@, pat@),
{
    let n = s.unicode_len();
    let m = pat.unicode_len();
    if m > n {
        assert(forall|i: int| !matches_at(s@, pat@, i));
        return false;
    }
    if m == 0 {
        assert(pat@ =~= Seq::<char>::empty());
        assert(s@.subrange(0, 0) =~= pat@);
        assert(matches_at(s@, pat@, 0));
        return true;
    }
    let mut i: usize = 0;
    while i <= n - m
        invariant
            n == s@.len(),
            m == pat@.len(),
            1 <= m <= n,
            i <= n - m + 1,
            forall|k: int| 0 <= k < i ==> !matches_at(s@, pat@, k),
        decreases n - i,
    {
        if matches_here(s, n, pat, m, i) {
            assert(matches_at(s@, pat@, i as int));
            return true;
        }
        i += 1;
    }
    assert(forall|k: int| !matches_at(s@, pat@, k));
    false
}

// ---------------------------------------------------------------------------
// Tokens
// ---------------------------------------------------------------------------

/// Index of the first non-whitespace character at or after `i`
/// (`s.len()` if there is none).
pub open spec fn token_start(s: Seq<char>, i: int) -> int
    decreases s.len() - i,
    when 0 <= i <= s.len()
{
    if i >= s.len() {
        i
    } else if is_space_char(s[i]) {
        token_start(s, i + 1)
    } else {
        i
    }
}

/// Index of the first whitespace character at or after `i`
/// (`s.len()` if there is none).
pub open spec fn token_end(s: Seq<char>, i: int) -> int
    decreases s.len() - i,
    when 0 <= i <= s.len()
{
    if i >= s.len() {
        i
    } else if is_space_char(s[i]) {
        i
    } else {
        token_end(s, i + 1)
    }
}

/// The first whitespace-delimited token of a line (empty if the line is
/// empty or all whitespace).
pub open spec fn first_token(s: Seq<char>) -> Seq<char> {
    s.subrange(token_start(s, 0), token_end(s, token_start(s, 0)))
}



/// Between `j` and a boundary `m` all characters are non-whitespace, and
/// `m` is the line's end or whitespace: then the token ends at `m`.
pub proof fn lemma_token_end_at(s: Seq<char>, j: int, m: int)
    requires
        0 <= j <= m <= s.len(),
        forall|k: int| j <= k < m ==> !is_space_char(s[k]),
        m == s.len() || is_space_char(s[m]),
    ensures
        token_end(s, j) == m,
    decreases m - j,
{
    if j < m {
        lemma_token_end_at(s, j + 1, m);
    }
}

/// A line that starts with a non-empty whitespace-free prefix followed by
/// whitespace (or the end) has that prefix as its first token.
pub proof fn lemma_first_token_prefix(s: Seq<char>, m: int)
    requires
        0 < m <= s.len(),
        forall|k: int| 0 <= k < m ==> !is_space_char(s[k]),
        m == s.len() || is_space_char(s[m]),
    ensures
        first_token(s) == s.subrange(0, m),
{
    lemma_token_end_at(s, 0, m);
}

/// The first whitespace-delimited token of a line, as executable code.
pub fn first_token_of(s: &str) -> (r: String)
    ensures
        r@ == first_token(s@),
{
    let n = s.unicode_len();
    let mut a: usize = 0;
    while a < n && space_char(s.get_char(a))
        invariant
            n == s@.len(),
            a <= n,
            token_start(s@, 0) == token_start(s@, a as int),
        decreases n - a,
    {
        a += 1;
    }
    assert(token_start(s@, a as int) == a);
    let mut b: usize = a;
    while b < n && !space_char(s.get_char(b))
        invariant
            n == s@.len(),
            a <= b <= n,
            token_end(s@, a as int) == token_end(s@, b as int),
        decreases n - b,
    {
        b += 1;
    }
    assert(token_end(s@, b as int) == b);
    let t = s.substring_char(a, b);
    t.to_owned()
}

// ---------------------------------------------------------------------------
// Splitting on a separator character
// ---------------------------------------------------------------------------

/// Splitting `s` on `c`, from position `i`, with `cur` the part of the
/// current group read so far.  Mirrors `str::split`: `n` separators yield
/// `n + 1` groups, and adjacent separators yield empty groups.
pub open spec fn split_char_rec(s: Seq<char>, c: char, i: int, cur: Seq<char>) -> Seq<Seq<char>>
    decreases s.len() - i,
    when 0 <= i <= s.len()
{
    if i >= s.len() {
        seq![cur]
    } else if s[i] == c {
        seq![cur] + split_char_rec(s, c, i + 1, Seq::empty())
    } else {
        split_char_rec(s, c, i + 1, cur.push(s[i]))
    }
}

/// The groups of `s` between occurrences of the separator `c`.
pub open spec fn split_char(s: Seq<char>, c: char) -> Seq<Seq<char>> {
    split_char_rec(s, c, 0, Seq::empty())
}


/// Splits a string on a separator character, specified by `split_char`.
pub fn split_str(s: &str, c: char) -> (r: Vec<String>)
    ensures
        r.deep_view() == split_char(s@, c),
{
    let n = s.unicode_len();
    let mut out: Vec<String> = Vec::new();
    let mut cur = String::new();
    let mut i: usize = 0;
    while i < n
        invariant
            n == s@.len(),
            i <= n,
            split_char(s@, c) == out.deep_view() + split_char_rec(s@, c, i as int, cur@),
        decreases n - i,
    {
        let ch = s.get_char(i);
        if ch == c {
            let ghost old_dv = out.deep_view();
            let ghost cv = cur@;
            out.push(cur);
            cur = String::new();
            proof {
                assert(out.deep_view() =~= old_dv.push(cv));
                assert(old_dv.push(cv) + split_char_rec(s@, c, i + 1, Seq::empty()) =~= old_dv + (
                seq![cv] + split_char_rec(s@, c, i + 1, Seq::empty())));
            }
        } else {
            cur.push(ch);
        }
        i += 1;
    }
    let ghost old_dv = out.deep_view();
    let ghost cv = cur@;
    out.push(cur);
    proof {
        assert(out.deep_view() =~= old_dv.push(cv));
        assert(old_dv.push(cv) =~= old_dv + seq![cv]);
    }
    out
}

/// Index of the first occurrence of `c` at or after `i` (`s.len()` if
/// there is none).
pub open spec fn find_char(s: Seq<char>, c: char, i: int) -> int
    decreases s.len() - i,
    when 0 <= i <= s.len()
{
    if i >= s.len() {
        i
    } else if s[i] == c {
        i
    } else {
        find_char(s, c, i + 1)
    }
}

pub proof fn lemma_find_char_bounds(s: Seq<char>, c: char, i: int)
    requires
        0 <= i <= s.len(),
    ensures
        i <= find_char(s, c, i) <= s.len(),
        find_char(s, c, i) < s.len() ==> s[find_char(s, c, i)] == c,
    decreases s.len() - i,
{
    if i < s.len() && s[i] != c {
        lemma_find_char_bounds(s, c, i + 1);
    }
}

/// Index of the first occurrence of `c` in `s`, as executable code.
pub fn find_char_in(s: &str, c: char) -> (r: usize)
    ensures
        r as int == find_char(s@, c, 0),
        r <= s@.len(),
{
    let n = s.unicode_len();
    let mut i: usize = 0;
    while i < n
        invariant
            n == s@.len(),
            i <= n,
            find_char(s@, c, 0) == find_char(s@, c, i as int),
        decreases n - i,
    {
        if s.get_char(i) == c {
            return i;
        }
        i += 1;
    }
    n
}

/// Whether two strings hold the same characters.
pub fn str_eq(a: &str, b: &str) -> (r: bool)
    ensures
        r == (a@ == b@),
{
    let n = a.unicode_len();
    let m = b.unicode_len();
    if n != m {
        return false;
    }
    let mut i: usize = 0;
    while i < n
        invariant
            n == a@.len(),
            n == b@.len(),
            i <= n,
            forall|k: int| 0 <= k < i ==> a@[k] == b@[k],
        decreases n - i,
    {
        if a.get_char(i) != b.get_char(i) {
            return false;
        }
        i += 1;
    }
    assert(a@ =~= b@);
    true
}

/// `s` has an occurrence of the character `c`.
pub fn contains_char(s: &str, c: char) -> (r: bool)
    ensures
        r == s@.contains(c),
{
    let n = s.unicode_len();
    let mut i: usize = 0;
    while i < n
        invariant
            n == s@.len(),
            i <= n,
            forall|k: int| 0 <= k < i ==> s@[k] != c,
        decreases n - i,
    {
        if s.get_char(i) == c {
            assert(s@[i as int] == c);
            return true;
        }
        i += 1;
    }
    assert(forall|k: int| 0 <= k < s@.len() ==> s@[k] != c);
    false
}

// ---------------------------------------------------------------------------
// Digit runs and decimal numbers
// ---------------------------------------------------------------------------

/// Index of the first decimal digit at or after `i` (`s.len()` if none).
pub open spec fn run_start(s: Seq<char>, i: int) -> int
    decreases s.len() - i,
    when 0 <= i <= s.len()
{
    if i >= s.len() {
        i
    } else if is_digit_char(s[i]) {
        i
    } else {
        run_start(s, i + 1)
    }
}

/// Index of the first non-digit at or after `i` (`s.len()` if none).
pub open spec fn run_end(s: Seq<char>, i: int) -> int
    decreases s.len() - i,
    when 0 <= i <= s.len()
{
    if i >= s.len() {
        i
    } else if is_digit_char(s[i]) {
        run_end(s, i + 1)
    } else {
        i
    }
}


pub proof fn lemma_run_end_bounds(s: Seq<char>, i: int)
    requires
        0 <= i <= s.len(),
    ensures
        i <= run_end(s, i) <= s.len(),
        forall|k: int| i <= k < run_end(s, i) ==> is_digit_char(s[k]),
        run_end(s, i) < s.len() ==> !is_digit_char(s[run_end(s, i)]),
    decreases s.len() - i,
{
    if i < s.len() && is_digit_char(s[i]) {
        lemma_run_end_bounds(s, i + 1);
    }
}

/// The number denoted by a sequence of decimal digit characters.
pub open spec fn seq_digits_val(s: Seq<char>) -> nat
    decreases s.len(),
{
    if s.len() == 0 {
        0
    } else {
        seq_digits_val(s.drop_last()) * 10 + digit_value(s.last())
    }
}

/// The decimal digit characters of a number, most significant first.
pub open spec fn digits_of(n: nat) -> Seq<char>
    decreases n,
{
    if n < 10 {
        seq![char_of_digit(n)]
    } else {
        digits_of(n / 10).push(char_of_digit(n % 10))
    }
}

/// Appending one more digit multiplies the value by ten and adds the digit.
pub proof fn lemma_digits_val_step(s: Seq<char>, i: int, j: int)
    requires
        0 <= i <= j < s.len(),
    ensures
        seq_digits_val(s.subrange(i, j + 1)) == seq_digits_val(s.subrange(i, j)) * 10
            + digit_value(s[j]),
{
    assert(s.subrange(i, j + 1).drop_last() =~= s.subrange(i, j));
    assert(s.subrange(i, j + 1).last() == s[j]);
}

/// The value of a digit sequence only grows as the sequence is extended.
pub proof fn lemma_digits_val_monotone(s: Seq<char>, i: int, j: int, k: int)
    requires
        0 <= i <= j <= k <= s.len(),
    ensures
        seq_digits_val(s.subrange(i, j)) <= seq_digits_val(s.subrange(i, k)),
    decreases k - j,
{
    if j < k {
        lemma_digits_val_step(s, i, k - 1);
        lemma_digits_val_monotone(s, i, j, k - 1);
    }
}

/// Parses the digit characters of `s` between `a` and `b` as a number;
/// `None` when the value does not fit in a `u64`.
pub fn parse_digits(s: &str, a: usize, b: usize) -> (r: Option<u64>)
    requires
        a <= b <= s@.len(),
        forall|k: int| a <= k < b ==> is_digit_char(s@[k]),
    ensures
        match r {
            Some(v) => v as nat == seq_digits_val(s@.subrange(a as int, b as int)),
            None => seq_digits_val(s@.subrange(a as int, b as int)) > u64::MAX,
        },
{
    let mut acc: u64 = 0;
    let mut i: usize = a;
    assert(s@.subrange(a as int, a as int) =~= Seq::<char>::empty());
    while i < b
        invariant
            a <= i <= b <= s@.len(),
            forall|k: int| a <= k < b ==> is_digit_char(s@[k]),
            acc as nat == seq_digits_val(s@.subrange(a as int, i as int)),
        decreases b - i,
    {
        let c = s.get_char(i);
        let d = (c as u32 - 48) as u64;
        assert(d == digit_value(s@[i as int]));
        proof {
            lemma_digits_val_step(s@, a as int, i as int);
        }
        if acc > (u64::MAX - d) / 10 {
            proof {
                lemma_digits_val_monotone(s@, a as int, i + 1, b as int);
            }
            return None;
        }
        acc = acc * 10 + d;
        i += 1;
    }
    Some(acc)
}

/// Renders a number in decimal, specified by `digits_of`.
pub fn u64_to_string(n: u64) -> (r: String)
    ensures
        r@ == digits_of(n as nat),
{
    let mut digs: Vec<char> = Vec::new();
    let mut m: u64 = n;
    let ghost mut rest: Seq<char> = Seq::empty();
    loop
        invariant_except_break
            digits_of(n as nat) == digits_of(m as nat) + rest,
        invariant
            digs@.len() == rest.len(),
            forall|k: int| 0 <= k < rest.len() ==> digs@[k] == rest[rest.len() - 1 - k],
        ensures
            digits_of(n as nat) == rest,
        decreases m,
    {
        let d = m % 10;
        let c = ((48 + d) as u8) as char;
        assert(c == char_of_digit(d as nat));
        digs.push(c);
        proof {
            let prev = rest;
            rest = seq![char_of_digit((m % 10) as nat)] + rest;
            if m >= 10 {
                assert(digits_of(m as nat) == digits_of((m as nat) / 10).push(
                    char_of_digit((m as nat) % 10),
                ));
                assert(digits_of((m as nat) / 10) + rest =~= digits_of(m as nat) + prev);
            } else {
                assert(digits_of(m as nat) =~= seq![char_of_digit((m as nat) % 10)]);
                assert(rest =~= digits_of(m as nat) + prev);
            }
        }
        if m < 10 {
            break;
        }
        m = m / 10;
    }
    let mut r = String::new();
    let mut i: usize = digs.len();
    while i > 0
        invariant
            i <= digs@.len(),
            digs@.len() == rest.len(),
            forall|k: int| 0 <= k < rest.len() ==> digs@[k] == rest[rest.len() - 1 - k],
            r@ == rest.subrange(0, rest.len() - i),
        decreases i,
    {
        i -= 1;
        r.push(digs[i]);
        assert(r@ =~= rest.subrange(0, rest.len() - i));
    }
    assert(rest.subrange(0, rest.len() as int) =~= rest);
    r
}

/// Renders a number below 100 as exactly two digits, zero-padded.
pub open spec fn pad2_spec(n: nat) -> Seq<char> {
    if n < 10 {
        seq!['0'] + digits_of(n)
    } else {
        digits_of(n)
    }
}

pub fn u64_pad2(n: u64) -> (r: String)
    requires
        n < 100,
    ensures
        r@ == pad2_spec(n as nat),
{
    let mut r = String::new();
    if n < 10 {
        r.push('0');
    }
    let d = u64_to_string(n);
    let r2 = r.concat(d.as_str());
    assert(r2@ =~= pad2_spec(n as nat));
    r2
}

/// Renders a number below 10000 as exactly four digits, zero-padded.
pub open spec fn pad4_spec(n: nat) -> Seq<char> {
    if n < 10 {
        seq!['0', '0', '0'] + digits_of(n)
    } else if n < 100 {
        seq!['0', '0'] + digits_of(n)
    } else if n < 1000 {
        seq!['0'] + digits_of(n)
    } else {
        digits_of(n)
    }
}

pub fn u64_pad4(n: u64) -> (r: String)
    requires
        n < 10000,
    ensures
        r@ == pad4_spec(n as nat),
{
    let mut r = String::new();
    if n < 10 {
        r.push('0');
        r.push('0');
        r.push('0');
    } else if n < 100 {
        r.push('0');
        r.push('0');
    } else if n < 1000 {
        r.push('0');
    }
    let d = u64_to_string(n);
    let r2 = r.concat(d.as_str());
    assert(r2@ =~= pad4_spec(n as nat));
    r2
}


// ---------------------------------------------------------------------------
// Lexicographic order
// ---------------------------------------------------------------------------

/// Lexicographic order on character sequences, by code point.
pub open spec fn lex_le(a: Seq<char>, b: Seq<char>) -> bool
    decreases a.len(),
{
    if a.len() == 0 {
        true
    } else if b.len() == 0 {
        false
    } else if (a[0] as u32) < (b[0] as u32) {
        true
    } else if (a[0] as u32) > (b[0] as u32) {
        false
    } else {
        lex_le(a.drop_first(), b.drop_first())
    }
}

/// Any two sequences are ordered one way or the other.
pub proof fn lemma_lex_le_total(a: Seq<char>, b: Seq<char>)
    ensures
        lex_le(a, b) || lex_le(b, a),
    decreases a.len(),
{
    if a.len() > 0 && b.len() > 0 && a[0] as u32 == b[0] as u32 {
        lemma_lex_le_total(a.drop_first(), b.drop_first());
    }
}

/// Lexicographic order is transitive.
pub proof fn lemma_lex_le_trans(a: Seq<char>, b: Seq<char>, c: Seq<char>)
    requires
        lex_le(a, b),
        lex_le(b, c),
    ensures
        lex_le(a, c),
    decreases a.len(),
{
    if a.len() > 0 && b.len() > 0 && c.len() > 0 && a[0] as u32 == b[0] as u32 && b[0] as u32
        == c[0] as u32 {
        lemma_lex_le_trans(a.drop_first(), b.drop_first(), c.drop_first());
    }
}

/// Lexicographic comparison, as executable code.
pub fn str_lex_le(a: &str, b: &str) -> (r: bool)
    ensures
        r == lex_le(a@, b@),
{
    let n = a.unicode_len();
    let m = b.unicode_len();
    let mut i: usize = 0;
    assert(a@.subrange(0, n as int) =~= a@);
    assert(b@.subrange(0, m as int) =~= b@);
    while i < n && i < m
        invariant
            n == a@.len(),
            m == b@.len(),
            i <= n,
            i <= m,
            lex_le(a@, b@) == lex_le(
                a@.subrange(i as int, n as int),
                b@.subrange(i as int, m as int),
            ),
        decreases n - i,
    {
        let ca = a.get_char(i);
        let cb = b.get_char(i);
        let ghost sa = a@.subrange(i as int, n as int);
        let ghost sb = b@.subrange(i as int, m as int);
        assert(sa[0] == a@[i as int] && sb[0] == b@[i as int]);
        if (ca as u32) < (cb as u32) {
            return true;
        }
        if (ca as u32) > (cb as u32) {
            return false;
        }
        proof {
            assert(sa.drop_first() =~= a@.subrange(i + 1 as int, n as int));
            assert(sb.drop_first() =~= b@.subrange(i + 1 as int, m as int));
        }
        i += 1;
    }
    proof {
        let sa = a@.subrange(i as int, n as int);
        let sb = b@.subrange(i as int, m as int);
        if i >= n {
            assert(sa.len() == 0);
        } else {
            assert(sb.len() == 0 && sa.len() > 0);
        }
    }
    i >= n
}

} // verus!
