//! Calendar timestamps as plain values.  The caller converts whatever clock
//! it uses into these fields; the engine only needs to render them in the
//! fixed `YYYY-MM-DD HH:MM:SS` shape that tags machine-managed zone lines.

use vstd::prelude::*;
use vstd::string::StringExecFns;
use crate::text::{pad2_spec, pad4_spec, u64_pad2, u64_pad4};

verus! {

/// A wall-clock timestamp, second precision, no time zone.
#[derive(Clone, Copy, PartialEq, Eq, Structural)]
pub struct Timestamp {
    pub year: u64,
    pub month: u64,
    pub day: u64,
    pub hour: u64,
    pub minute: u64,
    pub second: u64,
}

impl Timestamp {
    /// Field ranges of a renderable timestamp.
    pub open spec fn wf(self) -> bool {
        &&& self.year <= 9999
        &&& 1 <= self.month <= 12
        &&& 1 <= self.day <= 31
        &&& self.hour <= 23
        &&& self.minute <= 59
        &&& self.second <= 59
    }
}

/// The fixed-width rendering `YYYY-MM-DD HH:MM:SS` of a timestamp.
pub open spec fn ts_format(t: Timestamp) -> Seq<char> {
    pad4_spec(t.year as nat) + seq!['-'] + pad2_spec(t.month as nat) + seq!['-'] + pad2_spec(
        t.day as nat,
    ) + seq![' '] + pad2_spec(t.hour as nat) + seq![':'] + pad2_spec(t.minute as nat) + seq![':']
        + pad2_spec(t.second as nat)
}

/// Renders a timestamp as `YYYY-MM-DD HH:MM:SS`, fixed width, no time-zone
/// suffix.
pub fn dt_format(dt: &Timestamp) -> (r: String)
    requires
        dt.wf(),
    ensures
        r@ == ts_format(*dt),
{
    let mut r = u64_pad4(dt.year);
    r.push('-');
    let m = u64_pad2(dt.month);
    r.append(m.as_str());
    r.push('-');
    let d = u64_pad2(dt.day);
    r.append(d.as_str());
    r.push(' ');
    let h = u64_pad2(dt.hour);
    r.append(h.as_str());
    r.push(':');
    let mi = u64_pad2(dt.minute);
    r.append(mi.as_str());
    r.push(':');
    let s = u64_pad2(dt.second);
    r.append(s.as_str());
    assert(r@ =~= ts_format(*dt));
    r
}

/// Every character of a rendered timestamp is a digit, a dash, a colon or a
/// space; in particular none is a line break or a tab.
pub proof fn lemma_ts_format_chars(t: Timestamp)
    requires
        t.wf(),
    ensures
        forall|k: int|
            0 <= k < ts_format(t).len() ==> (crate::text::is_digit_char(ts_format(t)[k])
                || ts_format(t)[k] == '-' || ts_format(t)[k] == ':' || ts_format(t)[k] == ' '),
{
    lemma_pad_chars(t.year as nat);
    lemma_pad_chars(t.month as nat);
    lemma_pad_chars(t.day as nat);
    lemma_pad_chars(t.hour as nat);
    lemma_pad_chars(t.minute as nat);
    lemma_pad_chars(t.second as nat);
}

/// Decimal renderings consist of digit characters only.
pub proof fn lemma_digits_of_chars(n: nat)
    ensures
        forall|k: int|
            0 <= k < crate::text::digits_of(n).len() ==> crate::text::is_digit_char(
                crate::text::digits_of(n)[k],
            ),
    decreases n,
{
    let ds = crate::text::digits_of(n);
    if n < 10 {
        assert(crate::text::char_of_digit(n) as u32 == n + 48);
        assert(ds =~= seq![crate::text::char_of_digit(n)]);
    } else {
        lemma_digits_of_chars(n / 10);
        assert(crate::text::char_of_digit(n % 10) as u32 == n % 10 + 48);
        assert forall|k: int| 0 <= k < ds.len() implies crate::text::is_digit_char(ds[k]) by {
            if k < ds.len() - 1 {
                assert(ds[k] == crate::text::digits_of(n / 10)[k]);
            } else {
                assert(ds[k] == crate::text::char_of_digit(n % 10));
            }
        }
    }
}

proof fn lemma_pad_chars(n: nat)
    ensures
        forall|k: int|
            0 <= k < pad2_spec(n).len() ==> crate::text::is_digit_char(pad2_spec(n)[k]),
        forall|k: int|
            0 <= k < pad4_spec(n).len() ==> crate::text::is_digit_char(pad4_spec(n)[k]),
{
    lemma_digits_of_chars(n);
    assert(crate::text::is_digit_char('0'));
}

} // verus!
