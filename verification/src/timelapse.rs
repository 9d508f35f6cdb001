//! Time-lapse recording: capture-duration strings such as `"24h"` or
//! `"1h30m"`, the recording configuration, the recorder's clock, frame file
//! names, and the PNG bytes of a captured frame.

use vstd::prelude::*;
use std::path::PathBuf;
use crate::png::{
    crc32, crc32_table, crc_feed, lemma_crc_update_append, png_chunk, push_be32, push_png_chunk,
    push_zlib_stored, zlib_stored,
};
use crate::animation::{ihdr_rgba, png_signature};
use crate::text::{decimal, push_char, push_chars, push_decimal, str_chars, zero_pad};

verus! {

// ── Spans of time ─────────────────────────────────────────────────────────────

/// A non-negative span of time with nanosecond resolution, as a whole
/// number of seconds plus the nanoseconds below one second.
#[derive(Debug, Clone, Copy, PartialEq, Eq, Structural)]
pub struct TimeSpan {
    pub secs: u64,
    /// Always below one second.
    pub nanos: u32,
}

impl TimeSpan {
    /// The span in nanoseconds.
    pub open spec fn total_nanos(self) -> int {
        self.secs * 1_000_000_000 + self.nanos
    }

    /// Nanoseconds stay below one second.
    pub open spec fn wf(self) -> bool {
        self.nanos < 1_000_000_000
    }

    /// The empty span.
    pub fn zero() -> (t: TimeSpan)
        ensures
            t.wf(),
            t.total_nanos() == 0,
    {
        TimeSpan { secs: 0, nanos: 0 }
    }

    /// A span of whole seconds.
    pub fn from_secs(secs: u64) -> (t: TimeSpan)
        ensures
            t.wf(),
            t.secs == secs,
            t.nanos == 0,
    {
        TimeSpan { secs, nanos: 0 }
    }

    /// The whole seconds of the span.
    pub fn as_secs(&self) -> (s: u64)
        ensures
            s == self.secs,
    {
        self.secs
    }

    /// The sum of two spans; it must fit in `u64` seconds.
    pub fn add(self, other: TimeSpan) -> (t: TimeSpan)
        requires
            self.wf(),
            other.wf(),
            self.total_nanos() + other.total_nanos() < (u64::MAX as int + 1) * 1_000_000_000,
        ensures
            t.wf(),
            t.total_nanos() == self.total_nanos() + other.total_nanos(),
    {
        let n = self.nanos + other.nanos;
        if n >= 1_000_000_000 {
            assert(self.secs + other.secs + 1 <= u64::MAX) by (nonlinear_arith)
                requires
                    self.secs * 1_000_000_000 + self.nanos + other.secs * 1_000_000_000 + other.nanos
                        < (u64::MAX as int + 1) * 1_000_000_000,
                    self.nanos + other.nanos >= 1_000_000_000,
                    self.nanos < 1_000_000_000,
                    other.nanos < 1_000_000_000,
            ;
            TimeSpan { secs: self.secs + other.secs + 1, nanos: n - 1_000_000_000 }
        } else {
            assert(self.secs + other.secs <= u64::MAX) by (nonlinear_arith)
                requires
                    self.secs * 1_000_000_000 + self.nanos + other.secs * 1_000_000_000 + other.nanos
                        < (u64::MAX as int + 1) * 1_000_000_000,
                    self.nanos >= 0,
                    other.nanos >= 0,
            ;
            TimeSpan { secs: self.secs + other.secs, nanos: n }
        }
    }

    /// Whether this span is at least as long as `other`.
    pub fn at_least(&self, other: &TimeSpan) -> (b: bool)
        requires
            self.wf(),
            other.wf(),
        ensures
            b == (self.total_nanos() >= other.total_nanos()),
    {
        proof {
            if self.secs > other.secs {
                assert(self.total_nanos() >= other.total_nanos()) by (nonlinear_arith)
                    requires self.secs >= other.secs + 1, other.nanos < 1_000_000_000, self.nanos >= 0;
            } else if self.secs < other.secs {
                assert(self.total_nanos() < other.total_nanos()) by (nonlinear_arith)
                    requires other.secs >= self.secs + 1, self.nanos < 1_000_000_000, other.nanos >= 0;
            }
        }
        self.secs > other.secs || (self.secs == other.secs && self.nanos >= other.nanos)
    }
}

// ── Duration strings ──────────────────────────────────────────────────────────

/// A parsed capture duration: total number of seconds to record.
#[derive(Debug, Clone, Copy, PartialEq, Eq, Structural)]
pub struct TimelapseDuration {
    /// Total wall-clock seconds to record.
    pub total_seconds: u64,
}

/// Characters with the Unicode `White_Space` property (what `str::trim`
/// removes).
pub open spec fn is_white_space(c: char) -> bool {
    ||| '\u{9}' <= c <= '\u{d}'
    ||| c == ' '
    ||| c == '\u{85}'
    ||| c == '\u{a0}'
    ||| c == '\u{1680}'
    ||| '\u{2000}' <= c <= '\u{200a}'
    ||| c == '\u{2028}'
    ||| c == '\u{2029}'
    ||| c == '\u{202f}'
    ||| c == '\u{205f}'
    ||| c == '\u{3000}'
}

/// `s` without its leading white space.
pub open spec fn trim_start(s: Seq<char>) -> Seq<char>
    decreases s.len(),
{
    if s.len() > 0 && is_white_space(s[0]) {
        trim_start(s.drop_first())
    } else {
        s
    }
}

/// `s` without its trailing white space.
pub open spec fn trim_end(s: Seq<char>) -> Seq<char>
    decreases s.len(),
{
    if s.len() > 0 && is_white_space(s.last()) {
        trim_end(s.drop_last())
    } else {
        s
    }
}

/// `s` without leading and trailing white space.
pub open spec fn trim(s: Seq<char>) -> Seq<char> {
    trim_end(trim_start(s))
}

/// Whether `c` is one of `0`..`9`.
pub open spec fn is_digit(c: char) -> bool {
    '0' <= c <= '9'
}

/// The value of a string of decimal digits (0 for the empty string).
pub open spec fn digits_value(d: Seq<char>) -> int
    decreases d.len(),
{
    if d.len() == 0 {
        0
    } else {
        digits_value(d.drop_last()) * 10 + (d.last() as int - '0' as int)
    }
}

/// Seconds per unit character, or 0 for a character that is no unit.
pub open spec fn unit_seconds(c: char) -> int {
    if c == 'h' || c == 'H' {
        3600
    } else if c == 'm' || c == 'M' {
        60
    } else if c == 's' || c == 'S' {
        1
    } else {
        0
    }
}

/// How reading a duration string ends.
pub enum ScanOutcome {
    /// The total number of seconds.
    Total(int),
    /// Rejected, with the error message.
    Failed(Seq<char>),
    /// A unit's seconds or the running total leaves `u64` (a panic).
    Overflow,
}

pub open spec fn msg_empty() -> Seq<char> {
    "empty duration string"@
}

pub open spec fn msg_no_digits() -> Seq<char> {
    "invalid number: cannot parse integer from empty string"@
}

pub open spec fn msg_too_large() -> Seq<char> {
    "invalid number: number too large to fit in target type"@
}

pub open spec fn msg_unit(c: char) -> Seq<char> {
    "unexpected unit character '"@ + seq![c] + "'"@
}

pub open spec fn msg_trailing(num: Seq<char>) -> Seq<char> {
    "trailing number without unit: '"@ + num + "'"@
}

pub open spec fn msg_zero() -> Seq<char> {
    "duration must be greater than zero"@
}

/// Reading `s` from position `i` with `total` seconds so far and the digits
/// `num` of the number being read.
pub open spec fn scan(s: Seq<char>, i: int, total: int, num: Seq<char>) -> ScanOutcome
    decreases s.len() - i,
{
    if i >= s.len() {
        if num.len() > 0 {
            ScanOutcome::Failed(msg_trailing(num))
        } else if total == 0 {
            ScanOutcome::Failed(msg_zero())
        } else {
            ScanOutcome::Total(total)
        }
    } else if is_digit(s[i]) {
        scan(s, i + 1, total, num.push(s[i]))
    } else if num.len() == 0 {
        ScanOutcome::Failed(msg_no_digits())
    } else if digits_value(num) > u64::MAX {
        ScanOutcome::Failed(msg_too_large())
    } else if unit_seconds(s[i]) == 0 {
        ScanOutcome::Failed(msg_unit(s[i]))
    } else if digits_value(num) * unit_seconds(s[i]) > u64::MAX || total + digits_value(num)
        * unit_seconds(s[i]) > u64::MAX {
        ScanOutcome::Overflow
    } else {
        scan(s, i + 1, total + digits_value(num) * unit_seconds(s[i]), Seq::empty())
    }
}

/// How `TimelapseDuration::parse` reads `s`.
pub open spec fn parse_duration(s: Seq<char>) -> ScanOutcome {
    let t = trim(s);
    if t.len() == 0 {
        ScanOutcome::Failed(msg_empty())
    } else {
        scan(t, 0, 0, Seq::empty())
    }
}

/// The text of `display()`: `"{h}h{mm}m{ss}s"` with at least one hour,
/// `"{m}m{ss}s"` otherwise.
pub open spec fn display_text(total: u64) -> Seq<char> {
    let h = total / 3600;
    let m = (total % 3600) / 60;
    let s = total % 60;
    if h > 0 {
        decimal(h as nat) + seq!['h'] + zero_pad(decimal(m as nat), 2) + seq!['m'] + zero_pad(
            decimal(s as nat),
            2,
        ) + seq!['s']
    } else {
        decimal(m as nat) + seq!['m'] + zero_pad(decimal(s as nat), 2) + seq!['s']
    }
}

/// Every character of a decimal numeral is a digit, and the numeral reads
/// back as its value.
proof fn lemma_decimal_reads_back(n: nat)
    ensures
        decimal(n).len() >= 1,
        forall|i: int| 0 <= i < decimal(n).len() ==> is_digit(#[trigger] decimal(n)[i]),
        digits_value(decimal(n)) == n,
    decreases n,
{
    let dc = crate::text::digit_char((n % 10) as int);
    assert(dc as int == '0' as int + n % 10);
    if n < 10 {
        assert(decimal(n) =~= seq![dc]);
        assert(decimal(n).drop_last() =~= Seq::<char>::empty());
        assert(decimal(n).last() == dc);
        assert(n % 10 == n);
        assert(digits_value(decimal(n).drop_last()) == 0);
        assert(digits_value(decimal(n)) == digits_value(decimal(n).drop_last()) * 10 + (dc as int - '0' as int));
    } else {
        lemma_decimal_reads_back(n / 10);
        let d = decimal(n);
        assert(d.drop_last() =~= decimal(n / 10));
        assert(d.last() == dc);
        assert(n == (n / 10) * 10 + n % 10);
        assert(digits_value(d.drop_last()) == n / 10);
        assert(digits_value(d) == digits_value(d.drop_last()) * 10 + (d.last() as int - '0' as int));
        assert forall|i: int| 0 <= i < d.len() implies is_digit(#[trigger] d[i]) by {
            if i < d.len() - 1 {
                assert(d[i] == decimal(n / 10)[i]);
            }
        }
    }
}

/// A leading `'0'` does not change the value of a digit string.
proof fn lemma_leading_zero(d: Seq<char>)
    ensures
        digits_value(seq!['0'] + d) == digits_value(d),
    decreases d.len(),
{
    if d.len() > 0 {
        lemma_leading_zero(d.drop_last());
        assert((seq!['0'] + d).drop_last() =~= seq!['0'] + d.drop_last());
        assert((seq!['0'] + d).last() == d.last());
    } else {
        assert((seq!['0'] + d).drop_last() =~= Seq::<char>::empty());
        assert(digits_value(Seq::<char>::empty()) == 0);
    }
}

/// Padding with zeros keeps a digit string's digits and value.
proof fn lemma_zero_pad_reads_back(d: Seq<char>, w: nat)
    requires
        forall|i: int| 0 <= i < d.len() ==> is_digit(#[trigger] d[i]),
    ensures
        forall|i: int| 0 <= i < zero_pad(d, w).len() ==> is_digit(#[trigger] zero_pad(d, w)[i]),
        digits_value(zero_pad(d, w)) == digits_value(d),
        zero_pad(d, w).len() >= d.len(),
    decreases w,
{
    if d.len() < w {
        lemma_zero_pad_reads_back(d, (w - 1) as nat);
        let shorter = zero_pad(d, (w - 1) as nat);
        assert(zero_pad(d, w) =~= seq!['0'] + shorter);
        lemma_leading_zero(shorter);
    }
}

/// Scanning a run of digits collects them into the number being read.
proof fn lemma_scan_digits(s: Seq<char>, i: int, j: int, total: int, num: Seq<char>)
    requires
        0 <= i <= j <= s.len(),
        forall|k: int| i <= k < j ==> is_digit(#[trigger] s[k]),
    ensures
        scan(s, i, total, num) == scan(s, j, total, num + s.subrange(i, j)),
    decreases j - i,
{
    if i < j {
        lemma_scan_digits(s, i + 1, j, total, num.push(s[i]));
        assert(num.push(s[i]) + s.subrange(i + 1, j) =~= num + s.subrange(i, j));
    } else {
        assert(num + s.subrange(i, j) =~= num);
    }
}

/// Reading one `digits` + `unit` group adds its seconds to the total.
proof fn lemma_scan_group(s: Seq<char>, i: int, total: int, d: Seq<char>, u: char, value: int)
    requires
        0 <= i,
        i + d.len() < s.len(),
        d.len() >= 1,
        s.subrange(i, i + d.len()) == d,
        s[i + d.len()] == u,
        forall|k: int| 0 <= k < d.len() ==> is_digit(#[trigger] d[k]),
        digits_value(d) == value,
        unit_seconds(u) > 0,
        0 <= total,
        0 <= value,
        total + value * unit_seconds(u) <= u64::MAX,
    ensures
        scan(s, i, total, Seq::empty()) == scan(s, i + d.len() + 1, total + value * unit_seconds(u), Seq::empty()),
{
    assert forall|k: int| i <= k < i + d.len() implies is_digit(#[trigger] s[k]) by {
        assert(s[k] == d[k - i]);
    }
    lemma_scan_digits(s, i, i + d.len(), total, Seq::empty());
    assert(Seq::<char>::empty() + s.subrange(i, i + d.len()) =~= d);
    assert(!is_digit(u));
    assert(value * unit_seconds(u) <= u64::MAX);
}

/// `parse` reads back what `display` writes: for every positive duration,
/// parsing its display text gives the same number of seconds.
pub proof fn lemma_parse_display_round_trip(total: u64)
    requires
        total > 0,
    ensures
        parse_duration(display_text(total)) == ScanOutcome::Total(total as int),
{
    let h = total / 3600;
    let m = (total % 3600) / 60;
    let sec = total % 60;
    let t = display_text(total);
    lemma_decimal_reads_back(h as nat);
    lemma_decimal_reads_back(m as nat);
    lemma_decimal_reads_back(sec as nat);
    lemma_zero_pad_reads_back(decimal(m as nat), 2);
    lemma_zero_pad_reads_back(decimal(sec as nat), 2);
    let dm2 = zero_pad(decimal(m as nat), 2);
    let ds2 = zero_pad(decimal(sec as nat), 2);
    assert(total == h * 3600 + m * 60 + sec);
    // The text starts with a digit and ends with 's', so trimming keeps it.
    let first = if h > 0 { decimal(h as nat) } else { decimal(m as nat) };
    assert(t[0] == first[0]);
    assert(is_digit(first[0]));
    assert(trim_start(t) == t);
    assert(t.last() == 's');
    assert(trim_end(t) == t);
    assert(trim(t) == t);
    if h > 0 {
        let dh = decimal(h as nat);
        let a = dh.len() as int;
        let b = dm2.len() as int;
        let c = ds2.len() as int;
        assert(t.len() == a + b + c + 3);
        assert(t.subrange(0, a) =~= dh);
        assert(t[a] == 'h');
        assert(t.subrange(a + 1, a + 1 + b) =~= dm2);
        assert(t[a + 1 + b] == 'm');
        assert(t.subrange(a + b + 2, a + b + 2 + c) =~= ds2);
        assert(t[a + b + 2 + c] == 's');
        lemma_scan_group(t, 0, 0, dh, 'h', h as int);
        lemma_scan_group(t, a + 1, h * 3600, dm2, 'm', m as int);
        lemma_scan_group(t, a + b + 2, h * 3600 + m * 60, ds2, 's', sec as int);
    } else {
        let b = decimal(m as nat).len() as int;
        let c = ds2.len() as int;
        assert(t.len() == b + c + 2);
        assert(t.subrange(0, b) =~= decimal(m as nat));
        assert(t[b] == 'm');
        assert(t.subrange(b + 1, b + 1 + c) =~= ds2);
        assert(t[b + 1 + c] == 's');
        lemma_scan_group(t, 0, 0, decimal(m as nat), 'm', m as int);
        lemma_scan_group(t, b + 1, m * 60, ds2, 's', sec as int);
    }
}

pub(crate) fn is_white_space_char(c: char) -> (b: bool)
    ensures
        b == is_white_space(c),
{
    ('\u{9}' <= c && c <= '\u{d}') || c == ' ' || c == '\u{85}' || c == '\u{a0}' || c == '\u{1680}'
        || ('\u{2000}' <= c && c <= '\u{200a}') || c == '\u{2028}' || c == '\u{2029}' || c
        == '\u{202f}' || c == '\u{205f}' || c == '\u{3000}'
}

/// The characters of `s` without leading and trailing white space.
pub(crate) fn trimmed_chars(s: &str) -> (t: Vec<char>)
    ensures
        t@ == trim(s@),
{
    let cs = str_chars(s);
    let mut lo: usize = 0;
    proof {
        assert(cs@.subrange(0, cs@.len() as int) =~= cs@);
    }
    while lo < cs.len() && is_white_space_char(cs[lo])
        invariant
            lo <= cs@.len(),
            cs@ == s@,
            trim_start(s@) == trim_start(cs@.subrange(lo as int, cs@.len() as int)),
        decreases cs@.len() - lo,
    {
        proof {
            assert(cs@.subrange(lo as int, cs@.len() as int).drop_first() =~= cs@.subrange(
                lo + 1,
                cs@.len() as int,
            ));
        }
        lo += 1;
    }
    let mut hi: usize = cs.len();
    proof {
        assert(trim_start(s@) == cs@.subrange(lo as int, cs@.len() as int));
    }
    while hi > lo && is_white_space_char(cs[hi - 1])
        invariant
            lo <= hi <= cs@.len(),
            cs@ == s@,
            trim(s@) == trim_end(cs@.subrange(lo as int, hi as int)),
        decreases hi,
    {
        proof {
            assert(cs@.subrange(lo as int, hi as int).drop_last() =~= cs@.subrange(lo as int, hi - 1));
        }
        hi -= 1;
    }
    let mut t: Vec<char> = Vec::new();
    let mut i = lo;
    while i < hi
        invariant
            lo <= i <= hi <= cs@.len(),
            t@ == cs@.subrange(lo as int, i as int),
        decreases hi - i,
    {
        t.push(cs[i]);
        i += 1;
        proof {
            assert(t@ =~= cs@.subrange(lo as int, i as int));
        }
    }
    t
}

/// Value of a non-empty digit string, or `None` when it leaves `u64`.
fn digits_to_u64(d: &Vec<char>) -> (r: Option<u64>)
    requires
        forall|k: int| 0 <= k < d@.len() ==> is_digit(#[trigger] d@[k]),
    ensures
        r is Some <==> digits_value(d@) <= u64::MAX,
        r matches Some(v) ==> v == digits_value(d@),
{
    let mut v: u64 = 0;
    let mut i: usize = 0;
    while i < d.len()
        invariant
            i <= d@.len(),
            v == digits_value(d@.take(i as int)),
            forall|k: int| 0 <= k < d@.len() ==> is_digit(#[trigger] d@[k]),
        decreases d@.len() - i,
    {
        proof {
            assert(d@.take(i + 1).drop_last() =~= d@.take(i as int));
        }
        let digit = (d[i] as u32 - '0' as u32) as u64;
        match v.checked_mul(10) {
            Some(p) => match p.checked_add(digit) {
                Some(q) => {
                    v = q;
                },
                None => {
                    proof {
                        lemma_digits_value_grows(d@, i as int + 1);
                    }
                    return None;
                },
            },
            None => {
                proof {
                    lemma_digits_value_grows(d@, i as int + 1);
                }
                return None;
            },
        }
        i += 1;
    }
    proof {
        assert(d@.take(d@.len() as int) =~= d@);
    }
    Some(v)
}

/// A digit string is worth at least as much as any of its prefixes.
proof fn lemma_digits_value_grows(d: Seq<char>, k: int)
    requires
        0 <= k <= d.len(),
        forall|j: int| 0 <= j < d.len() ==> is_digit(#[trigger] d[j]),
    ensures
        digits_value(d) >= digits_value(d.take(k)),
        digits_value(d.take(k)) >= 0,
    decreases d.len(),
{
    if d.len() == 0 {
        assert(d.take(k) =~= d);
    } else if k == d.len() {
        assert(d.take(k) =~= d);
        lemma_digits_value_grows(d.drop_last(), 0);
        assert(d.drop_last().take(0) =~= d.take(0));
    } else {
        lemma_digits_value_grows(d.drop_last(), k);
        assert(d.drop_last().take(k) =~= d.take(k));
    }
}

impl TimelapseDuration {
    /// Parse a human-readable duration string such as `"24h"`, `"30m"`,
    /// `"90s"`, `"1h30m"` or `"2h15m30s"` (surrounding white space ignored,
    /// units case-insensitive).
    pub fn parse(s: &str) -> (r: Result<Self, String>)
        requires
            !(parse_duration(s@) is Overflow),
        ensures
            match r {
                Ok(d) => parse_duration(s@) == ScanOutcome::Total(d.total_seconds as int),
                Err(msg) => parse_duration(s@) == ScanOutcome::Failed(msg@),
            },
    {
        let t = trimmed_chars(s);
        if t.len() == 0 {
            return Err(String::from_str("empty duration string"));
        }
        let mut total: u64 = 0;
        let mut num: Vec<char> = Vec::new();
        let mut i: usize = 0;
        while i < t.len()
            invariant
                i <= t@.len(),
                t@ == trim(s@),
                t@.len() > 0,
                scan(t@, i as int, total as int, num@) == parse_duration(s@),
                !(parse_duration(s@) is Overflow),
                forall|k: int| 0 <= k < num@.len() ==> is_digit(#[trigger] num@[k]),
            decreases t@.len() - i,
        {
            let ch = t[i];
            if '0' <= ch && ch <= '9' {
                num.push(ch);
            } else {
                let n = match digits_to_u64(&num) {
                    Some(n) => {
                        if num.len() == 0 {
                            return Err(
                                String::from_str(
                                    "invalid number: cannot parse integer from empty string",
                                ),
                            );
                        }
                        n
                    },
                    None => {
                        if num.len() == 0 {
                            return Err(
                                String::from_str(
                                    "invalid number: cannot parse integer from empty string",
                                ),
                            );
                        }
                        return Err(
                            String::from_str("invalid number: number too large to fit in target type"),
                        );
                    },
                };
                num.clear();
                if ch == 'h' || ch == 'H' {
                    total = total + n * 3600;
                } else if ch == 'm' || ch == 'M' {
                    total = total + n * 60;
                } else if ch == 's' || ch == 'S' {
                    total = total + n;
                } else {
                    let mut msg = String::from_str("unexpected unit character '");
                    push_char(&mut msg, ch);
                    push_char(&mut msg, '\'');
                    proof {
                        reveal_strlit("'");
                        assert(msg@ =~= msg_unit(ch));
                    }
                    return Err(msg);
                }
            }
            i += 1;
        }
        if num.len() > 0 {
            let mut msg = String::from_str("trailing number without unit: '");
            push_chars(&mut msg, num.as_slice());
            push_char(&mut msg, '\'');
            proof {
                reveal_strlit("'");
                assert(msg@ =~= msg_trailing(num@));
            }
            return Err(msg);
        }
        if total == 0 {
            return Err(String::from_str("duration must be greater than zero"));
        }
        Ok(Self { total_seconds: total })
    }

    /// Duration as a span of whole seconds.
    pub fn as_std_duration(self) -> (t: TimeSpan)
        ensures
            t.wf(),
            t.secs == self.total_seconds,
            t.nanos == 0,
    {
        TimeSpan::from_secs(self.total_seconds)
    }

    /// Human-readable representation: `"1h30m00s"`, or `"5m00s"` below an hour.
    pub fn display(self) -> (s: String)
        ensures
            s@ == display_text(self.total_seconds),
    {
        let h = self.total_seconds / 3600;
        let m = (self.total_seconds % 3600) / 60;
        let sec = self.total_seconds % 60;
        let mut s = String::new();
        if h > 0 {
            push_decimal(&mut s, h, 0);
            push_char(&mut s, 'h');
            push_decimal(&mut s, m, 2);
            push_char(&mut s, 'm');
            push_decimal(&mut s, sec, 2);
            push_char(&mut s, 's');
        } else {
            push_decimal(&mut s, m, 0);
            push_char(&mut s, 'm');
            push_decimal(&mut s, sec, 2);
            push_char(&mut s, 's');
        }
        proof {
            assert(zero_pad(decimal(h as nat), 0) == decimal(h as nat));
            assert(zero_pad(decimal(m as nat), 0) == decimal(m as nat));
            assert(s@ =~= display_text(self.total_seconds));
        }
        s
    }
}

// ── Configuration ─────────────────────────────────────────────────────────────

/// The path `PathBuf::from` makes of a string.
pub uninterp spec fn path_of(s: Seq<char>) -> PathBuf;

/// The path `Path::join` makes of a directory and a file name.
pub uninterp spec fn joined_path(dir: PathBuf, name: Seq<char>) -> PathBuf;

/// Makes a path from a string (calls `PathBuf::from`).
///
/// Trusted: the result is named `path_of(s)`, the path of the string
/// alone; what the path holds is not written out (a path is opaque here).
#[verifier::external_body]
fn path_from(s: &str) -> (p: PathBuf)
    ensures
        p == path_of(s@),
{
    PathBuf::from(s)
}

/// Joins a file name onto a directory (calls `Path::join`).
///
/// Trusted: the result is named `joined_path(dir, name)`, a function of the
/// directory and the name alone; what the joined path holds is not written
/// out.
#[verifier::external_body]
fn path_join(dir: &PathBuf, name: &String) -> (p: PathBuf)
    ensures
        p == joined_path(*dir, name@),
{
    dir.join(name)
}

/// Configuration for the time-lapse recorder.
#[derive(Debug)]
pub struct TimelapseConfig {
    /// How long to record for.
    pub duration: TimelapseDuration,
    /// Interval between captured frames.
    pub capture_interval: TimeSpan,
    /// Directory where PNG frames are written.
    pub output_dir: PathBuf,
    /// Output MP4 filename (relative to `output_dir`).
    pub output_filename: PathBuf,
    /// Frame rate of the compiled MP4 (frames per second).
    pub fps: u32,
    /// Width in pixels of each captured frame.
    pub frame_width: u32,
    /// Height in pixels of each captured frame.
    pub frame_height: u32,
}

impl TimelapseConfig {
    /// Create a configuration for a `--timelapse <duration>` invocation:
    /// one frame per minute, 30 fps output, 1920×1080 frames written under
    /// `timelapse/` and compiled to `timelapse_output.mp4`.
    pub fn from_duration_str(s: &str) -> (r: Result<Self, String>)
        requires
            !(parse_duration(s@) is Overflow),
        ensures
            match r {
                Ok(cfg) => {
                    &&& parse_duration(s@) == ScanOutcome::Total(cfg.duration.total_seconds as int)
                    &&& cfg.capture_interval == TimeSpan { secs: 60, nanos: 0 }
                    &&& cfg.fps == 30
                    &&& cfg.frame_width == 1920
                    &&& cfg.frame_height == 1080
                    &&& cfg.output_dir == path_of("timelapse"@)
                    &&& cfg.output_filename == path_of("timelapse_output.mp4"@)
                },
                Err(msg) => parse_duration(s@) == ScanOutcome::Failed(msg@),
            },
    {
        let duration = match TimelapseDuration::parse(s) {
            Ok(d) => d,
            Err(e) => return Err(e),
        };
        Ok(Self {
            duration,
            capture_interval: TimeSpan::from_secs(60),
            output_dir: path_from("timelapse"),
            output_filename: path_from("timelapse_output.mp4"),
            fps: 30,
            frame_width: 1920,
            frame_height: 1080,
        })
    }

    /// Total expected frame count: the recording length divided by the
    /// capture interval in whole seconds (taken as at least one).
    pub fn expected_frames(&self) -> (n: u64)
        ensures
            n == self.duration.total_seconds / (if self.capture_interval.secs > 0 {
                self.capture_interval.secs
            } else {
                1
            }),
    {
        let secs = self.capture_interval.as_secs();
        let d = if secs > 0 { secs } else { 1 };
        self.duration.total_seconds / d
    }
}

// ── Recorder ──────────────────────────────────────────────────────────────────

/// Time-lapse recorder state.
///
/// Drive by calling [`TimelapseRecorder::tick`] on every render frame with
/// the elapsed time since the previous call; when it returns `true` the
/// caller captures and writes frame `frame_index`, then reports the written
/// file with [`TimelapseRecorder::frame_captured`].
pub struct TimelapseRecorder {
    cfg: TimelapseConfig,
    /// Elapsed time since last frame capture.
    time_since_capture: TimeSpan,
    /// Elapsed total recording time.
    total_elapsed: TimeSpan,
    /// Index of the next frame to be captured.
    pub frame_index: usize,
    /// Whether recording has finished.
    pub finished: bool,
    /// Paths of all frames written so far.
    frame_paths: Vec<PathBuf>,
}

/// The file name of frame `n`: `frame_` and `n` zero-padded to six digits,
/// then `.png`.
pub open spec fn frame_file_text(n: nat) -> Seq<char> {
    "frame_"@ + zero_pad(decimal(n), 6) + ".png"@
}

/// The file name of frame `n`, e.g. `frame_000042.png`.
pub fn frame_file_name(n: usize) -> (s: String)
    ensures
        s@ == frame_file_text(n as nat),
{
    let mut s = String::from_str("frame_");
    push_decimal(&mut s, n as u64, 6);
    s.append(".png");
    s
}

/// Whether `paths` are the frame paths under `dir` of strictly increasing
/// frame numbers below `next`.
pub open spec fn recorded_in_order(paths: Seq<PathBuf>, dir: PathBuf, next: nat) -> bool {
    exists|frames: Seq<nat>|
        #![trigger frames.len()]
        frames.len() == paths.len() && (forall|k: int|
            0 <= k < frames.len() ==> #[trigger] frames[k] < next && paths[k] == joined_path(
                dir,
                frame_file_text(frames[k]),
            )) && (forall|j: int, k: int| 0 <= j < k < frames.len() ==> #[trigger] frames[j] < #[trigger] frames[k])
}

/// Capturing frame `next`, written or not, keeps the recorded paths in
/// capture order: a written frame's path is appended after those of all
/// earlier frames.
pub proof fn lemma_capture_keeps_order(paths: Seq<PathBuf>, dir: PathBuf, next: nat, written: bool)
    requires
        recorded_in_order(paths, dir, next),
    ensures
        recorded_in_order(
            if written {
                paths.push(joined_path(dir, frame_file_text(next)))
            } else {
                paths
            },
            dir,
            next + 1,
        ),
{
    let frames = choose|frames: Seq<nat>|
        #![trigger frames.len()]
        frames.len() == paths.len() && (forall|k: int|
            0 <= k < frames.len() ==> #[trigger] frames[k] < next && paths[k] == joined_path(
                dir,
                frame_file_text(frames[k]),
            )) && (forall|j: int, k: int| 0 <= j < k < frames.len() ==> #[trigger] frames[j] < #[trigger] frames[k]);
    if written {
        let f2 = frames.push(next);
        let p2 = paths.push(joined_path(dir, frame_file_text(next)));
        assert(f2.len() == p2.len());
        assert forall|k: int| 0 <= k < f2.len() implies #[trigger] f2[k] < next + 1 && p2[k] == joined_path(
            dir,
            frame_file_text(f2[k]),
        ) by {
            if k < frames.len() {
                assert(f2[k] == frames[k]);
            }
        }
        assert forall|j: int, k: int| 0 <= j < k < f2.len() implies #[trigger] f2[j] < #[trigger] f2[k] by {
            if k < frames.len() {
                assert(f2[j] == frames[j] && f2[k] == frames[k]);
            } else {
                assert(f2[j] == frames[j]);
            }
        }
    } else {
        assert(frames.len() == paths.len());
    }
}

/// The recorded paths after frames `next`, `next + 1`, … are captured in
/// turn onto `paths`, `writes[k]` telling whether frame `next + k` was
/// written.
pub open spec fn after_captures(paths: Seq<PathBuf>, dir: PathBuf, next: nat, writes: Seq<bool>) -> Seq<
    PathBuf,
>
    decreases writes.len(),
{
    if writes.len() == 0 {
        paths
    } else {
        let before = after_captures(paths, dir, next, writes.drop_last());
        if writes.last() {
            before.push(joined_path(dir, frame_file_text((next + writes.len() - 1) as nat)))
        } else {
            before
        }
    }
}

/// However many frames are captured in turn, and whichever of them are
/// written, the recorded paths stay in capture order.
pub proof fn lemma_captures_keep_order(paths: Seq<PathBuf>, dir: PathBuf, next: nat, writes: Seq<bool>)
    requires
        recorded_in_order(paths, dir, next),
    ensures
        recorded_in_order(after_captures(paths, dir, next, writes), dir, next + writes.len()),
    decreases writes.len(),
{
    if writes.len() > 0 {
        let rest = writes.drop_last();
        lemma_captures_keep_order(paths, dir, next, rest);
        lemma_capture_keeps_order(
            after_captures(paths, dir, next, rest),
            dir,
            (next + rest.len()) as nat,
            writes.last(),
        );
    }
}

impl TimelapseRecorder {
    /// The recorder's clocks: time since the last capture and in total.
    pub closed spec fn clocks(&self) -> (TimeSpan, TimeSpan) {
        (self.time_since_capture, self.total_elapsed)
    }

    /// Index of the next frame to be captured.
    pub closed spec fn spec_frame_index(&self) -> usize {
        self.frame_index
    }

    /// Whether recording has finished.
    pub closed spec fn spec_finished(&self) -> bool {
        self.finished
    }

    /// The configuration the recorder runs with.
    pub closed spec fn spec_config(&self) -> &TimelapseConfig {
        &self.cfg
    }

    /// The number of frame files recorded as written.
    pub closed spec fn written_count(&self) -> nat {
        self.frame_paths@.len()
    }

    /// The paths of the frame files recorded as written, in order.
    pub closed spec fn written_paths(&self) -> Seq<PathBuf> {
        self.frame_paths@
    }

    /// Every recorded path is the frame path of an earlier frame, in
    /// increasing frame order.
    pub open spec fn paths_in_order(&self) -> bool {
        recorded_in_order(self.written_paths(), self.spec_config().output_dir, self.spec_frame_index() as nat)
    }

    /// Create a new recorder with both clocks at zero. Does **not** create
    /// the output directory.
    pub fn new(cfg: TimelapseConfig) -> (r: Self)
        ensures
            r.clocks().0.total_nanos() == 0,
            r.clocks().1.total_nanos() == 0,
            r.clocks().0.wf() && r.clocks().1.wf(),
            r.spec_frame_index() == 0,
            !r.spec_finished(),
            r.written_count() == 0,
            r.paths_in_order(),
            *r.spec_config() == cfg,
    {
        let r = Self {
            time_since_capture: TimeSpan::zero(),
            total_elapsed: TimeSpan::zero(),
            frame_index: 0,
            finished: false,
            frame_paths: Vec::new(),
            cfg,
        };
        proof {
            let none = Seq::<nat>::empty();
            assert(none.len() == r.written_paths().len());
        }
        r
    }

    /// Return the recorder configuration.
    pub fn config(&self) -> (c: &TimelapseConfig)
        ensures
            c == self.spec_config(),
    {
        &self.cfg
    }

    /// All frame paths written so far.
    pub fn frame_paths(&self) -> (p: &[PathBuf])
        ensures
            p@ == self.written_paths(),
            p@.len() == self.written_count(),
    {
        self.frame_paths.as_slice()
    }

    /// Advances both clocks by `dt`. Recording finishes once the total
    /// reaches the configured duration. Returns `true` (and restarts the
    /// capture clock) when the capture interval has elapsed, i.e. frame
    /// `frame_index` is due; a finished recorder does nothing.
    pub fn tick(&mut self, dt: TimeSpan) -> (due: bool)
        requires
            dt.wf(),
            old(self).clocks().0.wf(),
            old(self).clocks().1.wf(),
            old(self).spec_config().capture_interval.wf(),
            old(self).clocks().0.total_nanos() + dt.total_nanos() < (u64::MAX as int + 1)
                * 1_000_000_000,
            old(self).clocks().1.total_nanos() + dt.total_nanos() < (u64::MAX as int + 1)
                * 1_000_000_000,
        ensures
            final(self).spec_config() == old(self).spec_config(),
            final(self).spec_frame_index() == old(self).spec_frame_index(),
            final(self).written_count() == old(self).written_count(),
            final(self).written_paths() == old(self).written_paths(),
            old(self).paths_in_order() ==> final(self).paths_in_order(),
            final(self).clocks().0.wf(),
            final(self).clocks().1.wf(),
            old(self).spec_finished() ==> !due && final(self).spec_finished() && final(self).clocks()
                == old(self).clocks(),
            !old(self).spec_finished() ==> {
                let since = old(self).clocks().0.total_nanos() + dt.total_nanos();
                let total = old(self).clocks().1.total_nanos() + dt.total_nanos();
                &&& final(self).clocks().1.total_nanos() == total
                &&& final(self).spec_finished() == (total >= old(
                    self,
                ).spec_config().duration.total_seconds * 1_000_000_000)
                &&& due == (since >= old(self).spec_config().capture_interval.total_nanos())
                &&& final(self).clocks().0.total_nanos() == if due {
                    0
                } else {
                    since
                }
            },
    {
        if self.finished {
            return false;
        }
        self.time_since_capture = self.time_since_capture.add(dt);
        self.total_elapsed = self.total_elapsed.add(dt);
        let limit = self.cfg.duration.as_std_duration();
        if self.total_elapsed.at_least(&limit) {
            self.finished = true;
        }
        if self.time_since_capture.at_least(&self.cfg.capture_interval) {
            self.time_since_capture = TimeSpan::zero();
            return true;
        }
        false
    }

    /// Records that frame `frame_index` was captured: its path
    /// (`frame_path(frame_index)`) is kept when the file was written, and the
    /// frame index advances either way.
    pub fn frame_captured(&mut self, written: bool)
        requires
            old(self).spec_frame_index() < usize::MAX,
        ensures
            final(self).spec_config() == old(self).spec_config(),
            final(self).clocks() == old(self).clocks(),
            final(self).spec_finished() == old(self).spec_finished(),
            final(self).spec_frame_index() == old(self).spec_frame_index() + 1,
            final(self).written_count() == old(self).written_count() + if written {
                1nat
            } else {
                0nat
            },
            old(self).paths_in_order() ==> final(self).paths_in_order(),
            final(self).written_paths() == if written {
                old(self).written_paths().push(
                    joined_path(
                        old(self).spec_config().output_dir,
                        frame_file_text(old(self).spec_frame_index() as nat),
                    ),
                )
            } else {
                old(self).written_paths()
            },
            final(self).written_paths() == after_captures(
                old(self).written_paths(),
                old(self).spec_config().output_dir,
                old(self).spec_frame_index() as nat,
                seq![written],
            ),
    {
        let ghost before = self.written_paths();
        let ghost next = self.frame_index as nat;
        if written {
            let p = self.frame_path(self.frame_index);
            self.frame_paths.push(p);
        }
        self.frame_index += 1;
        proof {
            let one = seq![written];
            assert(one.drop_last() =~= Seq::<bool>::empty());
            assert(after_captures(before, self.cfg.output_dir, next, one.drop_last()) == before);
            assert(one.last() == written);
            assert(after_captures(before, self.cfg.output_dir, next, one) == self.written_paths());
            if recorded_in_order(before, self.cfg.output_dir, next) {
                lemma_capture_keeps_order(before, self.cfg.output_dir, next, written);
            }
        }
    }

    /// Construct the path for frame `n`: `frame_file_name(n)` inside the
    /// output directory.
    pub fn frame_path(&self, n: usize) -> (p: PathBuf)
        ensures
            p == joined_path(self.spec_config().output_dir, frame_file_text(n as nat)),
    {
        let name = frame_file_name(n);
        path_join(&self.cfg.output_dir, &name)
    }
}

// ── PNG frames ────────────────────────────────────────────────────────────────

/// The filtered scanlines of the first `rows` rows of a frame: a zero
/// filter byte, then the row's bytes of `rgba` (cut short where `rgba`
/// ends).
pub open spec fn frame_scanlines(rgba: Seq<u8>, row_bytes: int, rows: int) -> Seq<u8>
    decreases rows,
{
    if rows <= 0 {
        Seq::empty()
    } else {
        let start = (rows - 1) * row_bytes;
        let end = if start + row_bytes <= rgba.len() { start + row_bytes } else { rgba.len() as int };
        frame_scanlines(rgba, row_bytes, rows - 1) + seq![0u8] + rgba.subrange(start, end)
    }
}

/// The complete PNG file of a captured frame.
pub open spec fn frame_png(width: u32, height: u32, rgba: Seq<u8>) -> Seq<u8> {
    png_signature() + png_chunk(seq![73u8, 72, 68, 82], ihdr_rgba(width, height)) + png_chunk(
        seq![73u8, 68, 65, 84],
        zlib_stored(frame_scanlines(rgba, width * 4, height as int)),
    ) + png_chunk(seq![73u8, 69, 78, 68], Seq::empty())
}

proof fn lemma_scanlines_agree(rgba: Seq<u8>, row_bytes: int, rows: int)
    requires
        row_bytes >= 0,
        rows * row_bytes <= rgba.len(),
    ensures
        frame_scanlines(rgba, row_bytes, rows) == crate::animation::scanlines(rgba, row_bytes, rows),
    decreases rows,
{
    if rows > 0 {
        assert((rows - 1) * row_bytes <= rows * row_bytes) by (nonlinear_arith)
            requires row_bytes >= 0, rows > 0;
        assert((rows - 1) * row_bytes + row_bytes == rows * row_bytes) by (nonlinear_arith);
        lemma_scanlines_agree(rgba, row_bytes, rows - 1);
    }
}

/// The time-lapse frame writer and the animation exporter produce the same
/// PNG file for a frame whose pixel data covers every row.
pub proof fn lemma_frame_png_matches_export(width: u32, height: u32, rgba: Seq<u8>)
    requires
        (width * 4) * height <= rgba.len(),
    ensures
        frame_png(width, height, rgba) == crate::animation::png_file(width, height, rgba),
{
    assert((height as int) * (width * 4) == (width * 4) * height) by (nonlinear_arith);
    lemma_scanlines_agree(rgba, width * 4, height as int);
}

/// Produce a zlib DEFLATE "stored" (no compression) wrapper.
pub fn zlib_store(data: &[u8]) -> (out: Vec<u8>)
    ensures
        out@ == zlib_stored(data@),
{
    let mut out: Vec<u8> = Vec::new();
    push_zlib_stored(&mut out, data);
    proof {
        assert(out@ =~= zlib_stored(data@));
    }
    out
}

/// CRC-32 (ISO 3309) of a chunk type followed by its data, as PNG uses it.
pub fn png_crc(chunk_type: &[u8; 4], data: &[u8]) -> (crc: u32)
    ensures
        crc == crc32(chunk_type@ + data@),
{
    let table = crc32_table();
    let c = crc_feed(&table, crc_feed(&table, 0xFFFF_FFFF, chunk_type.as_slice()), data);
    proof {
        lemma_crc_update_append(0xFFFF_FFFF, chunk_type@, data@);
    }
    c ^ 0xFFFF_FFFF
}

/// Appends one PNG chunk (length, type, data, CRC) to `file`.
pub fn write_png_chunk(file: &mut Vec<u8>, chunk_type: &[u8; 4], data: &[u8])
    ensures
        final(file)@ == old(file)@ + png_chunk(chunk_type@, data@),
{
    let table = crc32_table();
    push_png_chunk(file, &table, chunk_type.as_slice(), data);
}

/// The bytes of the PNG file for a captured RGBA frame; rows past the end
/// of `rgba` are cut short.
pub fn png_rgba_bytes(rgba: &[u8], width: u32, height: u32) -> (file: Vec<u8>)
    requires
        width * 4 <= u32::MAX,
        height > 0 ==> (height - 1) * (width * 4) <= rgba@.len(),
    ensures
        file@ == frame_png(width, height, rgba@),
{
    let mut file: Vec<u8> = Vec::new();
    let sig: [u8; 8] = [137, 80, 78, 71, 13, 10, 26, 10];
    let mut k: usize = 0;
    while k < 8
        invariant
            k <= 8,
            file@ == sig@.take(k as int),
        decreases 8 - k,
    {
        file.push(sig[k]);
        k += 1;
        proof {
            assert(file@ =~= sig@.take(k as int));
        }
    }
    let mut ihdr: Vec<u8> = Vec::new();
    push_be32(&mut ihdr, width);
    push_be32(&mut ihdr, height);
    ihdr.push(8);
    ihdr.push(6);
    ihdr.push(0);
    ihdr.push(0);
    ihdr.push(0);
    write_png_chunk(&mut file, &[73, 72, 68, 82], ihdr.as_slice());

    let row_bytes = (width * 4) as usize;
    let len = rgba.len();
    let mut raw: Vec<u8> = Vec::new();
    let mut y: usize = 0;
    while y < height as usize
        invariant
            y <= height,
            row_bytes == width * 4,
            height > 0 ==> (height - 1) * (width * 4) <= rgba@.len(),
            len == rgba@.len(),
            raw@ == frame_scanlines(rgba@, row_bytes as int, y as int),
        decreases height - y,
    {
        proof {
            assert(y * row_bytes <= (height - 1) * (width * 4)) by (nonlinear_arith)
                requires y + 1 <= height, row_bytes == width * 4;
        }
        raw.push(0u8);
        let row_start = y * row_bytes;
        let rest = rgba.len() - row_start;
        let take = if row_bytes < rest { row_bytes } else { rest };
        let row_end = row_start + take;
        let ghost before = raw@;
        let mut i = row_start;
        while i < row_end
            invariant
                row_start <= i <= row_end,
                row_end <= rgba@.len(),
                raw@ == before + rgba@.subrange(row_start as int, i as int),
            decreases row_end - i,
        {
            raw.push(rgba[i]);
            i += 1;
            proof {
                assert(raw@ =~= before + rgba@.subrange(row_start as int, i as int));
            }
        }
        y += 1;
        proof {
            assert(raw@ =~= frame_scanlines(rgba@, row_bytes as int, y as int));
        }
    }
    let compressed = zlib_store(raw.as_slice());
    write_png_chunk(&mut file, &[73, 68, 65, 84], compressed.as_slice());
    let empty: [u8; 0] = [];
    write_png_chunk(&mut file, &[73, 69, 78, 68], empty.as_slice());
    proof {
        assert(sig@.take(8) =~= png_signature());
        assert(ihdr@ =~= ihdr_rgba(width, height));
        assert(empty@ =~= Seq::<u8>::empty());
        assert(file@ =~= frame_png(width, height, rgba@));
    }
    file
}

} // verus!
