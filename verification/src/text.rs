//! Character-level string building: decimal and hexadecimal numerals,
//! zero padding, and a string's characters as a vector.

use vstd::prelude::*;

verus! {

/// Appends one character to a `String` (calls `String::push`).
///
/// Trusted: the contract claims that `String::push` appends exactly the
/// given character to the string's character sequence.
#[verifier::external_body]
pub fn push_char(s: &mut String, c: char)
    ensures
        final(s)@ == old(s)@.push(c),
{
    s.push(c);
}

/// The characters of a string slice, in order.
pub fn str_chars(s: &str) -> (v: Vec<char>)
    ensures
        v@ == s@,
{
    let mut v: Vec<char> = Vec::new();
    for c in it: s.chars()
        invariant
            v@ == it.seq().take(it.index() as int),
    {
        v.push(c);
    }
    v
}

/// A string holding the given characters.
pub fn string_from_chars(cs: &[char]) -> (s: String)
    ensures
        s@ == cs@,
{
    let mut s = String::new();
    let mut i: usize = 0;
    while i < cs.len()
        invariant
            i <= cs@.len(),
            s@ == cs@.take(i as int),
        decreases cs@.len() - i,
    {
        push_char(&mut s, cs[i]);
        i += 1;
        proof {
            assert(s@ =~= cs@.take(i as int));
        }
    }
    proof {
        assert(cs@.take(cs@.len() as int) =~= cs@);
    }
    s
}

/// Appends the characters of `cs` to `s`.
pub fn push_chars(s: &mut String, cs: &[char])
    ensures
        final(s)@ == old(s)@ + cs@,
{
    let mut i: usize = 0;
    while i < cs.len()
        invariant
            i <= cs@.len(),
            s@ == old(s)@ + cs@.take(i as int),
        decreases cs@.len() - i,
    {
        push_char(s, cs[i]);
        i += 1;
        proof {
            assert(s@ =~= old(s)@ + cs@.take(i as int));
        }
    }
    proof {
        assert(cs@.take(cs@.len() as int) =~= cs@);
    }
}

/// The ASCII digit for `d < 10`.
pub open spec fn digit_char(d: int) -> char {
    ('0' as int + d) as char
}

/// The upper-case hexadecimal digit for `d < 16`.
pub open spec fn hex_char(d: int) -> char {
    if d < 10 {
        ('0' as int + d) as char
    } else {
        ('A' as int + (d - 10)) as char
    }
}

/// The decimal numeral of `n`, without leading zeros (`"0"` for zero).
pub open spec fn decimal(n: nat) -> Seq<char>
    decreases n,
{
    if n < 10 {
        seq![digit_char(n as int)]
    } else {
        decimal(n / 10).push(digit_char((n % 10) as int))
    }
}

/// `digits` left-padded with `'0'` to at least `width` characters.
pub open spec fn zero_pad(digits: Seq<char>, width: nat) -> Seq<char> {
    if digits.len() >= width {
        digits
    } else {
        Seq::new((width - digits.len()) as nat, |i: int| '0') + digits
    }
}

/// The decimal digits of `n` from least to most significant.
fn digits_reversed(n: u64) -> (v: Vec<char>)
    ensures
        v@.len() >= 1,
        v@.reverse() == decimal(n as nat),
{
    let mut v: Vec<char> = Vec::new();
    let mut m = n;
    let d = (m % 10) as u8;
    v.push(((48u8 + d) as char));
    proof {
        assert(((48u8 + d) as char) == digit_char(d as int));
    }
    m = m / 10;
    while m > 0
        invariant
            v@.len() >= 1,
            decimal(n as nat) == decimal(m as nat) + v@.reverse() || m == 0,
            m > 0 ==> decimal(n as nat) == decimal(m as nat) + v@.reverse(),
            m == 0 ==> v@.reverse() == decimal(n as nat),
        decreases m,
    {
        let d = (m % 10) as u8;
        let ghost old_v = v@;
        v.push(((48u8 + d) as char));
        proof {
            assert(((48u8 + d) as char) == digit_char(d as int));
            assert(v@.reverse() =~= seq![digit_char(d as int)] + old_v.reverse());
            if m >= 10 {
                assert(decimal(m as nat) == decimal((m / 10) as nat).push(digit_char((m % 10) as int)));
                assert(decimal(m as nat) + old_v.reverse() =~= decimal((m / 10) as nat) + v@.reverse());
            } else {
                assert(decimal(m as nat) =~= seq![digit_char(m as int)]);
                assert(decimal(n as nat) =~= v@.reverse());
            }
        }
        m = m / 10;
    }
    v
}

/// Appends the decimal numeral of `n`, left-padded with zeros to `width`.
pub fn push_decimal(s: &mut String, n: u64, width: usize)
    ensures
        final(s)@ == old(s)@ + zero_pad(decimal(n as nat), width as nat),
{
    let v = digits_reversed(n);
    let mut pad = width;
    let ghost start = s@;
    while pad > v.len()
        invariant
            pad <= width,
            pad >= v@.len() ==> s@ == start + Seq::new((width - pad) as nat, |i: int| '0'),
            pad < v@.len() ==> s@ == start,
            width >= v@.len() ==> pad >= v@.len(),
            width < v@.len() ==> pad == width,
        decreases pad,
    {
        push_char(s, '0');
        pad = pad - 1;
        proof {
            assert(s@ =~= start + Seq::new((width - pad) as nat, |i: int| '0'));
        }
    }
    let ghost padded = s@;
    let mut i = v.len();
    while i > 0
        invariant
            i <= v@.len(),
            s@ == padded + v@.reverse().take((v@.len() - i) as int),
        decreases i,
    {
        i = i - 1;
        push_char(s, v[i]);
        proof {
            assert(s@ =~= padded + v@.reverse().take((v@.len() - i) as int));
        }
    }
    proof {
        assert(v@.reverse().take(v@.len() as int) =~= v@.reverse());
        if width as nat > v@.len() {
            assert(padded =~= start + Seq::new((width - v@.len()) as nat, |i: int| '0'));
        } else {
            assert(padded == start);
        }
        assert(s@ =~= start + zero_pad(decimal(n as nat), width as nat));
    }
}

/// Appends the two upper-case hexadecimal digits of a byte.
pub fn push_hex_byte(s: &mut String, b: u8)
    ensures
        final(s)@ == old(s)@ + seq![hex_char(b as int / 16), hex_char(b as int % 16)],
{
    let hi = b / 16;
    let lo = b % 16;
    let ch = if hi < 10 { (48u8 + hi) as char } else { (65u8 + (hi - 10)) as char };
    let cl = if lo < 10 { (48u8 + lo) as char } else { (65u8 + (lo - 10)) as char };
    push_char(s, ch);
    push_char(s, cl);
    proof {
        assert(final(s)@ =~= old(s)@ + seq![hex_char(b as int / 16), hex_char(b as int % 16)]);
    }
}

} // verus!
