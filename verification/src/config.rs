//! Configuration defaults and the integer part of colour parsing.

use vstd::prelude::*;
use vstd::string::StringSliceAdditionalSpecFns;

verus! {

/// Default surface: `"torus"`.
pub fn default_surface() -> (s: String)
    ensures
        s@ == "torus"@,
{
    String::from_str("torus")
}

/// Default number of geodesics.
pub fn default_num_geodesics() -> (n: usize)
    ensures
        n == 30,
{
    30
}

/// Default trail length.
pub fn default_trail_length() -> (n: usize)
    ensures
        n == 300,
{
    300
}

/// Default colour palette: five CSS hex colours.
pub fn default_color_palette() -> (v: Vec<String>)
    ensures
        v@.len() == 5,
        v@[0]@ == "#4488FF"@,
        v@[1]@ == "#88DDFF"@,
        v@[2]@ == "#FFD700"@,
        v@[3]@ == "#88FF88"@,
        v@[4]@ == "#FF88CC"@,
{
    let mut v: Vec<String> = Vec::new();
    v.push(String::from_str("#4488FF"));
    v.push(String::from_str("#88DDFF"));
    v.push(String::from_str("#FFD700"));
    v.push(String::from_str("#88FF88"));
    v.push(String::from_str("#FF88CC"));
    v
}

/// Default background colour.
pub fn default_background_color() -> (s: String)
    ensures
        s@ == "#050510"@,
{
    String::from_str("#050510")
}

/// Default trail mode.
pub fn default_trail_mode() -> (s: String)
    ensures
        s@ == "line"@,
{
    String::from_str("line")
}

/// Default gradient mode.
pub fn default_gradient_mode() -> (s: String)
    ensures
        s@ == "none"@,
{
    String::from_str("none")
}

/// Colour cycling is off by default.
pub fn default_color_cycle_enabled() -> (b: bool)
    ensures
        !b,
{
    false
}

/// The value of an ASCII hexadecimal digit, if `b` is one.
pub open spec fn hex_digit(b: u8) -> Option<u8> {
    if 0x30 <= b <= 0x39 {
        Some((b - 0x30) as u8)
    } else if 0x41 <= b <= 0x46 {
        Some((b - 0x41 + 10) as u8)
    } else if 0x61 <= b <= 0x66 {
        Some((b - 0x61 + 10) as u8)
    } else {
        None
    }
}

/// Whether byte position `i` of UTF-8 text `t` starts a character (or is
/// its end).
pub open spec fn char_boundary(t: Seq<u8>, i: int) -> bool {
    i == t.len() || (0 <= i < t.len() && !(0x80 <= t[i] < 0xc0))
}

/// A two-byte base-16 numeral as `u8::from_str_radix` reads it: two
/// hexadecimal digits, or `+` and one digit.
pub open spec fn hex_pair(a: u8, b: u8) -> Option<u8> {
    match (hex_digit(a), hex_digit(b)) {
        (Some(x), Some(y)) => Some((x * 16 + y) as u8),
        (None, Some(y)) => if a == 0x2b {
            Some(y)
        } else {
            None
        },
        _ => None,
    }
}

/// Channel `k` of a colour given as hexadecimal text `t` (leading `#`
/// already removed): the pair of bytes at `2k`, read in base 16; 128 when
/// the pair is missing, does not lie on character boundaries, or is no
/// numeral.
pub open spec fn channel(t: Seq<u8>, k: int) -> u8 {
    let i = 2 * k;
    if i + 2 <= t.len() && char_boundary(t, i) && char_boundary(t, i + 2) {
        match hex_pair(t[i], t[i + 1]) {
            Some(v) => v,
            None => 128u8,
        }
    } else {
        128u8
    }
}

/// `t` without its leading `#` characters.
pub open spec fn strip_hashes(t: Seq<u8>) -> Seq<u8>
    decreases t.len(),
{
    if t.len() > 0 && t[0] == 0x23 {
        strip_hashes(t.drop_first())
    } else {
        t
    }
}

/// The three channels of a CSS hex colour string, as `Config::parse_color`
/// reads them before scaling to `[0, 1]`.
pub open spec fn color_channels(hex: Seq<u8>) -> [u8; 3] {
    let t = strip_hashes(hex);
    [channel(t, 0), channel(t, 1), channel(t, 2)]
}

fn hex_digit_exec(b: u8) -> (d: Option<u8>)
    ensures
        d == hex_digit(b),
{
    if 0x30 <= b && b <= 0x39 {
        Some(b - 0x30)
    } else if 0x41 <= b && b <= 0x46 {
        Some(b - 0x41 + 10)
    } else if 0x61 <= b && b <= 0x66 {
        Some(b - 0x61 + 10)
    } else {
        None
    }
}

fn is_boundary(t: &[u8], i: usize) -> (b: bool)
    requires
        i <= t@.len(),
    ensures
        b == char_boundary(t@, i as int),
{
    i == t.len() || !(0x80 <= t[i] && t[i] < 0xc0)
}

/// Reads channel `k` of colour text `t` starting at byte `start`.
fn read_channel(t: &[u8], start: usize, k: usize) -> (v: u8)
    requires
        start <= t@.len(),
        k < 3,
    ensures
        v == channel(t@.subrange(start as int, t@.len() as int), k as int),
{
    let ghost u = t@.subrange(start as int, t@.len() as int);
    let n = t.len() - start;
    let i = 2 * k;
    if i + 2 <= n && is_boundary(t, start + i) && is_boundary(t, start + i + 2) {
        proof {
            assert(char_boundary(u, i as int) == char_boundary(t@, start + i));
            assert(char_boundary(u, i + 2) == char_boundary(t@, start + i + 2));
        }
        let a = t[start + i];
        let b = t[start + i + 1];
        proof {
            assert(u[i as int] == a);
            assert(u[i + 1] == b);
        }
        match (hex_digit_exec(a), hex_digit_exec(b)) {
            (Some(x), Some(y)) => x * 16 + y,
            (None, Some(y)) => if a == 0x2b {
                y
            } else {
                128
            },
            _ => 128,
        }
    } else {
        proof {
            if i + 2 <= n {
                assert(char_boundary(u, i as int) == char_boundary(t@, start + i));
                assert(char_boundary(u, i + 2) == char_boundary(t@, start + i + 2));
            }
        }
        128
    }
}

/// The red, green and blue channels of a CSS hex colour string such as
/// `"#FF8800"`, with or without leading `#`; a channel that cannot be read
/// is 128.
pub fn color_bytes(hex: &str) -> (c: [u8; 3])
    ensures
        c == color_channels(hex.spec_bytes()),
{
    let t = hex.as_bytes();
    let mut start: usize = 0;
    proof {
        assert(t@.subrange(0, t@.len() as int) =~= t@);
    }
    while start < t.len() && t[start] == 0x23
        invariant
            start <= t@.len(),
            strip_hashes(t@) == strip_hashes(t@.subrange(start as int, t@.len() as int)),
        decreases t@.len() - start,
    {
        proof {
            assert(t@.subrange(start as int, t@.len() as int).drop_first() =~= t@.subrange(
                start + 1,
                t@.len() as int,
            ));
        }
        start += 1;
    }
    proof {
        let u = t@.subrange(start as int, t@.len() as int);
        assert(strip_hashes(u) == u);
    }
    let c = [read_channel(t, start, 0), read_channel(t, start, 1), read_channel(t, start, 2)];
    proof {
        assert(c =~= color_channels(t@));
    }
    c
}

} // verus!
