//! Named colour palettes and their CSS hexadecimal form.

use vstd::prelude::*;
use crate::text::{hex_char, push_char, push_hex_byte};

verus! {

/// A named collection of RGB colors.
#[derive(Debug, Clone)]
pub struct ColorPalette {
    /// RGB colors, each as `[R, G, B]` with values in 0..=255.
    pub colors: Vec<[u8; 3]>,
    /// Human-readable name of the palette.
    pub name: String,
}

/// The two upper-case hexadecimal digits of a byte.
pub open spec fn hex_byte(b: u8) -> Seq<char> {
    seq![hex_char(b as int / 16), hex_char(b as int % 16)]
}

/// The CSS form `#RRGGBB` of a colour, with upper-case digits.
pub open spec fn hex_color(c: [u8; 3]) -> Seq<char> {
    seq!['#'] + hex_byte(c[0]) + hex_byte(c[1]) + hex_byte(c[2])
}

/// The CSS form of a colour.
pub fn hex_string(c: [u8; 3]) -> (s: String)
    ensures
        s@ == hex_color(c),
{
    let mut s = String::new();
    push_char(&mut s, '#');
    push_hex_byte(&mut s, c[0]);
    push_hex_byte(&mut s, c[1]);
    push_hex_byte(&mut s, c[2]);
    proof {
        assert(s@ =~= hex_color(c));
    }
    s
}

impl ColorPalette {
    /// Create a new named palette.
    pub fn new(name: &str, colors: Vec<[u8; 3]>) -> (p: Self)
        ensures
            p.name@ == name@,
            p.colors@ == colors@,
    {
        ColorPalette { name: name.to_owned(), colors }
    }

    /// Convert all colors to CSS hex strings (e.g. `"#4488FF"`).
    pub fn to_hex_strings(&self) -> (v: Vec<String>)
        ensures
            v@.len() == self.colors@.len(),
            forall|i: int| 0 <= i < v@.len() ==> (#[trigger] v@[i])@ == hex_color(self.colors@[i]),
    {
        let mut v: Vec<String> = Vec::new();
        let mut i: usize = 0;
        while i < self.colors.len()
            invariant
                i <= self.colors@.len(),
                v@.len() == i,
                forall|j: int| 0 <= j < i ==> (#[trigger] v@[j])@ == hex_color(self.colors@[j]),
            decreases self.colors@.len() - i,
        {
            v.push(hex_string(self.colors[i]));
            i += 1;
        }
        v
    }
}

} // verus!
