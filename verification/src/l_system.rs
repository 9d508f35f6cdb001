//! Lindenmayer systems: a seed and character production rules, expanded
//! by rewriting every character in parallel.
//!
//! The rules are kept as a list of `(variable, replacement)` pairs in which
//! the first entry for a character is the one that applies; `rule` keeps
//! at most one entry per character.

use vstd::prelude::*;
use crate::text::push_char;
use crate::line::{in_line_range, line_points, paint_all, paint_points, walk_line};

verus! {

/// An L-system defined by a seed and a set of character production rules.
#[derive(Debug, Clone)]
pub struct LSystem {
    /// Starting string (seed).
    pub seed: String,
    /// Production rules: each variable character with its replacement.
    pub rules: Vec<(char, String)>,
    /// Characters that are rewritten by production rules.
    pub variables: Vec<char>,
    /// Characters that pass through unchanged.
    pub constants: Vec<char>,
}

/// The replacement of `c` given by the first entry at or after `i` whose
/// character is `c`.
pub open spec fn rule_from(rules: Seq<(char, String)>, c: char, i: int) -> Option<Seq<char>>
    decreases rules.len() - i,
{
    if i < 0 || i >= rules.len() {
        None
    } else if rules[i].0 == c {
        Some(rules[i].1@)
    } else {
        rule_from(rules, c, i + 1)
    }
}

/// The rules as a map from variable to replacement.
pub open spec fn rules_map(rules: Seq<(char, String)>) -> Map<char, Seq<char>> {
    Map::new(|c: char| rule_from(rules, c, 0) is Some, |c: char| rule_from(rules, c, 0)->0)
}

/// One parallel rewriting step: every character with a rule is replaced by
/// its replacement, every other character is kept.
pub open spec fn rewrite(s: Seq<char>, rules: Map<char, Seq<char>>) -> Seq<char>
    decreases s.len(),
{
    if s.len() == 0 {
        Seq::empty()
    } else {
        rewrite(s.drop_last(), rules) + if rules.contains_key(s.last()) {
            rules[s.last()]
        } else {
            seq![s.last()]
        }
    }
}

/// `n` rewriting steps from `seed`.
pub open spec fn expansion(seed: Seq<char>, rules: Map<char, Seq<char>>, n: nat) -> Seq<char>
    decreases n,
{
    if n == 0 {
        seed
    } else {
        rewrite(expansion(seed, rules, (n - 1) as nat), rules)
    }
}

/// Rewriting a concatenation rewrites each part.
pub proof fn lemma_rewrite_concat(a: Seq<char>, b: Seq<char>, rules: Map<char, Seq<char>>)
    ensures
        rewrite(a + b, rules) == rewrite(a, rules) + rewrite(b, rules),
    decreases b.len(),
{
    if b.len() == 0 {
        assert(a + b =~= a);
        assert(rewrite(a, rules) + rewrite(b, rules) =~= rewrite(a, rules));
    } else {
        lemma_rewrite_concat(a, b.drop_last(), rules);
        assert((a + b).drop_last() =~= a + b.drop_last());
        assert((a + b).last() == b.last());
    }
}

/// Expanding `n` steps and then `m` more steps from the result is expanding
/// `n + m` steps.
pub proof fn lemma_expansion_compose(seed: Seq<char>, rules: Map<char, Seq<char>>, n: nat, m: nat)
    ensures
        expansion(expansion(seed, rules, n), rules, m) == expansion(seed, rules, n + m),
    decreases m,
{
    if m > 0 {
        lemma_expansion_compose(seed, rules, n, (m - 1) as nat);
        assert((n + m - 1) as nat == n + (m - 1) as nat);
    }
}

/// A string of characters without rules is left unchanged by expansion.
pub proof fn lemma_expansion_fixes_constants(s: Seq<char>, rules: Map<char, Seq<char>>, n: nat)
    requires
        forall|i: int| 0 <= i < s.len() ==> !rules.contains_key(#[trigger] s[i]),
    ensures
        expansion(s, rules, n) == s,
    decreases n,
{
    if n > 0 {
        lemma_expansion_fixes_constants(s, rules, (n - 1) as nat);
        lemma_rewrite_fixes_constants(s, rules);
    }
}

proof fn lemma_rewrite_fixes_constants(s: Seq<char>, rules: Map<char, Seq<char>>)
    requires
        forall|i: int| 0 <= i < s.len() ==> !rules.contains_key(#[trigger] s[i]),
    ensures
        rewrite(s, rules) == s,
    decreases s.len(),
{
    if s.len() > 0 {
        let t = s.drop_last();
        assert forall|i: int| 0 <= i < t.len() implies !rules.contains_key(#[trigger] t[i]) by {
            assert(t[i] == s[i]);
        }
        lemma_rewrite_fixes_constants(t, rules);
        assert(!rules.contains_key(s[s.len() - 1]));
        assert(t.push(s.last()) =~= s);
    }
}

proof fn lemma_rule_from_skip(rules: Seq<(char, String)>, c: char, i: int)
    requires
        0 <= i <= rules.len(),
        forall|j: int| 0 <= j < i ==> (#[trigger] rules[j]).0 != c,
    ensures
        rule_from(rules, c, 0) == rule_from(rules, c, i),
    decreases i,
{
    if i > 0 {
        lemma_rule_from_skip(rules, c, i - 1);
        assert(rules[i - 1].0 != c);
    }
}

proof fn lemma_rule_from_push(rules: Seq<(char, String)>, e: (char, String), c: char, i: int)
    requires
        0 <= i <= rules.len(),
    ensures
        rule_from(rules.push(e), c, i) == match rule_from(rules, c, i) {
            Some(v) => Some(v),
            None => if e.0 == c {
                Some(e.1@)
            } else {
                None
            },
        },
    decreases rules.len() - i,
{
    let pushed = rules.push(e);
    if i < rules.len() {
        lemma_rule_from_push(rules, e, c, i + 1);
        assert(pushed[i] == rules[i]);
    } else {
        assert(pushed[i] == e);
        assert(rule_from(pushed, c, i + 1) is None);
    }
}

proof fn lemma_rule_from_update_other(rules: Seq<(char, String)>, k: int, e: (char, String), c: char, i: int)
    requires
        0 <= k < rules.len(),
        0 <= i <= rules.len(),
        e.0 == rules[k].0,
        e.0 != c,
    ensures
        rule_from(rules.update(k, e), c, i) == rule_from(rules, c, i),
    decreases rules.len() - i,
{
    if i < rules.len() {
        lemma_rule_from_update_other(rules, k, e, c, i + 1);
    }
}

proof fn lemma_rule_from_update_first(rules: Seq<(char, String)>, k: int, e: (char, String), i: int)
    requires
        0 <= i <= k < rules.len(),
        e.0 == rules[k].0,
        forall|j: int| i <= j < k ==> (#[trigger] rules[j]).0 != e.0,
    ensures
        rule_from(rules.update(k, e), e.0, i) == Some(e.1@),
    decreases k - i,
{
    if i < k {
        lemma_rule_from_update_first(rules, k, e, i + 1);
    }
}

/// The index of the first entry whose character is `c`.
fn find_rule(rules: &Vec<(char, String)>, c: char) -> (found: Option<usize>)
    ensures
        match found {
            Some(i) => i < rules@.len() && rules@[i as int].0 == c && rule_from(rules@, c, 0) == Some(
                rules@[i as int].1@,
            ) && forall|j: int| 0 <= j < i ==> (#[trigger] rules@[j]).0 != c,
            None => rule_from(rules@, c, 0) is None,
        },
{
    let mut i: usize = 0;
    while i < rules.len()
        invariant
            i <= rules@.len(),
            forall|j: int| 0 <= j < i ==> (#[trigger] rules@[j]).0 != c,
        decreases rules@.len() - i,
    {
        if rules[i].0 == c {
            proof {
                lemma_rule_from_skip(rules@, c, i as int);
            }
            return Some(i);
        }
        i += 1;
    }
    proof {
        lemma_rule_from_skip(rules@, c, i as int);
    }
    None
}

/// Whether `c` occurs in `v`.
fn contains_char(v: &Vec<char>, c: char) -> (b: bool)
    ensures
        b == v@.contains(c),
{
    let mut i: usize = 0;
    while i < v.len()
        invariant
            i <= v@.len(),
            forall|j: int| 0 <= j < i ==> v@[j] != c,
        decreases v@.len() - i,
    {
        if v[i] == c {
            proof {
                assert(v@[i as int] == c);
            }
            return true;
        }
        i += 1;
    }
    false
}

impl LSystem {
    /// The production rules as a map from variable to replacement.
    pub open spec fn rule_map(&self) -> Map<char, Seq<char>> {
        rules_map(self.rules@)
    }

    /// Create an L-system with just a seed and no rules yet.
    pub fn new(seed: &str) -> (ls: Self)
        ensures
            ls.seed@ == seed@,
            ls.rule_map() == Map::<char, Seq<char>>::empty(),
            ls.rules@.len() == 0,
            ls.variables@.len() == 0,
            ls.constants@.len() == 0,
    {
        let ls = LSystem { seed: seed.to_owned(), rules: Vec::new(), variables: Vec::new(), constants: Vec::new() };
        proof {
            assert(ls.rule_map() =~= Map::<char, Seq<char>>::empty());
        }
        ls
    }

    /// Builder: add a production rule `from → to` (replacing an earlier rule
    /// for `from`) and register `from` as a variable.
    pub fn rule(self, from: char, to: &str) -> (ls: Self)
        ensures
            ls.seed@ == self.seed@,
            ls.rule_map() == self.rule_map().insert(from, to@),
            ls.variables@.to_set() == self.variables@.to_set().insert(from),
            ls.constants@ == self.constants@,
    {
        let mut ls = self;
        let ghost old_rules = ls.rules@;
        let entry = (from, to.to_owned());
        match find_rule(&ls.rules, from) {
            Some(i) => {
                ls.rules.set(i, entry);
                proof {
                    assert forall|c: char| #[trigger] rule_from(ls.rules@, c, 0) == if c == from {
                        Some(to@)
                    } else {
                        rule_from(old_rules, c, 0)
                    } by {
                        if c == from {
                            lemma_rule_from_update_first(old_rules, i as int, entry, 0);
                        } else {
                            lemma_rule_from_update_other(old_rules, i as int, entry, c, 0);
                        }
                    }
                }
            },
            None => {
                ls.rules.push(entry);
                proof {
                    assert forall|c: char| #[trigger] rule_from(ls.rules@, c, 0) == if c == from {
                        Some(to@)
                    } else {
                        rule_from(old_rules, c, 0)
                    } by {
                        lemma_rule_from_push(old_rules, entry, c, 0);
                    }
                }
            },
        }
        proof {
            assert(ls.rule_map() =~= rules_map(old_rules).insert(from, to@));
        }
        let ghost old_vars = ls.variables@;
        if !contains_char(&ls.variables, from) {
            ls.variables.push(from);
            proof {
                assert forall|x: char| ls.variables@.contains(x) <==> old_vars.contains(x) || x == from by {
                    if old_vars.contains(x) {
                        let j = choose|j: int| 0 <= j < old_vars.len() && old_vars[j] == x;
                        assert(ls.variables@[j] == x);
                    }
                    if x == from {
                        assert(ls.variables@[old_vars.len() as int] == x);
                    }
                    if ls.variables@.contains(x) && x != from {
                        let j = choose|j: int| 0 <= j < ls.variables@.len() && ls.variables@[j] == x;
                        assert(old_vars[j] == x);
                    }
                }
            }
        }
        proof {
            assert(ls.variables@.to_set() =~= old_vars.to_set().insert(from));
        }
        ls
    }

    /// Expand the seed by applying production rules `iterations` times.
    pub fn expand(&self, iterations: usize) -> (s: String)
        ensures
            s@ == expansion(self.seed@, self.rule_map(), iterations as nat),
    {
        let ghost m = self.rule_map();
        let mut current = self.seed.clone();
        let mut n: usize = 0;
        while n < iterations
            invariant
                n <= iterations,
                m == self.rule_map(),
                current@ == expansion(self.seed@, m, n as nat),
            decreases iterations - n,
        {
            let chars = crate::text::str_chars(current.as_str());
            let mut next = String::new();
            let mut j: usize = 0;
            while j < chars.len()
                invariant
                    j <= chars@.len(),
                    m == self.rule_map(),
                    next@ == rewrite(chars@.take(j as int), m),
                decreases chars@.len() - j,
            {
                let c = chars[j];
                proof {
                    assert(chars@.take(j + 1).drop_last() =~= chars@.take(j as int));
                }
                match find_rule(&self.rules, c) {
                    Some(i) => {
                        next.append(self.rules[i].1.as_str());
                    },
                    None => {
                        push_char(&mut next, c);
                    },
                }
                j += 1;
            }
            proof {
                assert(chars@.take(chars@.len() as int) =~= chars@);
            }
            current = next;
            n += 1;
        }
        current
    }

    // ── Named L-systems ───────────────────────────────────────────────────────

    /// Dragon curve: seed "F", rules F→F+G, G→F-G; angle=90°.
    pub fn dragon_curve() -> (ls: Self)
        ensures
            ls.seed@ == seq!['F'],
            ls.rule_map() == map!['F' => seq!['F', '+', 'G'], 'G' => seq!['F', '-', 'G']],
    {
        let ls = Self::new("F").rule('F', "F+G").rule('G', "F-G");
        proof {
            reveal_strlit("F");
            assert("F"@ =~= seq!['F']);
            reveal_strlit("F+G");
            assert("F+G"@ =~= seq!['F', '+', 'G']);
            reveal_strlit("F-G");
            assert("F-G"@ =~= seq!['F', '-', 'G']);
            assert(ls.rule_map() =~= map!['F' => seq!['F', '+', 'G'], 'G' => seq!['F', '-', 'G']]);
        }
        ls
    }

    /// Sierpinski triangle: seed "F-G-G", rules F→F-G+F+G-F, G→GG; angle=120°.
    pub fn sierpinski_triangle() -> (ls: Self)
        ensures
            ls.seed@ == seq!['F', '-', 'G', '-', 'G'],
            ls.rule_map() == map![
                'F' => seq!['F', '-', 'G', '+', 'F', '+', 'G', '-', 'F'],
                'G' => seq!['G', 'G'],
            ],
    {
        let ls = Self::new("F-G-G").rule('F', "F-G+F+G-F").rule('G', "GG");
        proof {
            reveal_strlit("F-G-G");
            assert("F-G-G"@ =~= seq!['F', '-', 'G', '-', 'G']);
            reveal_strlit("F-G+F+G-F");
            assert("F-G+F+G-F"@ =~= seq!['F', '-', 'G', '+', 'F', '+', 'G', '-', 'F']);
            reveal_strlit("GG");
            assert("GG"@ =~= seq!['G', 'G']);
            assert(ls.rule_map() =~= map![
                'F' => seq!['F', '-', 'G', '+', 'F', '+', 'G', '-', 'F'],
                'G' => seq!['G', 'G'],
            ]);
        }
        ls
    }

    /// Fractal plant: seed "X", rules X→F+[[X]-X]-F[-FX]+X, F→FF; angle=25°.
    pub fn plant() -> (ls: Self)
        ensures
            ls.seed@ == seq!['X'],
            ls.rule_map() == map![
                'X' => seq!['F', '+', '[', '[', 'X', ']', '-', 'X', ']', '-', 'F', '[', '-', 'F', 'X', ']', '+', 'X'],
                'F' => seq!['F', 'F'],
            ],
    {
        let ls = Self::new("X").rule('X', "F+[[X]-X]-F[-FX]+X").rule('F', "FF");
        proof {
            reveal_strlit("X");
            assert("X"@ =~= seq!['X']);
            reveal_strlit("F+[[X]-X]-F[-FX]+X");
            assert("F+[[X]-X]-F[-FX]+X"@ =~= seq!['F', '+', '[', '[', 'X', ']', '-', 'X', ']', '-', 'F', '[', '-', 'F', 'X', ']', '+', 'X']);
            reveal_strlit("FF");
            assert("FF"@ =~= seq!['F', 'F']);
            assert(ls.rule_map() =~= map![
                'X' => seq!['F', '+', '[', '[', 'X', ']', '-', 'X', ']', '-', 'F', '[', '-', 'F', 'X', ']', '+', 'X'],
                'F' => seq!['F', 'F'],
            ]);
        }
        ls
    }

    /// Hilbert curve: seed "A", rules A→+BF-AFA-FB+, B→-AF+BFB+FA-; angle=90°.
    pub fn hilbert_curve() -> (ls: Self)
        ensures
            ls.seed@ == seq!['A'],
            ls.rule_map() == map![
                'A' => seq!['+', 'B', 'F', '-', 'A', 'F', 'A', '-', 'F', 'B', '+'],
                'B' => seq!['-', 'A', 'F', '+', 'B', 'F', 'B', '+', 'F', 'A', '-'],
            ],
    {
        let ls = Self::new("A").rule('A', "+BF-AFA-FB+").rule('B', "-AF+BFB+FA-");
        proof {
            reveal_strlit("A");
            assert("A"@ =~= seq!['A']);
            reveal_strlit("+BF-AFA-FB+");
            assert("+BF-AFA-FB+"@ =~= seq!['+', 'B', 'F', '-', 'A', 'F', 'A', '-', 'F', 'B', '+']);
            reveal_strlit("-AF+BFB+FA-");
            assert("-AF+BFB+FA-"@ =~= seq!['-', 'A', 'F', '+', 'B', 'F', 'B', '+', 'F', 'A', '-']);
            assert(ls.rule_map() =~= map![
                'A' => seq!['+', 'B', 'F', '-', 'A', 'F', 'A', '-', 'F', 'B', '+'],
                'B' => seq!['-', 'A', 'F', '+', 'B', 'F', 'B', '+', 'F', 'A', '-'],
            ]);
        }
        ls
    }
}


// ── Rasterisation ─────────────────────────────────────────────────────────────

/// The buffer after drawing every segment, in order, with the strict
/// Bresenham walk.
pub open spec fn drawn(buf: Seq<u8>, segs: Seq<(i64, i64, i64, i64)>, w: int, h: int, c: (u8, u8, u8)) -> Seq<u8>
    decreases segs.len(),
{
    if segs.len() == 0 {
        buf
    } else {
        let s = segs.last();
        paint_all(
            drawn(buf, segs.drop_last(), w, h, c),
            line_points(s.0 as int, s.1 as int, s.2 as int, s.3 as int, true),
            w,
            h,
            c,
        )
    }
}

/// Whether every end point of every segment is in the walkable range.
pub open spec fn segments_in_range(segs: Seq<(i64, i64, i64, i64)>) -> bool {
    forall|i: int|
        0 <= i < segs.len() ==> {
            let s = #[trigger] segs[i];
            in_line_range(s.0 as int) && in_line_range(s.1 as int) && in_line_range(s.2 as int) && in_line_range(
                s.3 as int,
            )
        }
}

/// Rasterise segments with integer end points onto a black `w × h` RGB
/// buffer (R, G, B interleaved), drawing each with Bresenham's algorithm.
pub fn rasterize_segments(segments: &[(i64, i64, i64, i64)], w: usize, h: usize, color: (u8, u8, u8)) -> (buf: Vec<u8>)
    requires
        w * h * 3 <= usize::MAX,
        segments_in_range(segments@),
    ensures
        buf@ == drawn(Seq::new((w * h * 3) as nat, |i: int| 0u8), segments@, w as int, h as int, color),
{
    let n = w * h * 3;
    let mut buf: Vec<u8> = Vec::new();
    let mut k: usize = 0;
    while k < n
        invariant
            k <= n,
            n == w * h * 3,
            buf@.len() == k,
            forall|t: int| 0 <= t < k ==> buf@[t] == 0u8,
        decreases n - k,
    {
        buf.push(0);
        k += 1;
    }
    let ghost zeros = Seq::new((w * h * 3) as nat, |i: int| 0u8);
    proof {
        assert(buf@ =~= zeros);
    }
    let mut i: usize = 0;
    while i < segments.len()
        invariant
            i <= segments@.len(),
            zeros.len() == w * h * 3,
            segments_in_range(segments@),
            buf@.len() == w * h * 3,
            buf@ == drawn(zeros, segments@.take(i as int), w as int, h as int, color),
        decreases segments@.len() - i,
    {
        let (x0, y0, x1, y1) = segments[i];
        proof {
            assert(segments@[i as int] == (x0, y0, x1, y1));
            assert(segments@.take(i + 1).drop_last() =~= segments@.take(i as int));
        }
        let pts = walk_line(x0, y0, x1, y1, true);
        paint_points(&mut buf, &pts, w, h, color);
        proof {
            crate::line::lemma_paint_all_len(
                drawn(zeros, segments@.take(i as int), w as int, h as int, color),
                line_points(x0 as int, y0 as int, x1 as int, y1 as int, true),
                w as int,
                h as int,
                color,
            );
        }
        i += 1;
    }
    proof {
        assert(segments@.take(segments@.len() as int) =~= segments@);
    }
    buf
}

} // verus!
