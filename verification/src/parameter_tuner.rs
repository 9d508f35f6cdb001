//! Config-text handling and parameter selection for live tuning.
//!
//! The `[tuning]` section of the configuration lists the parameters that can
//! be adjusted while the wallpaper runs; it is rewritten on exit, so the old
//! section is first removed from the document text.

use vstd::prelude::*;
use crate::text::{push_char, push_chars, string_from_chars};
use crate::timelapse::{trim, trimmed_chars};

verus! {

/// The lines of `s` from `start`, scanning from `i`: split at `'\n'`, each
/// terminated line losing one trailing `'\r'`, and a final empty piece
/// dropped.
pub open spec fn lines_from(s: Seq<char>, start: int, i: int) -> Seq<Seq<char>>
    decreases s.len() - i,
{
    if i >= s.len() {
        if start < s.len() {
            seq![s.subrange(start, s.len() as int)]
        } else {
            Seq::empty()
        }
    } else if s[i] == '\n' {
        seq![strip_cr(s.subrange(start, i))] + lines_from(s, i + 1, i + 1)
    } else {
        lines_from(s, start, i + 1)
    }
}

/// A line without its trailing carriage return.
pub open spec fn strip_cr(l: Seq<char>) -> Seq<char> {
    if l.len() > 0 && l.last() == '\r' {
        l.drop_last()
    } else {
        l
    }
}

/// The lines of a text, as `str::lines` yields them.
pub open spec fn text_lines(s: Seq<char>) -> Seq<Seq<char>> {
    lines_from(s, 0, 0)
}

/// Whether `t` begins with `p`.
pub open spec fn has_prefix(t: Seq<char>, p: Seq<char>) -> bool {
    p.len() <= t.len() && t.subrange(0, p.len() as int) == p
}

/// Whether a trimmed section header opens the tuning section or one of its
/// tables.
pub open spec fn is_tuning_header(t: Seq<char>) -> bool {
    ||| t == seq!['[', 't', 'u', 'n', 'i', 'n', 'g', ']']
    ||| has_prefix(t, seq!['[', 't', 'u', 'n', 'i', 'n', 'g', '.'])
    ||| has_prefix(t, seq!['[', '[', 't', 'u', 'n', 'i', 'n', 'g'])
}

/// Whether the last of `ls` lies in the tuning section: the most recent
/// section header among them opens it.
pub open spec fn in_tuning(ls: Seq<Seq<char>>) -> bool
    decreases ls.len(),
{
    if ls.len() == 0 {
        false
    } else {
        let t = trim(ls.last());
        if t.len() > 0 && t[0] == '[' {
            is_tuning_header(t)
        } else {
            in_tuning(ls.drop_last())
        }
    }
}

/// The lines outside the tuning section, each followed by `'\n'`.
pub open spec fn kept_lines(ls: Seq<Seq<char>>) -> Seq<char>
    decreases ls.len(),
{
    if ls.len() == 0 {
        Seq::empty()
    } else {
        kept_lines(ls.drop_last()) + if in_tuning(ls) {
            Seq::empty()
        } else {
            ls.last().push('\n')
        }
    }
}

/// Whether `t` begins with `p`.
fn starts_with_chars(t: &Vec<char>, p: &[char]) -> (b: bool)
    ensures
        b == has_prefix(t@, p@),
{
    if p.len() > t.len() {
        return false;
    }
    let mut i: usize = 0;
    while i < p.len()
        invariant
            p@.len() <= t@.len(),
            i <= p@.len(),
            forall|j: int| 0 <= j < i ==> t@[j] == p@[j],
        decreases p@.len() - i,
    {
        if t[i] != p[i] {
            proof {
                assert(t@.subrange(0, p@.len() as int)[i as int] != p@[i as int]);
            }
            return false;
        }
        i += 1;
    }
    proof {
        assert(t@.subrange(0, p@.len() as int) =~= p@);
    }
    true
}

/// Whether a trimmed line opens the tuning section or one of its tables.
fn tuning_header(t: &Vec<char>) -> (b: bool)
    ensures
        b == is_tuning_header(t@),
{
    let whole = ['[', 't', 'u', 'n', 'i', 'n', 'g', ']'];
    let sub = ['[', 't', 'u', 'n', 'i', 'n', 'g', '.'];
    let arr = ['[', '[', 't', 'u', 'n', 'i', 'n', 'g'];
    let is_whole = t.len() == 8 && starts_with_chars(t, &whole);
    let is_sub = starts_with_chars(t, &sub);
    let is_arr = starts_with_chars(t, &arr);
    proof {
        assert(whole@ =~= seq!['[', 't', 'u', 'n', 'i', 'n', 'g', ']']);
        assert(sub@ =~= seq!['[', 't', 'u', 'n', 'i', 'n', 'g', '.']);
        assert(arr@ =~= seq!['[', '[', 't', 'u', 'n', 'i', 'n', 'g']);
        if t@.len() == 8 {
            assert(t@.subrange(0, 8) =~= t@);
        }
    }
    is_whole || is_sub || is_arr
}

/// Appends `line` and a newline to `out` unless it lies in the tuning
/// section, tracking whether the tuning section is open.
fn keep_line(out: &mut String, tuning: &mut bool, line: &Vec<char>, Ghost(done): Ghost<Seq<Seq<char>>>)
    requires
        old(out)@ == kept_lines(done),
        *old(tuning) == in_tuning(done),
    ensures
        final(out)@ == kept_lines(done.push(line@)),
        *final(tuning) == in_tuning(done.push(line@)),
{
    let text = string_from_chars(line.as_slice());
    let t = trimmed_chars(text.as_str());
    if t.len() > 0 && t[0] == '[' {
        *tuning = tuning_header(&t);
    }
    if !*tuning {
        push_chars(out, line.as_slice());
        push_char(out, '\n');
    }
    proof {
        let nd = done.push(line@);
        assert(nd.drop_last() =~= done);
        assert(nd.last() == line@);
        assert(final(out)@ =~= kept_lines(nd));
    }
}

/// The characters `cs[start..end]`.
fn slice_chars(cs: &Vec<char>, start: usize, end: usize) -> (line: Vec<char>)
    requires
        start <= end <= cs@.len(),
    ensures
        line@ == cs@.subrange(start as int, end as int),
{
    let mut line: Vec<char> = Vec::new();
    let mut k = start;
    while k < end
        invariant
            start <= k <= end,
            end <= cs@.len(),
            line@ == cs@.subrange(start as int, k as int),
        decreases end - k,
    {
        line.push(cs[k]);
        k += 1;
        proof {
            assert(line@ =~= cs@.subrange(start as int, k as int));
        }
    }
    line
}

/// Remove the `[tuning]` section and all lines belonging to it from a TOML
/// document: every line from a `[tuning]`, `[tuning.…]` or `[[tuning…`
/// header up to the next other section header is dropped, and every kept
/// line is ended with `'\n'`.
pub fn strip_tuning_section(src: &str) -> (out: String)
    ensures
        out@ == kept_lines(text_lines(src@)),
{
    let cs = crate::text::str_chars(src);
    let ghost s = cs@;
    let mut out = String::new();
    let mut tuning = false;
    let mut start: usize = 0;
    let mut i: usize = 0;
    let ghost mut done: Seq<Seq<char>> = Seq::empty();
    while i < cs.len()
        invariant
            s == cs@,
            s == src@,
            start <= i <= s.len(),
            done + lines_from(s, start as int, i as int) == text_lines(s),
            out@ == kept_lines(done),
            tuning == in_tuning(done),
        decreases s.len() - i,
    {
        if cs[i] == '\n' {
            let ghost rest = lines_from(s, start as int, i as int);
            let mut line = slice_chars(&cs, start, i);
            if line.len() > 0 && line[line.len() - 1] == '\r' {
                line.pop();
            }
            proof {
                assert(line@ == strip_cr(s.subrange(start as int, i as int)));
                assert(rest == seq![line@] + lines_from(s, i + 1, i + 1));
            }
            keep_line(&mut out, &mut tuning, &line, Ghost(done));
            proof {
                assert(done + rest =~= done.push(line@) + lines_from(s, i + 1, i + 1));
                done = done.push(line@);
            }
            start = i + 1;
        }
        i += 1;
    }
    let ghost rest = lines_from(s, start as int, i as int);
    if start < cs.len() {
        let line = slice_chars(&cs, start, cs.len());
        proof {
            assert(rest =~= seq![line@]);
        }
        keep_line(&mut out, &mut tuning, &line, Ghost(done));
        proof {
            assert(done + rest =~= done.push(line@));
        }
    } else {
        proof {
            assert(done + rest =~= done);
        }
    }
    out
}

/// The parameter selected after moving back one from `selected` among
/// `count` parameters (wrapping to the last; unchanged without parameters).
pub fn select_prev_index(selected: usize, count: usize) -> (i: usize)
    ensures
        count == 0 ==> i == selected,
        count > 0 && selected == 0 ==> i == count - 1,
        count > 0 && selected > 0 ==> i == selected - 1,
{
    if count == 0 {
        return selected;
    }
    if selected == 0 {
        count - 1
    } else {
        selected - 1
    }
}

/// The parameter selected after moving on one from `selected` among
/// `count` parameters (wrapping to the first; unchanged without
/// parameters).
pub fn select_next_index(selected: usize, count: usize) -> (i: usize)
    requires
        selected < usize::MAX,
    ensures
        count == 0 ==> i == selected,
        count > 0 ==> i == (selected + 1) % (count as int),
{
    if count == 0 {
        return selected;
    }
    (selected + 1) % count
}

} // verus!
