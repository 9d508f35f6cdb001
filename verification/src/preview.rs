//! Cycling through the symmetry groups offered by the preview.

use vstd::prelude::*;
use crate::text::str_chars;

verus! {

/// The number of symmetry groups in the cycle.
pub const GROUP_COUNT: usize = 8;

/// The name of symmetry group `i` in cycle order.
pub open spec fn group_name(i: int) -> Seq<char> {
    if i == 0 {
        "p1"@
    } else if i == 1 {
        "p2"@
    } else if i == 2 {
        "pm"@
    } else if i == 3 {
        "pg"@
    } else if i == 4 {
        "cm"@
    } else if i == 5 {
        "p4"@
    } else if i == 6 {
        "p4g"@
    } else {
        "p6m"@
    }
}

/// The name of symmetry group `i` in cycle order.
pub fn group_at(i: usize) -> (name: &'static str)
    requires
        i < GROUP_COUNT,
    ensures
        name@ == group_name(i as int),
{
    if i == 0 {
        "p1"
    } else if i == 1 {
        "p2"
    } else if i == 2 {
        "pm"
    } else if i == 3 {
        "pg"
    } else if i == 4 {
        "cm"
    } else if i == 5 {
        "p4"
    } else if i == 6 {
        "p4g"
    } else {
        "p6m"
    }
}

/// The position of `name` in the cycle: the first group with that name.
pub open spec fn group_position(name: Seq<char>) -> Option<int> {
    if exists|i: int| 0 <= i < GROUP_COUNT && group_name(i) == name {
        Some(choose|i: int| 0 <= i < GROUP_COUNT && group_name(i) == name && forall|j: int| 0 <= j < i ==> group_name(j) != name)
    } else {
        None
    }
}

/// The group after `name` in the cycle (the first group when `name` is not
/// in it).
pub open spec fn next_group(name: Seq<char>) -> Seq<char> {
    match group_position(name) {
        Some(i) => group_name((i + 1) % (GROUP_COUNT as int)),
        None => group_name(0),
    }
}

/// The group before `name` in the cycle (the first group when `name` is not
/// in it).
pub open spec fn prev_group(name: Seq<char>) -> Seq<char> {
    match group_position(name) {
        Some(i) => if i == 0 {
            group_name(GROUP_COUNT - 1)
        } else {
            group_name(i - 1)
        },
        None => group_name(0),
    }
}

/// Whether two strings hold the same characters.
fn same_text(a: &str, b: &str) -> (eq: bool)
    ensures
        eq == (a@ == b@),
{
    let x = str_chars(a);
    let y = str_chars(b);
    if x.len() != y.len() {
        return false;
    }
    let mut i: usize = 0;
    while i < x.len()
        invariant
            x@ == a@,
            y@ == b@,
            x@.len() == y@.len(),
            i <= x@.len(),
            forall|j: int| 0 <= j < i ==> x@[j] == y@[j],
        decreases x@.len() - i,
    {
        if x[i] != y[i] {
            return false;
        }
        i += 1;
    }
    proof {
        assert(x@ =~= y@);
    }
    true
}

/// The position of `name` in the cycle, if it is there.
pub fn position_of_group(name: &str) -> (pos: Option<usize>)
    ensures
        match pos {
            Some(i) => group_position(name@) == Some(i as int),
            None => group_position(name@) is None,
        },
{
    let mut i: usize = 0;
    while i < GROUP_COUNT
        invariant
            i <= GROUP_COUNT,
            forall|j: int| 0 <= j < i ==> group_name(j) != name@,
        decreases GROUP_COUNT - i,
    {
        if same_text(group_at(i), name) {
            proof {
                let k = choose|k: int|
                    0 <= k < GROUP_COUNT && group_name(k) == name@ && forall|j: int| 0 <= j < k ==> group_name(j) != name@;
                assert(group_name(i as int) == name@);
                if k < i {
                } else if k > i {
                    assert(group_name(i as int) != name@);
                }
            }
            return Some(i);
        }
        i += 1;
    }
    None
}

/// The symmetry group after `current` in the cycle.
pub fn next_symmetry_group(current: &str) -> (name: &'static str)
    ensures
        name@ == next_group(current@),
{
    match position_of_group(current) {
        Some(i) => group_at((i + 1) % GROUP_COUNT),
        None => group_at(0),
    }
}

/// The symmetry group before `current` in the cycle.
pub fn prev_symmetry_group(current: &str) -> (name: &'static str)
    ensures
        name@ == prev_group(current@),
{
    match position_of_group(current) {
        Some(0) => group_at(GROUP_COUNT - 1),
        Some(i) => group_at(i - 1),
        None => group_at(0),
    }
}

/// Stepping back after stepping forward returns to the group one started
/// from.
pub proof fn lemma_prev_after_next(i: int)
    requires
        0 <= i < GROUP_COUNT,
    ensures
        prev_group(next_group(group_name(i))) == group_name(i),
{
    lemma_group_names_distinct();
    assert(group_position(group_name(i)) == Some(i)) by {
        let k = choose|k: int|
            0 <= k < GROUP_COUNT && group_name(k) == group_name(i) && forall|j: int| 0 <= j < k ==> group_name(j) != group_name(i);
        assert(0 <= i < GROUP_COUNT && group_name(i) == group_name(i));
        if k != i {
            if k < i {
                assert(group_name(k) != group_name(i));
            } else {
                assert(group_name(i) != group_name(i));
            }
        }
    }
    let n = (i + 1) % (GROUP_COUNT as int);
    assert(group_position(group_name(n)) == Some(n)) by {
        let k = choose|k: int|
            0 <= k < GROUP_COUNT && group_name(k) == group_name(n) && forall|j: int| 0 <= j < k ==> group_name(j) != group_name(n);
        assert(0 <= n < GROUP_COUNT && group_name(n) == group_name(n));
        if k != n {
            if k < n {
                assert(group_name(k) != group_name(n));
            } else {
                assert(group_name(n) != group_name(n));
            }
        }
    }
}

/// The group names are pairwise distinct.
pub proof fn lemma_group_names_distinct()
    ensures
        forall|a: int, b: int| 0 <= a < b < GROUP_COUNT ==> group_name(a) != group_name(b),
{
    reveal_strlit("p1");
    reveal_strlit("p2");
    reveal_strlit("pm");
    reveal_strlit("pg");
    reveal_strlit("cm");
    reveal_strlit("p4");
    reveal_strlit("p4g");
    reveal_strlit("p6m");
    assert forall|a: int, b: int| 0 <= a < b < GROUP_COUNT implies group_name(a) != group_name(b) by {
        let x = group_name(a);
        let y = group_name(b);
        assert(x.len() != y.len() || x[0] != y[0] || x[1] != y[1] || x[2] != y[2]);
    }
}

} // verus!
