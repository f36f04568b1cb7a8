//! Small helpers over names and name lists.

use vstd::prelude::*;

verus! {

/// Whether `name` occurs in `list`, comparing by character content.
pub open spec fn name_in(list: Seq<String>, name: Seq<char>) -> bool {
    exists|i: int| 0 <= i < list.len() && list[i]@ == name
}

/// True iff some entry of `list` has the same characters as `name`.
pub fn contains_name(list: &Vec<String>, name: &String) -> (r: bool)
    ensures
        r == name_in(list@, name@),
{
    let mut i: usize = 0;
    while i < list.len()
        invariant
            0 <= i <= list@.len(),
            forall|j: int| 0 <= j < i ==> list@[j]@ != name@,
        decreases list@.len() - i,
    {
        if list[i].eq(name) {
            return true;
        }
        i += 1;
    }
    false
}

/// Whether two optional names agree: both absent, or both present with
/// the same characters.
pub open spec fn opt_name_eq(a: Option<String>, b: Option<String>) -> bool {
    match (a, b) {
        (Option::None, Option::None) => true,
        (Option::Some(x), Option::Some(y)) => x@ == y@,
        _ => false,
    }
}

pub fn opt_str_eq(a: &Option<String>, b: &Option<String>) -> (r: bool)
    ensures
        r == opt_name_eq(*a, *b),
{
    match (a, b) {
        (Option::None, Option::None) => true,
        (Option::Some(x), Option::Some(y)) => x.eq(y),
        _ => false,
    }
}

/// Number of `false` entries among the first `n` slots of a mark array:
/// the measure that shrinks as a worklist pass marks slots done.
pub open spec fn count_false(s: Seq<bool>, n: int) -> nat
    decreases n,
{
    if n <= 0 {
        0
    } else {
        count_false(s, n - 1) + (if !s[n - 1] {
            1nat
        } else {
            0nat
        })
    }
}

/// A prefix that contains an unmarked slot has a positive count.
pub proof fn lemma_count_false_pos(s: Seq<bool>, idx: int, n: int)
    requires
        0 <= idx < n <= s.len(),
        !s[idx],
    ensures
        count_false(s, n) >= 1,
    decreases n,
{
    if idx < n - 1 {
        lemma_count_false_pos(s, idx, n - 1);
    }
}

/// Marking one unmarked slot lowers the count of every enclosing prefix
/// by exactly one.
pub proof fn lemma_count_false_update(s: Seq<bool>, idx: int, n: int)
    requires
        0 <= idx < s.len(),
        !s[idx],
        0 <= n <= s.len(),
    ensures
        count_false(s.update(idx, true), n) == if idx < n {
            (count_false(s, n) - 1) as nat
        } else {
            count_false(s, n)
        },
    decreases n,
{
    if n > 0 {
        lemma_count_false_update(s, idx, n - 1);
        if idx < n - 1 {
            lemma_count_false_pos(s, idx, n - 1);
        }
    }
}

} // verus!
