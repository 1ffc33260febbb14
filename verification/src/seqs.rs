//! Multiplicity of a value in a sequence, and how the sibling-list edits
//! (push, insert, remove, update) change it. The tree's central invariant
//! counts how often a node id occurs in a sibling list, so every structural
//! operation is proved through these lemmas.

use vstd::prelude::*;

verus! {

/// How many positions of `s` hold `x`.
pub open spec fn count(s: Seq<usize>, x: usize) -> nat
    decreases s.len(),
{
    if s.len() == 0 {
        0
    } else {
        count(s.drop_last(), x) + if s.last() == x {
            1nat
        } else {
            0nat
        }
    }
}

/// The first position of `x` in `s`; meaningful only when `x` occurs.
pub open spec fn idx_of(s: Seq<usize>, x: usize) -> int {
    choose|i: int| 0 <= i < s.len() && s[i] == x
}

pub proof fn lemma_count_contains(s: Seq<usize>, x: usize)
    ensures
        count(s, x) > 0 <==> s.contains(x),
    decreases s.len(),
{
    if s.len() > 0 {
        lemma_count_contains(s.drop_last(), x);
        if s.last() != x && s.contains(x) && !s.drop_last().contains(x) {
            let i = choose|i: int| 0 <= i < s.len() && s[i] == x;
            assert(i < s.len() - 1 ==> s.drop_last()[i] == x);
        }
        if s.drop_last().contains(x) {
            let i = choose|i: int| 0 <= i < s.drop_last().len() && s.drop_last()[i] == x;
            assert(s[i] == x);
        }
    }
}

pub proof fn lemma_count_push(s: Seq<usize>, v: usize, x: usize)
    ensures
        count(s.push(v), x) == count(s, x) + if v == x {
            1nat
        } else {
            0nat
        },
{
    assert(s.push(v).drop_last() =~= s);
}

pub proof fn lemma_count_insert(s: Seq<usize>, i: int, v: usize, x: usize)
    requires
        0 <= i <= s.len(),
    ensures
        count(s.insert(i, v), x) == count(s, x) + if v == x {
            1nat
        } else {
            0nat
        },
    decreases s.len(),
{
    if i == s.len() {
        assert(s.insert(i, v) =~= s.push(v));
        lemma_count_push(s, v, x);
    } else {
        assert(s.insert(i, v).drop_last() =~= s.drop_last().insert(i, v));
        assert(s.insert(i, v).last() == s.last());
        lemma_count_insert(s.drop_last(), i, v, x);
    }
}

pub proof fn lemma_count_remove(s: Seq<usize>, i: int, x: usize)
    requires
        0 <= i < s.len(),
    ensures
        count(s.remove(i), x) == count(s, x) - if s[i] == x {
            1nat
        } else {
            0nat
        },
    decreases s.len(),
{
    if i == s.len() - 1 {
        assert(s.remove(i) =~= s.drop_last());
    } else {
        assert(s.remove(i).drop_last() =~= s.drop_last().remove(i));
        assert(s.remove(i).last() == s.last());
        lemma_count_remove(s.drop_last(), i, x);
    }
}

pub proof fn lemma_count_update(s: Seq<usize>, i: int, v: usize, x: usize)
    requires
        0 <= i < s.len(),
    ensures
        count(s.update(i, v), x) == count(s, x) - (if s[i] == x {
            1nat
        } else {
            0nat
        }) + (if v == x {
            1nat
        } else {
            0nat
        }),
{
    assert(s.update(i, v) =~= s.remove(i).insert(i, v));
    lemma_count_remove(s, i, x);
    lemma_count_insert(s.remove(i), i, v, x);
}

/// Swapping two positions of a sequence preserves every count.
pub proof fn lemma_count_swap(s: Seq<usize>, i: int, j: int, x: usize)
    requires
        0 <= i < s.len(),
        0 <= j < s.len(),
    ensures
        count(s.update(i, s[j]).update(j, s[i]), x) == count(s, x),
{
    lemma_count_update(s, i, s[j], x);
    if i == j {
        lemma_count_update(s.update(i, s[j]), j, s[i], x);
    } else {
        assert(s.update(i, s[j])[j] == s[j]);
        lemma_count_update(s.update(i, s[j]), j, s[i], x);
    }
}

/// A sequence with two distinct positions holding `x` counts `x` at least twice.
pub proof fn lemma_count_two_positions(s: Seq<usize>, i: int, j: int, x: usize)
    requires
        0 <= i < s.len(),
        0 <= j < s.len(),
        i != j,
        s[i] == x,
        s[j] == x,
    ensures
        count(s, x) >= 2,
{
    lemma_count_remove(s, j, x);
    let t = s.remove(j);
    let i2 = if i < j {
        i
    } else {
        i - 1
    };
    assert(t[i2] == x);
    lemma_count_contains(t, x);
    assert(t.contains(x));
}

/// When `x` occurs exactly once, any position holding `x` is `idx_of`.
pub proof fn lemma_count_one_index(s: Seq<usize>, i: int, x: usize)
    requires
        count(s, x) == 1,
        0 <= i < s.len(),
        s[i] == x,
    ensures
        idx_of(s, x) == i,
        0 <= idx_of(s, x) < s.len(),
        s[idx_of(s, x)] == x,
{
    assert(0 <= i < s.len() && s[i] == x);
    let j = idx_of(s, x);
    if j != i {
        lemma_count_two_positions(s, i, j, x);
    }
}

/// Membership of a pushed sequence.
pub proof fn lemma_push_contains(s: Seq<usize>, v: usize, y: usize)
    ensures
        s.push(v).contains(y) <==> s.contains(y) || y == v,
{
    if s.push(v).contains(y) {
        let i = choose|i: int| 0 <= i < s.push(v).len() && s.push(v)[i] == y;
        if i < s.len() {
            assert(s[i] == y);
        }
    }
    if s.contains(y) {
        let i = choose|i: int| 0 <= i < s.len() && s[i] == y;
        assert(s.push(v)[i] == y);
    }
    assert(s.push(v)[s.len() as int] == v);
}

/// Pushing a fresh value keeps a sequence duplicate-free.
pub proof fn lemma_push_no_dup(s: Seq<usize>, v: usize)
    requires
        s.no_duplicates(),
        !s.contains(v),
    ensures
        s.push(v).no_duplicates(),
{
    let t = s.push(v);
    assert forall|i: int, j: int|
        0 <= i < t.len() && 0 <= j < t.len() && i != j implies t[i] != t[j] by {
        if i < s.len() && j < s.len() {
        } else if j == s.len() && i < s.len() {
            if t[i] == v {
                assert(s[i] == v);
            }
        } else if i == s.len() && j < s.len() {
            if t[j] == v {
                assert(s[j] == v);
            }
        }
    }
}

/// When `x` occurs, `idx_of` names a position holding `x`.
pub proof fn lemma_idx_of_valid(s: Seq<usize>, x: usize)
    requires
        s.contains(x),
    ensures
        0 <= idx_of(s, x) < s.len(),
        s[idx_of(s, x)] == x,
{
    let i = choose|i: int| 0 <= i < s.len() && s[i] == x;
    assert(0 <= i < s.len() && s[i] == x);
}

/// Finds the first position of `x` in `v`, if any.
pub(crate) fn find_index(v: &Vec<usize>, x: usize) -> (r: Option<usize>)
    ensures
        v@.len() <= usize::MAX,
        match r {
            Some(i) => i < v@.len() && v@[i as int] == x,
            None => !v@.contains(x),
        },
{
    proof {
        assert(v@.len() == v.len());
    }
    let mut i: usize = 0;
    while i < v.len()
        invariant
            i <= v@.len(),
            forall|j: int| 0 <= j < i ==> v@[j] != x,
        decreases v@.len() - i,
    {
        if v[i] == x {
            return Some(i);
        }
        i = i + 1;
    }
    None
}

/// Removes the element at the first position of `x`; the caller guarantees
/// that `x` occurs.
pub(crate) fn remove_value(v: &mut Vec<usize>, x: usize) -> (i: usize)
    requires
        old(v)@.contains(x),
    ensures
        i < old(v)@.len(),
        old(v)@[i as int] == x,
        final(v)@ == old(v)@.remove(i as int),
{
    let r = find_index(v, x);
    match r {
        Some(i) => {
            v.remove(i);
            i
        },
        None => {
            proof {
                assert(false);
            }
            0
        },
    }
}

} // verus!
