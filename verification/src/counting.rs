//! Counting over boolean and byte sequences: the number of set bits in a
//! candidate slice, and the number of empty cells in a value array. These
//! spec functions and lemmas back every counter kept by the grid.

use vstd::prelude::*;

verus! {

/// The number of `true` entries in a boolean sequence.
pub open spec fn count_true(s: Seq<bool>) -> nat
    decreases s.len(),
{
    if s.len() == 0 {
        0
    } else {
        count_true(s.drop_last()) + if s.last() {
            1nat
        } else {
            0nat
        }
    }
}

pub proof fn lemma_count_true_le(s: Seq<bool>)
    ensures
        count_true(s) <= s.len(),
    decreases s.len(),
{
    if s.len() > 0 {
        lemma_count_true_le(s.drop_last());
    }
}

pub proof fn lemma_count_true_at(s: Seq<bool>, i: int)
    requires
        0 <= i < s.len(),
        s[i],
    ensures
        count_true(s) >= 1,
    decreases s.len(),
{
    if i < s.len() - 1 {
        lemma_count_true_at(s.drop_last(), i);
    }
}

/// A sequence with `true` at two distinct places has at least two set entries.
pub proof fn lemma_count_true_two(s: Seq<bool>, i: int, j: int)
    requires
        0 <= i < j < s.len(),
        s[i],
        s[j],
    ensures
        count_true(s) >= 2,
    decreases s.len(),
{
    if j == s.len() - 1 {
        lemma_count_true_at(s.drop_last(), i);
    } else {
        lemma_count_true_two(s.drop_last(), i, j);
    }
}

/// A sequence whose entries are all `false` has no set entries.
pub proof fn lemma_count_true_none(s: Seq<bool>)
    requires
        forall|i: int| 0 <= i < s.len() ==> !s[i],
    ensures
        count_true(s) == 0,
    decreases s.len(),
{
    if s.len() > 0 {
        lemma_count_true_none(s.drop_last());
    }
}

/// How one update changes the count of set entries.
pub proof fn lemma_count_true_update(s: Seq<bool>, i: int, b: bool)
    requires
        0 <= i < s.len(),
    ensures
        count_true(s.update(i, b)) == count_true(s) - (if s[i] {
            1int
        } else {
            0int
        }) + (if b {
            1int
        } else {
            0int
        }),
    decreases s.len(),
{
    if i == s.len() - 1 {
        assert(s.update(i, b).drop_last() =~= s.drop_last());
    } else {
        assert(s.update(i, b).drop_last() =~= s.drop_last().update(i, b));
        lemma_count_true_update(s.drop_last(), i, b);
    }
}

/// The count of set entries in a constant sequence.
pub proof fn lemma_count_true_const(n: nat, b: bool)
    ensures
        count_true(Seq::new(n, |i: int| b)) == if b {
            n
        } else {
            0
        },
    decreases n,
{
    let s = Seq::new(n, |i: int| b);
    if n > 0 {
        lemma_count_true_const((n - 1) as nat, b);
        assert(s.drop_last() =~= Seq::new((n - 1) as nat, |i: int| b));
    }
}

/// A positive count means some entry is set.
pub proof fn lemma_count_true_pos(s: Seq<bool>)
    requires
        count_true(s) >= 1,
    ensures
        exists|i: int| 0 <= i < s.len() && s[i],
    decreases s.len(),
{
    if s.len() > 0 {
        if s.last() {
            assert(s[s.len() - 1]);
        } else {
            lemma_count_true_pos(s.drop_last());
            let i = choose|i: int| 0 <= i < s.drop_last().len() && s.drop_last()[i];
            assert(s[i]);
        }
    }
}

/// The number of entries equal to `v` among the first `n` entries of `s`.
pub open spec fn count_eq(s: Seq<u8>, v: u8, n: int) -> nat
    decreases n,
{
    if n <= 0 {
        0
    } else {
        count_eq(s, v, n - 1) + if s[n - 1] == v {
            1nat
        } else {
            0nat
        }
    }
}

pub proof fn lemma_count_eq_le(s: Seq<u8>, v: u8, n: int)
    requires
        0 <= n <= s.len(),
    ensures
        count_eq(s, v, n) <= n,
    decreases n,
{
    if n > 0 {
        lemma_count_eq_le(s, v, n - 1);
    }
}

/// `count_eq` ignores entries at or beyond `n`, so it is stable under
/// updates there, and under any update that keeps the entry's agreement
/// with `v` unchanged.
pub proof fn lemma_count_eq_update(s: Seq<u8>, v: u8, n: int, i: int, x: u8)
    requires
        0 <= i < s.len(),
        n <= s.len(),
    ensures
        i >= n ==> count_eq(s.update(i, x), v, n) == count_eq(s, v, n),
        i < n ==> count_eq(s.update(i, x), v, n) == count_eq(s, v, n) - (if s[i] == v {
            1int
        } else {
            0int
        }) + (if x == v {
            1int
        } else {
            0int
        }),
    decreases n,
{
    if n > 0 {
        lemma_count_eq_update(s, v, n - 1, i, x);
    }
}

/// An entry below `n` that differs from `v` keeps the count below `n`.
pub proof fn lemma_count_eq_lt(s: Seq<u8>, v: u8, n: int, i: int)
    requires
        n <= s.len(),
        0 <= i < n,
        s[i] != v,
    ensures
        count_eq(s, v, n) < n,
    decreases n,
{
    lemma_count_eq_le(s, v, n - 1);
    if i < n - 1 {
        lemma_count_eq_lt(s, v, n - 1, i);
    }
}

/// When the first `n` entries all equal `v`, the count is `n`.
pub proof fn lemma_count_eq_all(s: Seq<u8>, v: u8, n: int)
    requires
        n <= s.len(),
        forall|i: int| 0 <= i < n ==> s[i] == v,
    ensures
        n >= 0 ==> count_eq(s, v, n) == n,
    decreases n,
{
    if n > 0 {
        lemma_count_eq_all(s, v, n - 1);
    }
}

/// When none of the first `n` entries equals `v`, the count is zero.
pub proof fn lemma_count_eq_none(s: Seq<u8>, v: u8, n: int)
    requires
        n <= s.len(),
        forall|i: int| 0 <= i < n ==> s[i] != v,
    ensures
        count_eq(s, v, n) == 0,
    decreases n,
{
    if n > 0 {
        lemma_count_eq_none(s, v, n - 1);
    }
}

/// An entry equal to `v` below `n` makes the count positive.
pub proof fn lemma_count_eq_at(s: Seq<u8>, v: u8, n: int, i: int)
    requires
        n <= s.len(),
        0 <= i < n,
        s[i] == v,
    ensures
        count_eq(s, v, n) >= 1,
    decreases n,
{
    if i < n - 1 {
        lemma_count_eq_at(s, v, n - 1, i);
    }
}

/// A positive count means some entry below `n` equals `v`.
pub proof fn lemma_count_eq_pos(s: Seq<u8>, v: u8, n: int)
    requires
        n <= s.len(),
        count_eq(s, v, n) >= 1,
    ensures
        exists|i: int| 0 <= i < n && s[i] == v,
    decreases n,
{
    if n > 0 {
        if s[n - 1] == v {
            assert(s[n - 1] == v);
        } else {
            lemma_count_eq_pos(s, v, n - 1);
        }
    }
}

/// Two sequences that agree on their first `n` entries have the same count.
pub proof fn lemma_count_eq_agree(s1: Seq<u8>, s2: Seq<u8>, v: u8, n: int)
    requires
        n <= s1.len(),
        n <= s2.len(),
        forall|i: int| 0 <= i < n ==> s1[i] == s2[i],
    ensures
        count_eq(s1, v, n) == count_eq(s2, v, n),
    decreases n,
{
    if n > 0 {
        lemma_count_eq_agree(s1, s2, v, n - 1);
    }
}

} // verus!
