//! The arithmetic of skew-binary spines.
//!
//! A list of `n` elements is stored as a short row of perfect binary trees.
//! Read front to back, the tree sizes are the non-zero digits of `n` written
//! in skew-binary: every size is one less than a power of two, the sizes grow
//! strictly from the second one on, and only the first two may be equal.
//! This module holds that invariant as a predicate on a sequence of sizes,
//! shows that the four ways in which a spine is rebuilt keep it, and derives
//! the logarithmic bound on the number of trees.

use vstd::arithmetic::power2::{lemma2_to64, lemma_pow2_unfold, pow2};
use vstd::prelude::*;

verus! {

/// `s` is the number of elements of a perfect binary tree: 1, 3, 7, 15, ...
pub open spec fn tree_size(s: nat) -> bool
    decreases s,
{
    s == 1 || (s >= 3 && s % 2 == 1 && tree_size(s / 2))
}

/// The sum of all sizes.
pub open spec fn total(sizes: Seq<nat>) -> nat
    decreases sizes.len(),
{
    if sizes.len() == 0 {
        0
    } else {
        sizes[0] + total(sizes.skip(1))
    }
}

/// The spine invariant: every size is a tree size, the first is at most the
/// second, and from the second on the sizes increase strictly.
pub open spec fn skew_digits(sizes: Seq<nat>) -> bool {
    &&& forall|i: int| 0 <= i < sizes.len() ==> tree_size(#[trigger] sizes[i])
    &&& sizes.len() >= 2 ==> sizes[0] <= sizes[1]
    &&& forall|i: int, j: int|
        1 <= i < j < sizes.len() ==> #[trigger] sizes[i] < #[trigger] sizes[j]
}

/// The number of binary digits of `n`: 0 for 0, and `k + 1` for `n` in
/// `[2^k, 2^(k+1))`.
pub open spec fn bit_length(n: nat) -> nat
    decreases n,
{
    if n == 0 {
        0
    } else {
        1 + bit_length(n / 2)
    }
}

/// `s` is `2^k - 1` for some `k >= 1`.
pub open spec fn pow2_minus_one(s: nat) -> bool {
    exists|k: nat| k >= 1 && s == #[trigger] pow2(k) - 1
}

proof fn lemma_tree_size_exponent(s: nat) -> (k: nat)
    requires
        tree_size(s),
    ensures
        k >= 1,
        s == pow2(k) - 1,
    decreases s,
{
    if s == 1 {
        lemma2_to64();
        1
    } else {
        let h = lemma_tree_size_exponent(s / 2);
        lemma_pow2_unfold(h + 1);
        h + 1
    }
}

proof fn lemma_pow2_tree_size(k: nat)
    requires
        k >= 1,
    ensures
        tree_size((pow2(k) - 1) as nat),
    decreases k,
{
    lemma_pow2_unfold(k);
    if k == 1 {
        lemma2_to64();
    } else {
        lemma_pow2_tree_size((k - 1) as nat);
    }
}

/// The tree sizes are the powers of two, less one, from `2^1 - 1` on.
pub proof fn lemma_tree_size_iff_pow2(s: nat)
    ensures
        tree_size(s) <==> pow2_minus_one(s),
{
    if tree_size(s) {
        let k = lemma_tree_size_exponent(s);
        assert(k >= 1 && s == pow2(k) - 1);
    }
    if pow2_minus_one(s) {
        let k = choose|k: nat| k >= 1 && s == #[trigger] pow2(k) - 1;
        lemma_pow2_tree_size(k);
    }
}

/// Between two different tree sizes there is room for a whole tree of the
/// smaller size and one element more.
pub proof fn lemma_tree_size_gap(a: nat, b: nat)
    requires
        tree_size(a),
        tree_size(b),
        a < b,
    ensures
        2 * a + 1 <= b,
    decreases b,
{
    if a != 1 {
        lemma_tree_size_gap(a / 2, b / 2);
    }
}

/// A fresh single-element tree may go in front of a spine that is empty,
/// holds one tree, or begins with two trees of different sizes.
pub proof fn lemma_push_keeps_skew(sizes: Seq<nat>)
    requires
        skew_digits(sizes),
        sizes.len() >= 2 ==> sizes[0] != sizes[1],
    ensures
        skew_digits(seq![1nat] + sizes),
{
}

/// Two leading trees of one size may be joined under a new root.
pub proof fn lemma_merge_keeps_skew(sizes: Seq<nat>)
    requires
        skew_digits(sizes),
        sizes.len() >= 2,
        sizes[0] == sizes[1],
    ensures
        skew_digits(seq![1 + sizes[0] + sizes[1]] + sizes.skip(2)),
{
    if sizes.len() >= 3 {
        lemma_tree_size_gap(sizes[1], sizes[2]);
    }
}

/// The first tree may be taken away.
pub proof fn lemma_drop_keeps_skew(sizes: Seq<nat>)
    requires
        skew_digits(sizes),
        sizes.len() >= 1,
    ensures
        skew_digits(sizes.skip(1)),
{
}

/// A leading tree with more than one element may be replaced by its two
/// halves.
pub proof fn lemma_split_keeps_skew(sizes: Seq<nat>)
    requires
        skew_digits(sizes),
        sizes.len() >= 1,
        sizes[0] != 1,
    ensures
        skew_digits(seq![sizes[0] / 2, sizes[0] / 2] + sizes.skip(1)),
{
}

/// The sum of a spine with one more size in front.
pub proof fn lemma_total_push(first: nat, rest: Seq<nat>)
    ensures
        total(seq![first] + rest) == first + total(rest),
{
    assert((seq![first] + rest).skip(1) =~= rest);
}

/// No size exceeds the sum.
pub proof fn lemma_total_bounds_each(sizes: Seq<nat>, i: int)
    requires
        0 <= i < sizes.len(),
    ensures
        sizes[i] <= total(sizes),
    decreases sizes.len(),
{
    if i > 0 {
        lemma_total_bounds_each(sizes.skip(1), i - 1);
    }
}

/// From the second size on, the size at position `i` is at least `2^i - 1`.
pub proof fn lemma_digit_grows(sizes: Seq<nat>, i: int)
    requires
        skew_digits(sizes),
        1 <= i < sizes.len(),
    ensures
        pow2(i as nat) <= sizes[i] + 1,
    decreases i,
{
    lemma_pow2_unfold(i as nat);
    if i == 1 {
        lemma2_to64();
    } else {
        lemma_digit_grows(sizes, i - 1);
        lemma_tree_size_gap(sizes[i - 1], sizes[i]);
    }
}

/// A number that reaches `2^k` has more than `k` binary digits.
pub proof fn lemma_bit_length_grows(n: nat, k: nat)
    requires
        pow2(k) <= n,
    ensures
        k < bit_length(n),
    decreases k,
{
    if k == 0 {
        lemma2_to64();
    } else {
        lemma_pow2_unfold(k);
        lemma_bit_length_grows(n / 2, (k - 1) as nat);
    }
}

/// A spine of `m >= 1` trees holds at least `2^(m-1) - 1` elements, so it
/// has no more trees than `n + 1` has binary digits, `n` being the number of
/// elements.
pub proof fn lemma_skew_length_bound(sizes: Seq<nat>)
    requires
        skew_digits(sizes),
    ensures
        sizes.len() >= 1 ==> pow2((sizes.len() - 1) as nat) <= total(sizes) + 1,
        sizes.len() <= bit_length(total(sizes) + 1),
{
    let m = sizes.len();
    if m == 1 {
        lemma2_to64();
    } else if m >= 2 {
        lemma_digit_grows(sizes, m - 1);
        lemma_total_bounds_each(sizes.skip(1), m - 2);
        lemma_bit_length_grows(total(sizes) + 1, (m - 1) as nat);
    }
}

/// The invariant read size by size: each is a power of two less one, none
/// is smaller than the one before it, and no three in a row are equal.
pub proof fn lemma_skew_digits_meaning(sizes: Seq<nat>)
    requires
        skew_digits(sizes),
    ensures
        forall|i: int| 0 <= i < sizes.len() ==> pow2_minus_one(#[trigger] sizes[i]),
        forall|i: int| 0 <= i && i + 1 < sizes.len() ==> #[trigger] sizes[i] <= sizes[i + 1],
        forall|i: int| 0 <= i && i + 2 < sizes.len() ==> #[trigger] sizes[i] < sizes[i + 2],
{
    assert forall|i: int| 0 <= i < sizes.len() implies pow2_minus_one(#[trigger] sizes[i]) by {
        lemma_tree_size_iff_pow2(sizes[i]);
    }
}

} // verus!
