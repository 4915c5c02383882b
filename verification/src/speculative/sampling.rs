//! Drawing a token from a distribution, given its running sums.
//!
//! Sums and draws are bit patterns of single-precision numbers.

use vstd::prelude::*;

use crate::float_bits;
use crate::float_bits::is_at_most;
use crate::float_bits::is_below;

verus! {

/// The first place whose running sum is at least `r`, or the list's length.
pub open spec fn reach_place(sums: Seq<u32>, r: u32, i: int) -> int
    decreases sums.len() - i,
{
    if i >= sums.len() || float_bits::at_most(r, sums[i]) {
        i
    } else {
        reach_place(sums, r, i + 1)
    }
}

/// The token that a draw falls on: the first whose running sum reaches it, or the last token
/// where rounding leaves the sums below it.
pub open spec fn token_of_draw(sums: Seq<u32>, r: u32) -> int {
    let p = reach_place(sums, r, 0);
    if p < sums.len() {
        p
    } else if sums.len() == 0 {
        0
    } else {
        sums.len() - 1
    }
}

/// CDF-based sampling: the token that the draw `r` falls on, given the running sums of a
/// distribution.
pub fn sample_from_distribution(sums: &[u32], r: u32) -> (t: usize)
    ensures
        t == token_of_draw(sums@, r),
{
    let mut i: usize = 0;
    while i < sums.len()
        invariant
            i <= sums@.len(),
            reach_place(sums@, r, 0) == reach_place(sums@, r, i as int),
        decreases sums@.len() - i,
    {
        if is_at_most(r, sums[i]) {
            return i;
        }
        i = i + 1;
    }
    if sums.len() == 0 {
        0
    } else {
        sums.len() - 1
    }
}

/// The first place whose running sum is above `r`, or the list's length.
pub open spec fn pass_place(sums: Seq<u32>, r: u32, i: int) -> int
    decreases sums.len() - i,
{
    if i >= sums.len() || float_bits::below(r, sums[i]) {
        i
    } else {
        pass_place(sums, r, i + 1)
    }
}

/// The token that a draw falls below: the first whose running sum is above it, or the last.
pub open spec fn token_below(sums: Seq<u32>, r: u32) -> int {
    let p = pass_place(sums, r, 0);
    if p < sums.len() {
        p
    } else {
        sums.len() - 1
    }
}

/// The token that a draw falls below: the first whose running sum is above it, or the last.
pub fn sample_token(sums: &[u32], r: u32) -> (t: usize)
    requires
        sums@.len() > 0,
    ensures
        t == token_below(sums@, r),
        t < sums@.len(),
{
    let mut i: usize = 0;
    while i < sums.len()
        invariant
            i <= sums@.len(),
            pass_place(sums@, r, 0) == pass_place(sums@, r, i as int),
        decreases sums@.len() - i,
    {
        if is_below(r, sums[i]) {
            return i;
        }
        i = i + 1;
    }
    sums.len() - 1
}

/// A draw from a distribution over tokens is one of its tokens.
pub proof fn law_draw_is_a_token(sums: Seq<u32>, r: u32)
    requires
        sums.len() > 0,
    ensures
        0 <= token_of_draw(sums, r) < sums.len(),
{
    lemma_reach_range(sums, r, 0);
}

/// The token that a draw falls below is one of the tokens, and none before it has a running sum
/// above the draw.
pub proof fn law_draw_falls_below_a_token(sums: Seq<u32>, r: u32)
    requires
        sums.len() > 0,
    ensures
        0 <= token_below(sums, r) < sums.len(),
        forall|j: int|
            0 <= j < token_below(sums, r) ==> !float_bits::below(r, #[trigger] sums[j]),
{
    lemma_pass_place(sums, r, 0);
}

/// Where some running sum is above the draw, that of the sampled token is, and it is the first.
/// Where none is, the last token is sampled.
pub proof fn law_sampled_token_covers_the_draw(sums: Seq<u32>, r: u32)
    requires
        sums.len() > 0,
    ensures
        (exists|j: int| 0 <= j < sums.len() && float_bits::below(r, #[trigger] sums[j]))
            ==> float_bits::below(r, sums[token_below(sums, r)]),
        forall|j: int|
            0 <= j < sums.len() && float_bits::below(r, #[trigger] sums[j]) ==> token_below(sums, r)
                <= j,
        (forall|j: int| 0 <= j < sums.len() ==> !float_bits::below(r, #[trigger] sums[j]))
            ==> token_below(sums, r) == sums.len() - 1,
{
    lemma_pass_place(sums, r, 0);
    lemma_pass_above(sums, r, 0);
}

proof fn lemma_pass_above(sums: Seq<u32>, r: u32, i: int)
    requires
        0 <= i <= sums.len(),
    ensures
        pass_place(sums, r, i) < sums.len() ==> float_bits::below(r, sums[pass_place(sums, r, i)]),
    decreases sums.len() - i,
{
    if i < sums.len() && !float_bits::below(r, sums[i]) {
        lemma_pass_above(sums, r, i + 1);
    }
}

/// Where some running sum reaches the draw, that of the drawn token does, and it is the first.
/// Where none does, the last token is drawn.
pub proof fn law_drawn_token_reaches_the_draw(sums: Seq<u32>, r: u32)
    requires
        sums.len() > 0,
    ensures
        (exists|j: int| 0 <= j < sums.len() && float_bits::at_most(r, #[trigger] sums[j]))
            ==> float_bits::at_most(r, sums[token_of_draw(sums, r)]),
        forall|j: int|
            0 <= j < sums.len() && float_bits::at_most(r, #[trigger] sums[j]) ==> token_of_draw(
                sums,
                r,
            ) <= j,
        (forall|j: int| 0 <= j < sums.len() ==> !float_bits::at_most(r, #[trigger] sums[j]))
            ==> token_of_draw(sums, r) == sums.len() - 1,
{
    lemma_reach_range(sums, r, 0);
    lemma_reach_above(sums, r, 0);
    assert forall|j: int|
        0 <= j < sums.len() && float_bits::at_most(r, #[trigger] sums[j]) implies token_of_draw(
        sums,
        r,
    ) <= j by {
        lemma_reach_first(sums, r, 0, j);
    }
}

proof fn lemma_reach_above(sums: Seq<u32>, r: u32, i: int)
    requires
        0 <= i <= sums.len(),
    ensures
        reach_place(sums, r, i) < sums.len() ==> float_bits::at_most(
            r,
            sums[reach_place(sums, r, i)],
        ),
    decreases sums.len() - i,
{
    if i < sums.len() && !float_bits::at_most(r, sums[i]) {
        lemma_reach_above(sums, r, i + 1);
    }
}

/// A higher draw never falls on an earlier token.
pub proof fn law_higher_draws_fall_later(sums: Seq<u32>, low: u32, high: u32)
    requires
        sums.len() > 0,
        float_bits::at_most(low, high),
    ensures
        token_below(sums, low) <= token_below(sums, high),
        token_of_draw(sums, low) <= token_of_draw(sums, high),
{
    law_sampled_token_covers_the_draw(sums, low);
    law_sampled_token_covers_the_draw(sums, high);
    law_drawn_token_reaches_the_draw(sums, low);
    law_drawn_token_reaches_the_draw(sums, high);
    law_draw_falls_below_a_token(sums, low);
    law_draw_falls_below_a_token(sums, high);
    law_draw_is_a_token(sums, low);
    law_draw_is_a_token(sums, high);
    let t = token_below(sums, high);
    if float_bits::below(high, sums[t]) {
        assert(float_bits::below(low, sums[t]));
    } else {
        assert forall|j: int| 0 <= j < sums.len() implies !float_bits::below(
            high,
            #[trigger] sums[j],
        ) by {}
    }
    let u = token_of_draw(sums, high);
    if float_bits::at_most(high, sums[u]) {
        assert(float_bits::at_most(low, sums[u]));
    } else {
        assert forall|j: int| 0 <= j < sums.len() implies !float_bits::at_most(
            high,
            #[trigger] sums[j],
        ) by {}
    }
}

proof fn lemma_pass_place(sums: Seq<u32>, r: u32, i: int)
    requires
        0 <= i <= sums.len(),
    ensures
        i <= pass_place(sums, r, i) <= sums.len(),
        forall|j: int|
            i <= j < pass_place(sums, r, i) ==> !float_bits::below(r, #[trigger] sums[j]),
    decreases sums.len() - i,
{
    if i < sums.len() && !float_bits::below(r, sums[i]) {
        lemma_pass_place(sums, r, i + 1);
    }
}

/// No token before the one drawn has a running sum that reaches the draw.
pub proof fn law_draw_is_the_first(sums: Seq<u32>, r: u32, j: int)
    requires
        0 <= j < token_of_draw(sums, r),
    ensures
        !float_bits::at_most(r, sums[j]),
{
    lemma_reach_first(sums, r, 0, j);
    lemma_reach_range(sums, r, 0);
}

proof fn lemma_reach_range(sums: Seq<u32>, r: u32, i: int)
    requires
        0 <= i <= sums.len(),
    ensures
        i <= reach_place(sums, r, i) <= sums.len(),
    decreases sums.len() - i,
{
    if i < sums.len() && !float_bits::at_most(r, sums[i]) {
        lemma_reach_range(sums, r, i + 1);
    }
}

proof fn lemma_reach_first(sums: Seq<u32>, r: u32, i: int, j: int)
    requires
        0 <= i <= sums.len(),
    ensures
        i <= j < reach_place(sums, r, i) ==> !float_bits::at_most(r, sums[j]),
    decreases sums.len() - i,
{
    if i < sums.len() && !float_bits::at_most(r, sums[i]) {
        lemma_reach_first(sums, r, i + 1, j);
    }
}

} // verus!
