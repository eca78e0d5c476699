//! How evenly a Euclidean rhythm spreads its onsets.
//!
//! Round the cycle, the rests between one onset and the next number
//! `(steps - pulses) / pulses`, rounded down, or one more: no two gaps differ
//! by more than one rest. Where the pulses divide the steps, all gaps are the
//! same.

use crate::math::rhythm::{
    count_at, depth, descent, divisor_at, euclidean_rhythm, lemma_depth,
    lemma_euclidean_rhythm, lemma_first_onset_unique, lemma_raw_rhythm, lemma_remainder_shrinks,
    lemma_repeat_len, lemma_rotate, raw_rhythm, remainder_at, repeat, rotate, valid_rhythm, word,
};
use vstd::arithmetic::div_mod::{
    lemma_add_mod_noop, lemma_div_multiples_vanish, lemma_fundamental_div_mod, lemma_mod_bound,
    lemma_mod_mod, lemma_mod_multiples_basic, lemma_mod_multiples_vanish, lemma_small_mod,
};
use vstd::prelude::*;

verus! {

/// There is an onset among the `gap + 2` positions from `from` on.
pub open spec fn window_has_onset(pattern: Seq<bool>, from: int, gap: int) -> bool {
    exists|at: int| from <= at < from + gap + 2 && #[trigger] pattern[at]
}

/// Onsets lie `gap` or `gap + 1` rests apart: an onset is followed by at
/// least `gap` rests, and no stretch of `gap + 2` positions is without an
/// onset.
pub open spec fn evenly_spaced(pattern: Seq<bool>, gap: int) -> bool {
    &&& forall|i: int, j: int|
        0 <= i < j < pattern.len() && j <= i + gap && #[trigger] pattern[i] ==> !#[trigger] pattern[j]
    &&& forall|from: int|
        0 <= from && from + gap + 2 <= pattern.len() ==> #[trigger] window_has_onset(
            pattern,
            from,
            gap,
        )
}

/// The least number of rests between two onsets of a rhythm.
pub open spec fn least_gap(steps: nat, pulses: nat) -> int {
    (steps - pulses) / (pulses as int)
}

/// An evenly spaced word that can be set behind another: it starts with
/// `gap` rests and an onset, and ends on an onset or one rest after it.
spec fn shaped(w: Seq<bool>, gap: int) -> bool {
    &&& 0 <= gap < w.len()
    &&& forall|m: int| 0 <= m < gap ==> !#[trigger] w[m]
    &&& w[gap]
    &&& (w.last() || (w.len() >= 2 && w[w.len() - 2]))
    &&& evenly_spaced(w, gap)
}

proof fn lemma_shaped_concat(u: Seq<bool>, v: Seq<bool>, gap: int)
    requires
        shaped(u, gap),
        shaped(v, gap),
    ensures
        shaped(u + v, gap),
        (u + v).last() == v.last(),
{
    let w = u + v;
    let ulen = u.len() as int;
    assert forall|i: int, j: int|
        0 <= i < j < w.len() && j <= i + gap && #[trigger] w[i] implies !#[trigger] w[j] by {
        if j < ulen {
            assert(u[i]);
            assert(!u[j]);
        } else if i >= ulen {
            assert(v[i - ulen]);
            assert(!v[j - ulen]);
        } else {
            assert(!v[j - ulen]);
        }
    }
    assert forall|from: int| 0 <= from && from + gap + 2 <= w.len() implies #[trigger] window_has_onset(
        w,
        from,
        gap,
    ) by {
        if from + gap + 2 <= ulen {
            assert(window_has_onset(u, from, gap));
            let at = choose|at: int| from <= at < from + gap + 2 && #[trigger] u[at];
            assert(w[at]);
        } else if from >= ulen {
            assert(window_has_onset(v, from - ulen, gap));
            let at = choose|at: int| from - ulen <= at < from - ulen + gap + 2 && #[trigger] v[at];
            assert(w[at + ulen]);
        } else {
            let end = if u.last() {
                ulen - 1
            } else {
                ulen - 2
            };
            if from <= end {
                assert(w[end]);
            } else {
                assert(w[ulen + gap] == v[gap]);
                assert(w[ulen + gap]);
            }
        }
    }
    assert forall|m: int| 0 <= m < gap implies !#[trigger] w[m] by {
        assert(!u[m]);
    }
    assert(w[gap] == u[gap]);
    if !v.last() {
        assert(w[w.len() - 2] == v[v.len() - 2]);
    }
}

proof fn lemma_shaped_rest(u: Seq<bool>, gap: int)
    requires
        shaped(u, gap),
        u.last(),
    ensures
        shaped(u + seq![false], gap),
{
    let w = u + seq![false];
    let ulen = u.len() as int;
    assert forall|i: int, j: int|
        0 <= i < j < w.len() && j <= i + gap && #[trigger] w[i] implies !#[trigger] w[j] by {
        if j < ulen {
            assert(u[i]);
            assert(!u[j]);
        }
    }
    assert forall|from: int| 0 <= from && from + gap + 2 <= w.len() implies #[trigger] window_has_onset(
        w,
        from,
        gap,
    ) by {
        if from + gap + 2 <= ulen {
            assert(window_has_onset(u, from, gap));
            let at = choose|at: int| from <= at < from + gap + 2 && #[trigger] u[at];
            assert(w[at]);
        } else {
            assert(w[ulen - 1]);
        }
    }
    assert forall|m: int| 0 <= m < gap implies !#[trigger] w[m] by {
        assert(!u[m]);
    }
    assert(w[gap] == u[gap]);
    assert(w[w.len() - 2] == u.last());
}

proof fn lemma_shaped_repeat(u: Seq<bool>, count: nat, gap: int)
    requires
        shaped(u, gap),
        count >= 1,
    ensures
        shaped(repeat(u, count), gap),
        repeat(u, count).last() == u.last(),
    decreases count,
{
    if count == 1 {
        assert(repeat(u, 0) =~= Seq::<bool>::empty());
        assert(repeat(u, 1) =~= u);
    } else {
        lemma_shaped_repeat(u, (count - 1) as nat, gap);
        lemma_shaped_concat(repeat(u, (count - 1) as nat), u, gap);
    }
}

proof fn lemma_rests(count: nat)
    ensures
        repeat(seq![false], count).len() == count,
        forall|m: int| 0 <= m < count ==> !#[trigger] repeat(seq![false], count)[m],
    decreases count,
{
    if count > 0 {
        lemma_rests((count - 1) as nat);
    }
}

/// From the first level on, every word holds the word one level down at
/// least once.
proof fn lemma_count_positive(steps: nat, pulses: nat, level: nat)
    requires
        valid_rhythm(steps, pulses),
        1 <= level <= depth(steps, pulses),
    ensures
        count_at(steps, pulses, level) >= 1,
{
    lemma_depth(steps, pulses);
    let below = (level - 1) as nat;
    let d = divisor_at(steps, pulses, level) as int;
    let r = remainder_at(steps, pulses, level) as int;
    assert(remainder_at(steps, pulses, below) >= 1);
    assert(descent(steps, pulses, level).0 == descent(steps, pulses, below).1);
    assert(d == remainder_at(steps, pulses, below));
    if level < depth(steps, pulses) {
        assert(r > 1);
        lemma_remainder_shrinks(steps, pulses, below);
        assert(d > r);
        vstd::arithmetic::div_mod::lemma_fundamental_div_mod(d, r);
        vstd::arithmetic::div_mod::lemma_mod_bound(d, r);
        assert(d / r >= 1) by (nonlinear_arith)
            requires
                d == r * (d / r) + d % r,
                0 <= d % r < r,
                d > r,
                r > 0,
        ;
    }
}

/// Every word of the descent is evenly spaced, ready to be set behind
/// another.
proof fn lemma_word_shaped(steps: nat, pulses: nat, level: nat)
    requires
        valid_rhythm(steps, pulses),
        level <= depth(steps, pulses),
    ensures
        shaped(word(steps, pulses, level as int), least_gap(steps, pulses)),
        level == 0 ==> word(steps, pulses, level as int).last(),
    decreases level,
{
    lemma_depth(steps, pulses);
    let gap = least_gap(steps, pulses);
    let count = count_at(steps, pulses, level);
    let r = remainder_at(steps, pulses, level);
    let whole = word(steps, pulses, level as int);
    if level == 0 {
        assert(word(steps, pulses, -1) =~= seq![false]);
        assert(word(steps, pulses, -2) =~= seq![true]);
        lemma_rests(count);
        assert(count == gap);
        assert(whole =~= repeat(seq![false], count) + seq![true]);
    } else {
        let below = word(steps, pulses, level - 1);
        lemma_word_shaped(steps, pulses, (level - 1) as nat);
        lemma_count_positive(steps, pulses, level);
        lemma_shaped_repeat(below, count, gap);
        if r == 0 {
            assert(whole =~= repeat(below, count));
        } else if level == 1 {
            assert(word(steps, pulses, -1) =~= seq![false]);
            lemma_shaped_rest(repeat(below, count), gap);
        } else {
            lemma_word_shaped(steps, pulses, (level - 2) as nat);
            lemma_shaped_concat(repeat(below, count), word(steps, pulses, level - 2), gap);
        }
    }
}

/// Round the cycle of a Euclidean rhythm, an onset is followed by
/// `least_gap` rests or by one more. The cycle is written out twice, so that
/// every stretch that runs over the end is there in one piece.
pub proof fn lemma_rhythm_is_even(steps: nat, pulses: nat)
    requires
        valid_rhythm(steps, pulses),
    ensures
        evenly_spaced(
            euclidean_rhythm(steps, pulses) + euclidean_rhythm(steps, pulses),
            least_gap(steps, pulses),
        ),
{
    let gap = least_gap(steps, pulses);
    let raw = raw_rhythm(steps, pulses);
    let turned = euclidean_rhythm(steps, pulses);
    let twice = turned + turned;
    lemma_word_shaped(steps, pulses, depth(steps, pulses));
    lemma_raw_rhythm(steps, pulses);
    lemma_euclidean_rhythm(steps, pulses);
    lemma_first_onset_unique(raw, gap);
    assert(turned == rotate(raw, gap));
    lemma_shaped_concat(raw, raw, gap);
    lemma_shaped_concat(raw + raw, raw, gap);
    let thrice = raw + raw + raw;
    let len = raw.len() as int;
    assert forall|k: int| 0 <= k < 2 * len implies twice[k] == thrice[k + gap] by {}
    assert forall|i: int, j: int|
        0 <= i < j < twice.len() && j <= i + gap && #[trigger] twice[i] implies !#[trigger] twice[j] by {
        assert(thrice[i + gap]);
        assert(!thrice[j + gap]);
    }
    assert forall|from: int| 0 <= from && from + gap + 2 <= twice.len() implies #[trigger] window_has_onset(
        twice,
        from,
        gap,
    ) by {
        assert(window_has_onset(thrice, from + gap, gap));
        let at = choose|at: int| from + gap <= at < from + gap + gap + 2 && #[trigger] thrice[at];
        assert(twice[at - gap]);
    }
}

/// A place in a repeated word holds what the word holds at that place taken
/// modulo the length of the word.
proof fn lemma_repeat_index(unit: Seq<bool>, count: nat, at: int)
    requires
        unit.len() > 0,
        0 <= at < repeat(unit, count).len(),
    ensures
        0 <= at % (unit.len() as int) < unit.len(),
        repeat(unit, count)[at] == unit[at % (unit.len() as int)],
    decreases count,
{
    let len = unit.len() as int;
    lemma_mod_bound(at, len);
    if count > 0 {
        let before = repeat(unit, (count - 1) as nat);
        lemma_repeat_len(unit, (count - 1) as nat);
        if at < before.len() {
            lemma_repeat_index(unit, (count - 1) as nat, at);
        } else {
            let inner = at - before.len();
            lemma_repeat_len(unit, count);
            assert(count * len == (count - 1) * len + len) by (nonlinear_arith);
            assert(before.len() == len * (count - 1)) by (nonlinear_arith)
                requires
                    before.len() == (count - 1) * len,
            ;
            lemma_mod_multiples_vanish(count - 1, inner, len);
            lemma_small_mod(inner as nat, len as nat);
        }
    }
}

/// Where the pulses divide the steps, the rhythm is the plain beat: an onset
/// at every place that is a multiple of `steps / pulses`, and nowhere else.
pub proof fn lemma_divisible_rhythm(steps: nat, pulses: nat)
    requires
        valid_rhythm(steps, pulses),
        steps % pulses == 0,
    ensures
        forall|at: int|
            0 <= at < steps ==> #[trigger] euclidean_rhythm(steps, pulses)[at] == (at % (steps
                / pulses) as int == 0),
{
    let n = steps as int;
    let k = pulses as int;
    let q = n / k;
    let gap = q - 1;
    lemma_fundamental_div_mod(n, k);
    assert(q >= 1 && n == k * q) by (nonlinear_arith)
        requires
            n == k * q + 0,
            1 <= k <= n,
    ;
    assert(n - k == k * gap) by (nonlinear_arith)
        requires
            n == k * q,
            gap == q - 1,
    ;
    lemma_div_multiples_vanish(gap, k);
    assert(gap * k == k * gap) by (nonlinear_arith);
    lemma_mod_multiples_basic(gap, k);
    assert(least_gap(steps, pulses) == gap);
    assert(descent(steps, pulses, 0) == ((steps - pulses) as nat, pulses));
    assert(descent(steps, pulses, 1) == (pulses, 0nat));
    assert(depth(steps, pulses) == 1);
    assert(count_at(steps, pulses, 0) == gap);
    assert(count_at(steps, pulses, 1) == pulses);

    let beat = word(steps, pulses, 0);
    assert(word(steps, pulses, -1) =~= seq![false]);
    assert(word(steps, pulses, -2) =~= seq![true]);
    lemma_rests(gap as nat);
    assert(beat =~= repeat(seq![false], gap as nat) + seq![true]);
    assert(beat.len() == q);
    let raw = raw_rhythm(steps, pulses);
    assert(raw =~= repeat(beat, pulses));
    lemma_repeat_len(beat, pulses);
    lemma_raw_rhythm(steps, pulses);
    assert forall|m: int| 0 <= m < n implies #[trigger] raw[m] == (m % q == gap) by {
        lemma_repeat_index(beat, pulses, m);
    }
    lemma_small_mod(gap as nat, q as nat);
    assert(raw[gap]);
    assert forall|m: int| 0 <= m < gap implies !raw[m] by {
        lemma_small_mod(m as nat, q as nat);
    }
    lemma_first_onset_unique(raw, gap);
    lemma_rotate(raw, gap);
    let turned = euclidean_rhythm(steps, pulses);
    assert(turned == rotate(raw, gap));
    assert forall|at: int| 0 <= at < n implies #[trigger] turned[at] == (at % q == 0) by {
        let from = (at + gap) % n;
        lemma_mod_bound(at + gap, n);
        assert(turned[at] == raw[from]);
        assert(raw[from] == (from % q == gap));
        assert(q * k == n) by (nonlinear_arith)
            requires
                n == k * q,
        ;
        lemma_mod_mod(at + gap, q, k);
        assert(from % q == (at + gap) % q);
        lemma_add_mod_noop(at, gap, q);
        lemma_mod_bound(at, q);
        let r = at % q;
        if r == 0 {
        } else {
            lemma_mod_multiples_vanish(-1, r + gap, q);
            lemma_small_mod((r + gap - q) as nat, q as nat);
            assert(q * -1 + (r + gap) == r + gap - q) by (nonlinear_arith);
        }
    }
}

} // verus!
