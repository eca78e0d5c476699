//! The mathematical model of a Euclidean rhythm.
//!
//! Bjorklund's construction runs Euclid's algorithm on the rests and the
//! pulses, and reads the quotients back as a recipe for nesting words: the
//! word of a level is the word one level down, taken as often as the quotient
//! says, followed by the word two levels down whenever a remainder is left.
//! The rhythm is the top word, turned so that it starts on an onset.

use vstd::prelude::*;

verus! {

/// A rhythm needs at least one pulse and no more pulses than steps.
pub open spec fn valid_rhythm(steps: nat, pulses: nat) -> bool {
    1 <= pulses <= steps
}

/// `count` copies of `unit`, one after another.
pub open spec fn repeat(unit: Seq<bool>, count: nat) -> Seq<bool>
    decreases count,
{
    if count == 0 {
        Seq::empty()
    } else {
        repeat(unit, (count - 1) as nat) + unit
    }
}

/// How many onsets a pattern holds.
pub open spec fn onsets(pattern: Seq<bool>) -> nat
    decreases pattern.len(),
{
    if pattern.len() == 0 {
        0
    } else {
        onsets(pattern.drop_last()) + if pattern.last() {
            1nat
        } else {
            0nat
        }
    }
}

/// Divisor and remainder at `level` of Euclid's descent, which starts from
/// the rests and the pulses.
pub open spec fn descent(steps: nat, pulses: nat, level: nat) -> (nat, nat)
    decreases level,
{
    if level == 0 {
        ((steps - pulses) as nat, pulses)
    } else {
        let (divisor, remainder) = descent(steps, pulses, (level - 1) as nat);
        (
            remainder,
            if remainder == 0 {
                0
            } else {
                (divisor % remainder) as nat
            },
        )
    }
}

pub open spec fn divisor_at(steps: nat, pulses: nat, level: nat) -> nat {
    descent(steps, pulses, level).0
}

pub open spec fn remainder_at(steps: nat, pulses: nat, level: nat) -> nat {
    descent(steps, pulses, level).1
}

/// The first level above `level` whose remainder is at most one.
pub open spec fn depth_from(steps: nat, pulses: nat, level: nat) -> nat
    decreases remainder_at(steps, pulses, level),
    via depth_from_terminates
{
    if remainder_at(steps, pulses, level + 1) <= 1 {
        level + 1
    } else {
        depth_from(steps, pulses, level + 1)
    }
}

#[via_fn]
proof fn depth_from_terminates(steps: nat, pulses: nat, level: nat) {
    if remainder_at(steps, pulses, level + 1) > 1 {
        lemma_remainder_shrinks(steps, pulses, level);
    }
}

/// The level at which the descent stops: the top of the nesting.
pub open spec fn depth(steps: nat, pulses: nat) -> nat {
    depth_from(steps, pulses, 0)
}

/// How often the word one level down is taken at `level`.
pub open spec fn count_at(steps: nat, pulses: nat, level: nat) -> nat {
    if level < depth(steps, pulses) {
        divisor_at(steps, pulses, level) / remainder_at(steps, pulses, level)
    } else {
        divisor_at(steps, pulses, level)
    }
}

/// The word of a level. Below the descent lie the two letters: a rest at
/// level -1 and an onset at level -2.
pub open spec fn word(steps: nat, pulses: nat, level: int) -> Seq<bool>
    decreases level + 2,
{
    if level <= -2 {
        seq![true]
    } else if level == -1 {
        seq![false]
    } else {
        repeat(word(steps, pulses, level - 1), count_at(steps, pulses, level as nat)) + if remainder_at(
            steps,
            pulses,
            level as nat,
        ) != 0 {
            word(steps, pulses, level - 2)
        } else {
            Seq::empty()
        }
    }
}

/// Index of the first onset, or the length where there is none.
pub open spec fn first_onset(pattern: Seq<bool>) -> nat
    decreases pattern.len(),
{
    if pattern.len() == 0 || pattern[0] {
        0
    } else {
        1 + first_onset(pattern.drop_first())
    }
}

/// The pattern read from position `start` on, wrapping round at the end.
pub open spec fn rotate(pattern: Seq<bool>, start: int) -> Seq<bool> {
    pattern.subrange(start, pattern.len() as int) + pattern.subrange(0, start)
}

/// The word that the nesting yields before it is turned.
pub open spec fn raw_rhythm(steps: nat, pulses: nat) -> Seq<bool> {
    word(steps, pulses, depth(steps, pulses) as int)
}

/// The Euclidean rhythm of `pulses` onsets among `steps` positions.
pub open spec fn euclidean_rhythm(steps: nat, pulses: nat) -> Seq<bool> {
    let raw = raw_rhythm(steps, pulses);
    rotate(raw, first_onset(raw) as int)
}

/// A remainder that is still above one is smaller than the one before it.
pub proof fn lemma_remainder_shrinks(steps: nat, pulses: nat, level: nat)
    requires
        remainder_at(steps, pulses, level + 1) >= 1,
    ensures
        remainder_at(steps, pulses, level + 1) < remainder_at(steps, pulses, level),
        remainder_at(steps, pulses, level + 1) == divisor_at(steps, pulses, level) % remainder_at(
            steps,
            pulses,
            level,
        ),
        divisor_at(steps, pulses, level + 1) == remainder_at(steps, pulses, level),
{
    let (divisor, remainder) = descent(steps, pulses, level);
    assert(descent(steps, pulses, level + 1) == (
        remainder,
        if remainder == 0 {
            0nat
        } else {
            (divisor % remainder) as nat
        },
    ));
    if remainder != 0 {
        vstd::arithmetic::div_mod::lemma_mod_bound(divisor as int, remainder as int);
    }
}

/// Repeating a word multiplies its length.
pub proof fn lemma_repeat_len(unit: Seq<bool>, count: nat)
    ensures
        repeat(unit, count).len() == count * unit.len(),
    decreases count,
{
    if count > 0 {
        lemma_repeat_len(unit, (count - 1) as nat);
        assert(count * unit.len() == (count - 1) * unit.len() + unit.len()) by (nonlinear_arith);
    } else {
        assert(count * unit.len() == 0) by (nonlinear_arith)
            requires
                count == 0,
        ;
    }
}

/// The onsets of two patterns set one after the other add up.
pub proof fn lemma_onsets_concat(left: Seq<bool>, right: Seq<bool>)
    ensures
        onsets(left + right) == onsets(left) + onsets(right),
    decreases right.len(),
{
    if right.len() == 0 {
        assert(left + right =~= left);
    } else {
        lemma_onsets_concat(left, right.drop_last());
        assert((left + right).drop_last() =~= left + right.drop_last());
        assert((left + right).last() == right.last());
    }
}

/// Repeating a word multiplies its onsets.
pub proof fn lemma_repeat_onsets(unit: Seq<bool>, count: nat)
    ensures
        onsets(repeat(unit, count)) == count * onsets(unit),
    decreases count,
{
    if count > 0 {
        lemma_repeat_onsets(unit, (count - 1) as nat);
        lemma_onsets_concat(repeat(unit, (count - 1) as nat), unit);
        assert(count * onsets(unit) == (count - 1) * onsets(unit) + onsets(unit))
            by (nonlinear_arith);
    } else {
        assert(count * onsets(unit) == 0) by (nonlinear_arith)
            requires
                count == 0,
        ;
    }
}

/// A pattern with an onset count above zero has an onset somewhere.
pub proof fn lemma_onsets_witness(pattern: Seq<bool>) -> (at: int)
    requires
        onsets(pattern) > 0,
    ensures
        0 <= at < pattern.len(),
        pattern[at],
    decreases pattern.len(),
{
    if pattern.last() {
        pattern.len() - 1
    } else {
        lemma_onsets_witness(pattern.drop_last())
    }
}

/// The first onset comes before every other onset, and is one.
pub proof fn lemma_first_onset(pattern: Seq<bool>)
    ensures
        first_onset(pattern) <= pattern.len(),
        first_onset(pattern) < pattern.len() ==> pattern[first_onset(pattern) as int],
        forall|i: int| 0 <= i < first_onset(pattern) ==> !pattern[i],
    decreases pattern.len(),
{
    if pattern.len() == 0 || pattern[0] {
    } else {
        let rest = pattern.drop_first();
        lemma_first_onset(rest);
        assert forall|i: int| 0 <= i < first_onset(pattern) implies !pattern[i] by {
            if i > 0 {
                assert(pattern[i] == rest[i - 1]);
            }
        }
    }
}

/// An index with an onset, before which there is none, is the first onset.
pub proof fn lemma_first_onset_unique(pattern: Seq<bool>, at: int)
    requires
        0 <= at < pattern.len(),
        pattern[at],
        forall|i: int| 0 <= i < at ==> !pattern[i],
    ensures
        first_onset(pattern) == at,
{
    lemma_first_onset(pattern);
    let first = first_onset(pattern) as int;
    if first < at {
        assert(pattern[first]);
    } else if first > at {
        assert(!pattern[at]);
    }
}

/// Turning a pattern keeps its length and its onsets: what stood at a place
/// stands `start` places earlier, round the end.
pub proof fn lemma_rotate(pattern: Seq<bool>, start: int)
    requires
        0 <= start <= pattern.len(),
    ensures
        rotate(pattern, start).len() == pattern.len(),
        onsets(rotate(pattern, start)) == onsets(pattern),
        forall|i: int|
            0 <= i < pattern.len() ==> #[trigger] rotate(pattern, start)[i] == pattern[(i + start)
                % (pattern.len() as int)],
{
    let head = pattern.subrange(0, start);
    let tail = pattern.subrange(start, pattern.len() as int);
    lemma_onsets_concat(tail, head);
    lemma_onsets_concat(head, tail);
    assert(head + tail =~= pattern);
    let len = pattern.len() as int;
    assert forall|i: int| 0 <= i < len implies #[trigger] rotate(pattern, start)[i] == pattern[(i
        + start) % len] by {
        if i + start < len {
            vstd::arithmetic::div_mod::lemma_small_mod((i + start) as nat, len as nat);
        } else {
            vstd::arithmetic::div_mod::lemma_small_mod((i + start - len) as nat, len as nat);
            vstd::arithmetic::div_mod::lemma_mod_add_multiples_vanish(i + start - len, len);
        }
    }
}

/// What holds of the descent below its top: the remainders stay above one
/// from the first level on, and the top is the first level to break that.
pub proof fn lemma_depth_from(steps: nat, pulses: nat, level: nat)
    requires
        remainder_at(steps, pulses, level) >= 1,
    ensures
        depth_from(steps, pulses, level) > level,
        remainder_at(steps, pulses, depth_from(steps, pulses, level)) <= 1,
        forall|l: nat|
            level < l < depth_from(steps, pulses, level) ==> #[trigger] remainder_at(
                steps,
                pulses,
                l,
            ) > 1,
    decreases remainder_at(steps, pulses, level),
{
    if remainder_at(steps, pulses, level + 1) > 1 {
        lemma_remainder_shrinks(steps, pulses, level);
        lemma_depth_from(steps, pulses, level + 1);
    }
}

/// The shape of the descent of a valid rhythm.
pub proof fn lemma_depth(steps: nat, pulses: nat)
    requires
        valid_rhythm(steps, pulses),
    ensures
        depth(steps, pulses) >= 1,
        remainder_at(steps, pulses, depth(steps, pulses)) <= 1,
        forall|l: nat|
            l < depth(steps, pulses) ==> #[trigger] remainder_at(steps, pulses, l) >= 1,
        forall|l: nat|
            1 <= l < depth(steps, pulses) ==> #[trigger] remainder_at(steps, pulses, l) > 1,
{
    lemma_depth_from(steps, pulses, 0);
    assert forall|l: nat| l < depth(steps, pulses) implies #[trigger] remainder_at(
        steps,
        pulses,
        l,
    ) >= 1 by {
        if l > 0 {
            assert(remainder_at(steps, pulses, l) > 1);
        }
    }
}

/// Length and onsets of a word that lies inside the descent.
pub proof fn lemma_word_step(steps: nat, pulses: nat, level: nat)
    requires
        valid_rhythm(steps, pulses),
        level < depth(steps, pulses),
    ensures
        word(steps, pulses, level as int).len() == (divisor_at(steps, pulses, level)
            / remainder_at(steps, pulses, level)) * word(steps, pulses, level - 1).len() + word(
            steps,
            pulses,
            level - 2,
        ).len(),
        onsets(word(steps, pulses, level as int)) == (divisor_at(steps, pulses, level)
            / remainder_at(steps, pulses, level)) * onsets(word(steps, pulses, level - 1)) + onsets(
            word(steps, pulses, level - 2),
        ),
{
    lemma_depth(steps, pulses);
    assert(remainder_at(steps, pulses, level) >= 1);
    let below = word(steps, pulses, level - 1);
    let count = count_at(steps, pulses, level);
    lemma_repeat_len(below, count);
    lemma_repeat_onsets(below, count);
    lemma_onsets_concat(repeat(below, count), word(steps, pulses, level - 2));
}

/// Every level of the descent accounts for all steps and all pulses: the
/// divisor counts the words one level down that are still to be placed, the
/// remainder those two levels down.
pub proof fn lemma_descent_measure(steps: nat, pulses: nat, level: nat)
    requires
        valid_rhythm(steps, pulses),
        level <= depth(steps, pulses),
    ensures
        divisor_at(steps, pulses, level) * word(steps, pulses, level - 1).len() + remainder_at(
            steps,
            pulses,
            level,
        ) * word(steps, pulses, level - 2).len() == steps,
        divisor_at(steps, pulses, level) * onsets(word(steps, pulses, level - 1)) + remainder_at(
            steps,
            pulses,
            level,
        ) * onsets(word(steps, pulses, level - 2)) == pulses,
    decreases level,
{
    if level == 0 {
        assert(word(steps, pulses, -1) =~= seq![false]);
        assert(word(steps, pulses, -2) =~= seq![true]);
        assert(onsets(seq![false]) == 0 && onsets(seq![true]) == 1) by {
            reveal_with_fuel(onsets, 2);
        }
        let rests = divisor_at(steps, pulses, 0);
        assert(rests * 1 + pulses * 1 == steps) by (nonlinear_arith)
            requires
                rests + pulses == steps,
        ;
        assert(rests * 0 + pulses * 1 == pulses) by (nonlinear_arith);
    } else {
        let prev = (level - 1) as nat;
        lemma_descent_measure(steps, pulses, prev);
        lemma_depth(steps, pulses);
        lemma_word_step(steps, pulses, prev);
        let d = divisor_at(steps, pulses, prev) as int;
        let r = remainder_at(steps, pulses, prev) as int;
        assert(r >= 1);
        assert(descent(steps, pulses, level) == (r as nat, (d % r) as nat));
        vstd::arithmetic::div_mod::lemma_fundamental_div_mod(d, r);
        let q = d / r;
        let m = d % r;
        let len1 = word(steps, pulses, prev - 1).len() as int;
        let len2 = word(steps, pulses, prev - 2).len() as int;
        let len0 = word(steps, pulses, prev as int).len() as int;
        assert(r * len0 + m * len1 == d * len1 + r * len2) by (nonlinear_arith)
            requires
                d == r * q + m,
                len0 == q * len1 + len2,
        ;
        let on1 = onsets(word(steps, pulses, prev - 1)) as int;
        let on2 = onsets(word(steps, pulses, prev - 2)) as int;
        let on0 = onsets(word(steps, pulses, prev as int)) as int;
        assert(r * on0 + m * on1 == d * on1 + r * on2) by (nonlinear_arith)
            requires
                d == r * q + m,
                on0 == q * on1 + on2,
        ;
    }
}

/// The nesting places every step and every pulse exactly once.
pub proof fn lemma_raw_rhythm(steps: nat, pulses: nat)
    requires
        valid_rhythm(steps, pulses),
    ensures
        raw_rhythm(steps, pulses).len() == steps,
        onsets(raw_rhythm(steps, pulses)) == pulses,
{
    let top = depth(steps, pulses);
    lemma_depth(steps, pulses);
    lemma_descent_measure(steps, pulses, top);
    let below = word(steps, pulses, top - 1);
    let below2 = word(steps, pulses, top - 2);
    let d = divisor_at(steps, pulses, top);
    let r = remainder_at(steps, pulses, top);
    lemma_repeat_len(below, d);
    lemma_repeat_onsets(below, d);
    if r == 0 {
        assert(repeat(below, d) + Seq::<bool>::empty() =~= repeat(below, d));
        assert(r * below2.len() == 0) by (nonlinear_arith)
            requires
                r == 0,
        ;
        assert(r * onsets(below2) == 0) by (nonlinear_arith)
            requires
                r == 0,
        ;
    } else {
        lemma_onsets_concat(repeat(below, d), below2);
        assert(r * below2.len() == below2.len()) by (nonlinear_arith)
            requires
                r == 1,
        ;
        assert(r * onsets(below2) == onsets(below2)) by (nonlinear_arith)
            requires
                r == 1,
        ;
    }
}

/// A Euclidean rhythm has as many positions as steps, as many onsets as
/// pulses, and starts on an onset.
pub proof fn lemma_euclidean_rhythm(steps: nat, pulses: nat)
    requires
        valid_rhythm(steps, pulses),
    ensures
        euclidean_rhythm(steps, pulses).len() == steps,
        onsets(euclidean_rhythm(steps, pulses)) == pulses,
        euclidean_rhythm(steps, pulses)[0],
        first_onset(raw_rhythm(steps, pulses)) < steps,
{
    let raw = raw_rhythm(steps, pulses);
    lemma_raw_rhythm(steps, pulses);
    let at = lemma_onsets_witness(raw);
    lemma_first_onset(raw);
    let first = first_onset(raw) as int;
    if first >= raw.len() {
        assert(!raw[at]);
    }
    lemma_rotate(raw, first);
    assert(rotate(raw, first)[0] == raw[first]);
}

} // verus!
