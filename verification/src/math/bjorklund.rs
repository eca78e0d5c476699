//! Euclidean rhythms by Bjorklund's algorithm.

use crate::math::evenness::{
    evenly_spaced, least_gap, lemma_divisible_rhythm, lemma_rhythm_is_even,
};
use crate::math::rhythm::{
    count_at, depth, depth_from, descent, divisor_at, euclidean_rhythm, first_onset,
    lemma_depth, lemma_depth_from, lemma_euclidean_rhythm, lemma_first_onset,
    lemma_first_onset_unique, onsets, raw_rhythm, remainder_at, repeat, valid_rhythm, word,
};
use vstd::prelude::*;

verus! {

/// The parameters with which a rhythm was asked for and cannot exist: no
/// pulse at all, or more pulses than steps.
#[derive(Clone, Copy, Debug, PartialEq, Eq, Structural)]
pub struct InvalidRhythmParameters {
    pub steps: usize,
    pub pulses: usize,
}

/// Largest number of steps for which patterns are tabulated.
pub const BJORKLUND_CACHE_MAX: usize = 64;

/// Where the onset of `(steps, pulses, index)` lives in the flat table.
pub open spec fn table_index(steps: int, pulses: int, index: int) -> int {
    (steps - 1) * 4096 + (pulses - 1) * 64 + index
}

/// Position of an onset in the flat table of tabulated rhythms.
pub fn cached_bjorklund_index(steps: usize, pulses: usize, index: usize) -> (combined: usize)
    requires
        1 <= steps,
        1 <= pulses,
        table_index(steps as int, pulses as int, index as int) <= usize::MAX,
    ensures
        combined == table_index(steps as int, pulses as int, index as int),
{
    let steps_offset = (steps - 1) * BJORKLUND_CACHE_MAX * BJORKLUND_CACHE_MAX;
    let pulses_offset = (pulses - 1) * BJORKLUND_CACHE_MAX;
    steps_offset + pulses_offset + index
}

/// What the tables of quotients and remainders hold once the descent of
/// `(steps, pulses)` has been written down to its top.
spec fn tables_hold(counts: Seq<usize>, remainders: Seq<usize>, steps: nat, pulses: nat) -> bool {
    &&& counts.len() == remainders.len()
    &&& forall|l: int|
        0 <= l < counts.len() ==> counts[l] == count_at(steps, pulses, l as nat) && remainders[l]
            == remainder_at(steps, pulses, l as nat)
}

/// Appends the word of `level` to `pattern`.
fn build(
    pattern: &mut Vec<bool>,
    counts: &Vec<usize>,
    remainders: &Vec<usize>,
    level: isize,
    Ghost(steps): Ghost<nat>,
    Ghost(pulses): Ghost<nat>,
)
    requires
        -2 <= level < counts.len(),
        tables_hold(counts@, remainders@, steps, pulses),
    ensures
        final(pattern)@ == old(pattern)@ + word(steps, pulses, level as int),
    decreases level + 2,
{
    let ghost before = pattern@;
    if level == -1 {
        pattern.push(false);
        assert(pattern@ =~= before + seq![false]);
    } else if level == -2 {
        pattern.push(true);
        assert(pattern@ =~= before + seq![true]);
    } else {
        let ghost below = word(steps, pulses, level - 1);
        let count = counts[level as usize];
        assert(before + repeat(below, 0) =~= before);
        for taken in 0..count
            invariant
                -2 <= level - 1 < counts.len(),
                tables_hold(counts@, remainders@, steps, pulses),
                below == word(steps, pulses, level - 1),
                pattern@ == before + repeat(below, taken as nat),
        {
            build(pattern, counts, remainders, level - 1, Ghost(steps), Ghost(pulses));
            assert((before + repeat(below, taken as nat)) + below =~= before + repeat(
                below,
                (taken + 1) as nat,
            ));
        }
        if remainders[level as usize] != 0 {
            build(pattern, counts, remainders, level - 2, Ghost(steps), Ghost(pulses));
            assert((before + repeat(below, count as nat)) + word(steps, pulses, level - 2)
                =~= before + word(steps, pulses, level as int));
        } else {
            assert(before + repeat(below, count as nat) =~= before + word(
                steps,
                pulses,
                level as int,
            ));
        }
    }
}

/// The Euclidean rhythm of `pulses` onsets spread as evenly as possible over
/// `steps` positions, turned so that it starts on an onset.
///
/// There is no such rhythm without a pulse or with more pulses than steps:
/// those parameters come back as the error.
pub fn bjorklund_bool(steps: usize, pulses: usize) -> (result: Result<
    Vec<bool>,
    InvalidRhythmParameters,
>)
    ensures
        result is Ok <==> valid_rhythm(steps as nat, pulses as nat),
        result matches Ok(pattern) ==> {
            &&& pattern@ == euclidean_rhythm(steps as nat, pulses as nat)
            &&& pattern@.len() == steps
            &&& onsets(pattern@) == pulses
            &&& pattern@[0]
            &&& evenly_spaced(pattern@ + pattern@, least_gap(steps as nat, pulses as nat))
            &&& steps % pulses == 0 ==> forall|at: int|
                0 <= at < steps ==> #[trigger] pattern@[at] == (at % (steps / pulses) as int == 0)
        },
        result matches Err(refused) ==> refused == (InvalidRhythmParameters { steps, pulses }),
{
    if pulses == 0 || pulses > steps {
        return Err(InvalidRhythmParameters { steps, pulses });
    }
    let ghost s = steps as nat;
    let ghost p = pulses as nat;
    let mut counts: Vec<usize> = Vec::new();
    let mut remainders: Vec<usize> = Vec::new();
    let mut divisor: usize = steps - pulses;
    remainders.push(pulses);
    let mut level: usize = 0;
    proof {
        lemma_depth_from(s, p, 0);
    }
    loop
        invariant_except_break
            remainders[level as int] >= 1,
            level >= 1 ==> remainders[level as int] > 1,
            depth(s, p) == depth_from(s, p, level as nat),
            level < depth(s, p),
        invariant
            valid_rhythm(s, p),
            s == steps,
            remainders.len() == level + 1,
            counts.len() == level,
            divisor == divisor_at(s, p, level as nat),
            forall|l: int| 0 <= l <= level ==> remainders[l] == remainder_at(s, p, l as nat),
            forall|l: int|
                0 <= l < level ==> counts[l] == divisor_at(s, p, l as nat) / remainder_at(
                    s,
                    p,
                    l as nat,
                ),
            level <= depth(s, p),
            level >= 1 ==> level + remainders[level as int] <= isize::MAX + 1,
        ensures
            level == depth(s, p),
            level <= isize::MAX,
        decreases remainders[level as int],
    {
        let remainder = remainders[level];
        proof {
            let d = divisor as int;
            let r = remainder as int;
            assert(descent(s, p, (level + 1) as nat) == (r as nat, (d % r) as nat));
            vstd::arithmetic::div_mod::lemma_mod_bound(d, r);
            vstd::arithmetic::div_mod::lemma_fundamental_div_mod(d, r);
            assert(0 <= r * (d / r)) by (nonlinear_arith)
                requires
                    r > 0,
                    d >= 0,
                    d / r >= 0,
            ;
            assert(d / r >= 0) by (nonlinear_arith)
                requires
                    r > 0,
                    d >= 0,
            ;
        }
        counts.push(divisor / remainder);
        remainders.push(divisor % remainder);
        divisor = remainder;
        level = level + 1;
        if remainders[level] <= 1 {
            break ;
        }
        proof {
            lemma_depth_from(s, p, level as nat);
        }
    }
    counts.push(divisor);
    proof {
        lemma_depth(s, p);
        assert(tables_hold(counts@, remainders@, s, p));
    }

    let mut pattern: Vec<bool> = Vec::new();
    build(&mut pattern, &counts, &remainders, level as isize, Ghost(s), Ghost(p));
    proof {
        assert(pattern@ =~= raw_rhythm(s, p));
        lemma_euclidean_rhythm(s, p);
        lemma_rhythm_is_even(s, p);
        if steps % pulses == 0 {
            lemma_divisible_rhythm(s, p);
        }
        lemma_first_onset(pattern@);
    }

    let mut first: usize = 0;
    while !pattern[first]
        invariant
            first < pattern.len(),
            first <= first_onset(pattern@) < pattern.len(),
            pattern@[first_onset(pattern@) as int],
            forall|i: int| 0 <= i < first ==> !pattern[i],
        decreases pattern.len() - first,
    {
        first = first + 1;
    }
    proof {
        lemma_first_onset_unique(pattern@, first as int);
    }

    let mut result: Vec<bool> = Vec::new();
    let mut at: usize = first;
    while at < pattern.len()
        invariant
            first <= at <= pattern.len(),
            result@ == pattern@.subrange(first as int, at as int),
        decreases pattern.len() - at,
    {
        result.push(pattern[at]);
        at = at + 1;
        assert(result@ =~= pattern@.subrange(first as int, at as int));
    }
    let mut at: usize = 0;
    while at < first
        invariant
            at <= first < pattern.len(),
            result@ == pattern@.subrange(first as int, pattern.len() as int) + pattern@.subrange(
                0,
                at as int,
            ),
        decreases first - at,
    {
        result.push(pattern[at]);
        at = at + 1;
        assert(result@ =~= pattern@.subrange(first as int, pattern.len() as int)
            + pattern@.subrange(0, at as int));
    }
    Ok(result)
}

/// Whether patterns of `(steps, pulses)` are tabulated.
pub open spec fn tabulated(steps: int, pulses: int) -> bool {
    1 <= pulses <= steps <= BJORKLUND_CACHE_MAX
}

/// The first `upto` onsets of the rhythm `(steps, pulses)` stand in `table`.
pub open spec fn holds_rhythm(table: Seq<bool>, steps: int, pulses: int, upto: int) -> bool {
    forall|i: int|
        0 <= i < upto ==> table[#[trigger] table_index(steps, pulses, i)] == euclidean_rhythm(
            steps as nat,
            pulses as nat,
        )[i]
}

/// Every tabulated rhythm that comes before `(steps, pulses)`, by steps and
/// then by pulses, stands in `table` in full.
pub open spec fn holds_rhythms_before(table: Seq<bool>, steps: int, pulses: int) -> bool {
    forall|s: int, p: int|
        tabulated(s, p) && (s < steps || (s == steps && p < pulses)) ==> #[trigger] holds_rhythm(
            table,
            s,
            p,
            s,
        )
}

/// Writing the next onset of a rhythm disturbs nothing that was written
/// before: no two onsets share a place in the table.
proof fn lemma_write_onset(table: Seq<bool>, steps: int, pulses: int, index: int, onset: bool)
    requires
        tabulated(steps, pulses),
        0 <= index < steps,
        table.len() == 64 * 64 * 64,
        holds_rhythms_before(table, steps, pulses),
        holds_rhythm(table, steps, pulses, index),
        onset == euclidean_rhythm(steps as nat, pulses as nat)[index],
    ensures
        0 <= table_index(steps, pulses, index) < table.len(),
        holds_rhythms_before(
            table.update(table_index(steps, pulses, index), onset),
            steps,
            pulses,
        ),
        holds_rhythm(
            table.update(table_index(steps, pulses, index), onset),
            steps,
            pulses,
            index + 1,
        ),
{
    let written = table.update(table_index(steps, pulses, index), onset);
    assert forall|s: int, p: int|
        tabulated(s, p) && (s < steps || (s == steps && p < pulses)) implies #[trigger] holds_rhythm(
        written,
        s,
        p,
        s,
    ) by {
        assert(holds_rhythm(table, s, p, s));
        assert forall|i: int| 0 <= i < s implies written[#[trigger] table_index(s, p, i)]
            == euclidean_rhythm(s as nat, p as nat)[i] by {
            assert(table_index(s, p, i) != table_index(steps, pulses, index));
        }
    }
    assert forall|i: int| 0 <= i < index + 1 implies written[#[trigger] table_index(
        steps,
        pulses,
        i,
    )] == euclidean_rhythm(steps as nat, pulses as nat)[i] by {
        if i < index {
            assert(table_index(steps, pulses, i) != table_index(steps, pulses, index));
        }
    }
}

/// The table of all Euclidean rhythms of up to `BJORKLUND_CACHE_MAX` steps,
/// for reading single onsets in constant time.
pub struct EuclideanPatternCache {
    table: Vec<bool>,
}

impl View for EuclideanPatternCache {
    type V = Seq<bool>;

    /// The flat table, one onset per place.
    closed spec fn view(&self) -> Seq<bool> {
        self.table@
    }
}

impl EuclideanPatternCache {
    /// The table is complete: every tabulated rhythm stands in it.
    pub open spec fn wf(&self) -> bool {
        &&& self@.len() == 64 * 64 * 64
        &&& holds_rhythms_before(self@, BJORKLUND_CACHE_MAX + 1, 1)
    }

    /// The onset that the table holds for `index` of `(steps, pulses)`.
    pub open spec fn onset(&self, steps: int, pulses: int, index: int) -> bool {
        self@[table_index(steps, pulses, index)]
    }

    /// Generates every rhythm of up to `BJORKLUND_CACHE_MAX` steps and
    /// writes it into the table.
    pub fn new() -> (cache: EuclideanPatternCache)
        ensures
            cache.wf(),
    {
        let mut table: Vec<bool> = Vec::new();
        table.resize(BJORKLUND_CACHE_MAX * BJORKLUND_CACHE_MAX * BJORKLUND_CACHE_MAX, false);
        let mut steps: usize = 1;
        while steps <= BJORKLUND_CACHE_MAX
            invariant
                1 <= steps <= BJORKLUND_CACHE_MAX + 1,
                table@.len() == 64 * 64 * 64,
                holds_rhythms_before(table@, steps as int, 1),
            decreases BJORKLUND_CACHE_MAX + 1 - steps,
        {
            let mut pulses: usize = 1;
            while pulses <= steps
                invariant
                    1 <= pulses <= steps + 1,
                    steps <= BJORKLUND_CACHE_MAX,
                    table@.len() == 64 * 64 * 64,
                    holds_rhythms_before(table@, steps as int, pulses as int),
                decreases steps + 1 - pulses,
            {
                let pattern = bjorklund_bool(steps, pulses).unwrap();
                let mut index: usize = 0;
                while index < pattern.len()
                    invariant
                        index <= pattern.len() == steps,
                        tabulated(steps as int, pulses as int),
                        pattern@ == euclidean_rhythm(steps as nat, pulses as nat),
                        table@.len() == 64 * 64 * 64,
                        holds_rhythms_before(table@, steps as int, pulses as int),
                        holds_rhythm(table@, steps as int, pulses as int, index as int),
                    decreases pattern.len() - index,
                {
                    proof {
                        lemma_write_onset(
                            table@,
                            steps as int,
                            pulses as int,
                            index as int,
                            pattern@[index as int],
                        );
                    }
                    let combined_index = cached_bjorklund_index(steps, pulses, index);
                    table.set(combined_index, pattern[index]);
                    index = index + 1;
                }
                pulses = pulses + 1;
            }
            steps = steps + 1;
        }
        EuclideanPatternCache { table }
    }
}

/// Reading the table gives what generating the rhythm afresh gives, at every
/// position of every tabulated rhythm.
pub proof fn lemma_cache_agrees_with_generation(
    cache: EuclideanPatternCache,
    steps: int,
    pulses: int,
    index: int,
)
    requires
        cache.wf(),
        tabulated(steps, pulses),
        0 <= index < steps,
    ensures
        0 <= table_index(steps, pulses, index) < cache@.len(),
        cache.onset(steps, pulses, index) == euclidean_rhythm(steps as nat, pulses as nat)[index],
{
    assert(holds_rhythm(cache@, steps, pulses, steps));
}

/// Whether position `index` of the rhythm `(steps, pulses)` is an onset,
/// read from the table.
///
/// Parameters that describe no rhythm, or one with more steps than are
/// tabulated, come back as the error, whatever the position. Of a tabulated
/// rhythm the position lies inside the pattern: a caller that runs round the
/// pattern takes its position modulo `steps` first.
pub fn cached_bjorklund(
    cache: &EuclideanPatternCache,
    steps: usize,
    pulses: usize,
    index: usize,
) -> (result: Result<bool, InvalidRhythmParameters>)
    requires
        cache.wf(),
        tabulated(steps as int, pulses as int) ==> index < steps,
    ensures
        result is Ok <==> tabulated(steps as int, pulses as int),
        result matches Ok(onset) ==> {
            &&& onset == euclidean_rhythm(steps as nat, pulses as nat)[index as int]
            &&& onset == cache.onset(steps as int, pulses as int, index as int)
        },
        result matches Err(refused) ==> refused == (InvalidRhythmParameters { steps, pulses }),
{
    if pulses == 0 || pulses > steps || steps > BJORKLUND_CACHE_MAX {
        return Err(InvalidRhythmParameters { steps, pulses });
    }
    proof {
        lemma_cache_agrees_with_generation(*cache, steps as int, pulses as int, index as int);
    }
    Ok(cache.table[cached_bjorklund_index(steps, pulses, index)])
}

} // verus!
