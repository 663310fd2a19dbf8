//! Builds the compact space of a set of values.
//!
//! The space from the smallest value to the largest is cut at blanks, that is at stretches that
//! hold no value. Every cut has a cost, the bits that it takes to note it down; it pays where the
//! values that are left to tell apart are so much fewer that they take fewer bits each.
use std::collections::BTreeSet;

use vstd::prelude::*;

use crate::bits::{bit_len, lemma_bit_len_bound, lemma_bit_len_monotone};
use crate::cutting::{is_best_cutting, law_built_space_is_best};
use crate::order::{
    ascending, descending, pair_less, pairs_decreasing, ranked_pairs, sorted_values,
    strictly_increasing,
};
use crate::space::{
    amplitude, covers, follows_on, lemma_drop_last_wf, lemma_push_laid_out, lemma_to_compact_at,
    ranges_wf, to_compact, CompactSpace, RangeMapping,
};

verus! {

/// A blank that is shorter does not count: it is cut out only where the space would otherwise be
/// too large.
pub const MIN_BLANK_SIZE: u128 = 3;

/// The blank between the neighbouring values at `i` and `i + 1`: its size and where it begins.
pub open spec fn blank_at(values: Seq<u128>, i: int) -> (u128, u128) {
    ((values[i + 1] - values[i] - 1) as u128, (values[i] + 1) as u128)
}

/// The blanks that are worth considering.
pub open spec fn wide_blanks(values: Seq<u128>) -> Set<(u128, u128)> {
    Set::new(
        |blank: (u128, u128)|
            blank.0 >= MIN_BLANK_SIZE && exists|i: int|
                0 <= i < values.len() - 1 && #[trigger] blank_at(values, i) == blank,
    )
}

/// The number of values that `blanks` span together.
pub open spec fn sum_sizes(blanks: Seq<(u128, u128)>) -> nat
    decreases blanks.len(),
{
    if blanks.len() == 0 {
        0
    } else {
        sum_sizes(blanks.drop_last()) + blanks.last().0 as nat
    }
}

/// The distance from the smallest value to the largest, less what the first `cuts` of the ranked
/// blanks take away.
pub open spec fn extent_after(values: Seq<u128>, ranked: Seq<(u128, u128)>, cuts: int) -> int {
    values.last() - values[0] - sum_sizes(ranked.take(cuts))
}

/// The bits that it takes to tell the values and null apart, once the first `cuts` of the ranked
/// blanks are cut out. (The whole of the original space counts as one value less than it has.)
pub open spec fn bits_after(values: Seq<u128>, ranked: Seq<(u128, u128)>, cuts: int) -> int {
    let extent = extent_after(values, ranked, cuts);
    bit_len(
        if extent >= u128::MAX {
            u128::MAX as nat
        } else {
            (extent + 1) as nat
        },
    ) as int
}

/// Whether going on from `kept` cuts to `staged` saves more bits, over all the values, than the
/// cuts cost.
pub open spec fn pays_off(
    values: Seq<u128>,
    ranked: Seq<(u128, u128)>,
    kept: int,
    staged: int,
    total_num_values: int,
    cost_per_blank: int,
) -> bool {
    (staged - kept) * cost_per_blank < (bits_after(values, ranked, kept) - bits_after(
        values,
        ranked,
        staged,
    )) * total_num_values
}

/// How many of the first `seen` ranked blanks are cut out: the blanks are staged one by one, and
/// whenever it pays off all the staged ones are taken.
pub open spec fn num_cuts(
    values: Seq<u128>,
    ranked: Seq<(u128, u128)>,
    seen: int,
    total_num_values: int,
    cost_per_blank: int,
) -> int
    decreases seen,
{
    if seen <= 0 {
        0
    } else {
        let kept = num_cuts(values, ranked, seen - 1, total_num_values, cost_per_blank);
        if pays_off(values, ranked, kept, seen, total_num_values, cost_per_blank) {
            seen
        } else {
            kept
        }
    }
}

/// The least blank, by size and then by place, that is cut out along with all greater ones, if
/// any is: the last of those that pay off, or, where what these leave is more than 64 bits can
/// number, the smallest that there can be.
pub open spec fn least_cut(
    values: Seq<u128>,
    total_num_values: int,
    cost_per_blank: int,
) -> Option<(u128, u128)> {
    let ranked = descending(wide_blanks(values));
    let cuts = num_cuts(values, ranked, ranked.len() as int, total_num_values, cost_per_blank);
    if extent_after(values, ranked, cuts) >= u64::MAX {
        Some((1, 0))
    } else if cuts == 0 {
        None
    } else {
        Some(ranked[cuts - 1])
    }
}

/// Whether `blank` is cut out.
pub open spec fn is_cut(blank: (u128, u128), least: Option<(u128, u128)>) -> bool {
    match least {
        Some(limit) => !pair_less(blank, limit),
        None => false,
    }
}

/// The ranges, each with its first and its last value, that are left of the space from the first
/// of `values` to the last when it is cut at the blanks from `least` on. No values at all are
/// given the one range of zero.
pub open spec fn cover(values: Seq<u128>, least: Option<(u128, u128)>) -> Seq<(u128, u128)>
    decreases values.len(),
{
    if values.len() == 0 {
        seq![(0, 0)]
    } else if values.len() == 1 {
        seq![(values[0], values[0])]
    } else {
        let before = cover(values.drop_last(), least);
        if is_cut(blank_at(values, values.len() - 2), least) {
            before.push((values.last(), values.last()))
        } else {
            before.drop_last().push((before.last().0, values.last()))
        }
    }
}

/// The number of values of `spans` together.
pub open spec fn total_len(spans: Seq<(u128, u128)>) -> int
    decreases spans.len(),
{
    if spans.len() == 0 {
        0
    } else {
        total_len(spans.drop_last()) + (spans.last().1 - spans.last().0 + 1)
    }
}

/// The ranges of the original space that a compact space is made of.
pub open spec fn spans(ranges: Seq<RangeMapping>) -> Seq<(u128, u128)> {
    ranges.map_values(|range: RangeMapping| (range.start, range.end))
}

/// The number of binary digits of `val`.
fn num_bits(val: u128) -> (bits: u32)
    ensures
        bits == bit_len(val as nat),
        bits <= 128,
{
    let mut rest: u128 = val;
    let mut bits: u32 = 0;
    proof {
        vstd::arithmetic::power2::lemma2_to64();
        vstd::arithmetic::power2::lemma_pow2_adds(64, 64);
        lemma_bit_len_bound(val as nat, 128);
    }
    while rest > 0
        invariant
            bits + bit_len(rest as nat) == bit_len(val as nat),
            bit_len(val as nat) <= 128,
        decreases rest,
    {
        rest = rest / 2;
        bits += 1;
    }
    bits
}

/// The wide blanks between the values.
fn collect_blanks(values: &Vec<u128>) -> (blanks: BTreeSet<(u128, u128)>)
    requires
        strictly_increasing(values@),
    ensures
        blanks@ == wide_blanks(values@),
{
    broadcast use vstd::laws_cmp::group_laws_cmp;

    assert(vstd::laws_cmp::obeys_cmp::<(u128, u128)>());
    let mut blanks: BTreeSet<(u128, u128)> = BTreeSet::new();
    let mut i: usize = 1;
    while i < values.len()
        invariant
            strictly_increasing(values@),
            1 <= i,
            i <= values@.len() || i == 1,
            vstd::laws_cmp::obeys_cmp::<(u128, u128)>(),
            forall|blank: (u128, u128)|
                blanks@.contains(blank) <==> blank.0 >= MIN_BLANK_SIZE && exists|k: int|
                    0 <= k < i - 1 && #[trigger] blank_at(values@, k) == blank,
        decreases values@.len() - i,
    {
        let size: u128 = values[i] - values[i - 1] - 1;
        let ghost before = blanks@;
        let blank: (u128, u128) = (size, values[i - 1] + 1);
        assert(blank == blank_at(values@, i - 1));
        if size >= MIN_BLANK_SIZE {
            blanks.insert(blank);
        }
        assert forall|b: (u128, u128)|
            blanks@.contains(b) <==> b.0 >= MIN_BLANK_SIZE && exists|k: int|
                0 <= k < i && #[trigger] blank_at(values@, k) == b by {
            if before.contains(b) {
                let k = choose|k: int| 0 <= k < i - 1 && #[trigger] blank_at(values@, k) == b;
                assert(0 <= k < i && blank_at(values@, k) == b);
            }
        }
        i += 1;
    }
    assert(blanks@ =~= wide_blanks(values@));
    blanks
}

/// How many of the ranked blanks are cut out, and how many values these span together.
fn count_cuts(
    values: &Vec<u128>,
    ranked: &Vec<(u128, u128)>,
    total_num_values: u64,
    cost_per_blank: usize,
) -> (result: (usize, u128))
    requires
        strictly_increasing(values@),
        values@.len() > 0,
        ranked@ == descending(wide_blanks(values@)),
        pairs_decreasing(ranked@),
        ranked@.to_set() == wide_blanks(values@),
    ensures
        result.0 == num_cuts(
            values@,
            ranked@,
            ranked@.len() as int,
            total_num_values as int,
            cost_per_blank as int,
        ),
        result.0 <= ranked@.len(),
        result.1 == sum_sizes(ranked@.take(result.0 as int)),
        result.1 <= values@.last() - values@[0],
{
    let extent: u128 = values[values.len() - 1] - values[0];
    let mut kept: usize = 0;
    let mut kept_sum: u128 = 0;
    let mut kept_bits: u32 = num_bits(extent.saturating_add(1));
    let mut staged_sum: u128 = 0;
    let mut seen: usize = 0;
    assert(ranked@.take(0) =~= Seq::empty());
    while seen < ranked.len()
        invariant
            strictly_increasing(values@),
            values@.len() > 0,
            pairs_decreasing(ranked@),
            ranked@.to_set() == wide_blanks(values@),
            extent == values@.last() - values@[0],
            kept <= seen <= ranked@.len(),
            kept == num_cuts(
                values@,
                ranked@,
                seen as int,
                total_num_values as int,
                cost_per_blank as int,
            ),
            kept_sum == sum_sizes(ranked@.take(kept as int)),
            kept_sum <= extent,
            staged_sum == sum_sizes(ranked@.take(seen as int)),
            staged_sum <= extent,
            kept_sum <= staged_sum,
            kept_bits == bits_after(values@, ranked@, kept as int),
            kept_bits <= 128,
        decreases ranked@.len() - seen,
    {
        proof {
            lemma_total_len_ranked(values@, ranked@, seen + 1);
            assert(ranked@.take(seen + 1).drop_last() =~= ranked@.take(seen as int));
        }
        staged_sum = staged_sum + ranked[seen].0;
        seen += 1;
        let left: u128 = extent - staged_sum;
        let staged_bits: u32 = num_bits(left.saturating_add(1));
        proof {
            let kept_left = (extent - kept_sum) as u128;
            lemma_bit_len_monotone(
                left.saturating_add(1) as nat,
                kept_left.saturating_add(1) as nat,
            );
        }
        assert((seen - kept) * cost_per_blank <= u64::MAX * u64::MAX) by (nonlinear_arith)
            requires
                0 <= seen - kept <= u64::MAX,
                0 <= cost_per_blank <= u64::MAX,
        ;
        assert((kept_bits - staged_bits) * total_num_values <= 128 * u64::MAX) by (nonlinear_arith)
            requires
                0 <= kept_bits - staged_bits <= 128,
                0 <= total_num_values <= u64::MAX,
        ;
        let cost: u128 = (seen - kept) as u128 * cost_per_blank as u128;
        let saved: u128 = (kept_bits - staged_bits) as u128 * total_num_values as u128;
        if cost < saved {
            kept = seen;
            kept_sum = staged_sum;
            kept_bits = staged_bits;
        }
    }
    (kept, kept_sum)
}

/// Whether `blank` is cut out.
fn is_cut_out(blank: (u128, u128), least: Option<(u128, u128)>) -> (cut: bool)
    ensures
        cut == is_cut(blank, least),
{
    match least {
        Some(limit) => blank.0 > limit.0 || (blank.0 == limit.0 && blank.1 >= limit.1),
        None => false,
    }
}

/// The ranges that are left of the values' space, with their compact values.
fn build_ranges(values: &Vec<u128>, least: Option<(u128, u128)>) -> (ranges: Vec<RangeMapping>)
    requires
        strictly_increasing(values@),
        values@.len() > 0,
        total_len(cover(values@, least)) <= u64::MAX,
    ensures
        ranges_wf(ranges@),
        spans(ranges@) == cover(values@, least),
{
    let mut ranges: Vec<RangeMapping> = Vec::new();
    let mut start: u128 = values[0];
    let mut compact_start: u64 = 1;  // 0 is reserved for null
    let mut i: usize = 1;
    assert(values@.take(1) =~= seq![values@[0]]);
    assert(spans(ranges@) =~= Seq::empty());
    assert(cover(values@.take(1), least) =~= spans(ranges@).push((start, values@[0])));
    while i < values.len()
        invariant
            strictly_increasing(values@),
            1 <= i <= values@.len(),
            total_len(cover(values@, least)) <= u64::MAX,
            cover(values@.take(i as int), least) == spans(ranges@).push((start, values@[i - 1])),
            start <= values@[i - 1],
            ranges_wf(ranges@),
            compact_start == 1 + total_len(spans(ranges@)),
            ranges@.len() > 0 ==> compact_start == ranges@.last().last_compact() + 1,
            ranges@.len() > 0 ==> ranges@.last().end < start,
        decreases values@.len() - i,
    {
        let end: u128 = values[i - 1];
        let blank: (u128, u128) = (values[i] - end - 1, end + 1);
        let ghost seen = values@.take(i + 1);
        proof {
            assert(seen.drop_last() =~= values@.take(i as int));
            assert(blank_at(seen, seen.len() - 2) == blank);
            let before = spans(ranges@).push((start, end));
            assert(before.drop_last() =~= spans(ranges@));
            if is_cut(blank, least) {
                lemma_total_len_grows(values@, least, i + 1);
                assert(cover(seen, least).drop_last() =~= before);
                assert(total_len(before) == total_len(spans(ranges@)) + (end - start + 1));
            }
        }
        if is_cut_out(blank, least) {
            let ghost old_ranges = ranges@;
            let range = RangeMapping { start, end, compact_start };
            ranges.push(range);
            proof {
                lemma_push_wf(old_ranges, range);
                assert(spans(ranges@) =~= spans(old_ranges).push((start, end)));
                assert(spans(ranges@).drop_last() =~= spans(old_ranges));
            }
            compact_start = compact_start + range.range_length();
            start = values[i];
        }
        i += 1;
    }
    let end: u128 = values[values.len() - 1];
    let range = RangeMapping { start, end, compact_start };
    proof {
        assert(values@.take(i as int) =~= values@);
        assert(cover(values@, least).drop_last() =~= spans(ranges@));
        lemma_push_wf(ranges@, range);
        assert(spans(ranges@.push(range)) =~= spans(ranges@).push((start, end)));
    }
    ranges.push(range);
    ranges
}

/// Builds the compact space of `values`, which are those of a column of `total_num_values`
/// values, where noting down a blank costs `cost_per_blank` bits.
pub fn get_compact_space(
    values: &BTreeSet<u128>,
    total_num_values: u64,
    cost_per_blank: usize,
) -> (space: CompactSpace)
    ensures
        space.wf(),
        strictly_increasing(ascending(values@)),
        ascending(values@).to_set() == values@,
        spans(space@) == cover(
            ascending(values@),
            least_cut(ascending(values@), total_num_values as int, cost_per_blank as int),
        ),
        forall|value: u128| values@.contains(value) ==> #[trigger] covers(space@, value as int),
        ascending(values@).len() == 0 ==> space@ == seq![
            RangeMapping { start: 0, end: 0, compact_start: 1 },
        ],
        ascending(values@).len() > 0 ==> is_best_cutting(
            ascending(values@),
            spans(space@),
            total_num_values as int,
            cost_per_blank as int,
        ) || (forall|value: u128| #[trigger]
            covers(space@, value as int) ==> values@.contains(value)) && exists|
            best: Seq<(u128, u128)>,
        |
            is_best_cutting(
                ascending(values@),
                best,
                total_num_values as int,
                cost_per_blank as int,
            ) && total_len(best) > u64::MAX,
{
    let sorted: Vec<u128> = sorted_values(values);
    if sorted.len() == 0 {
        let mut ranges: Vec<RangeMapping> = Vec::new();
        ranges.push(RangeMapping { start: 0, end: 0, compact_start: 1 });
        assert(spans(ranges@) =~= seq![(0u128, 0u128)]);
        assert forall|value: u128| !values@.contains(value) by {
            if values@.contains(value) {
                assert(sorted@.to_set().contains(value));
            }
        }
        return CompactSpace::from_ranges(ranges);
    }
    let ranked: Vec<(u128, u128)> = ranked_pairs(&collect_blanks(&sorted));
    let (cuts, cut_sum) = count_cuts(&sorted, &ranked, total_num_values, cost_per_blank);
    let extent: u128 = sorted[sorted.len() - 1] - sorted[0] - cut_sum;
    let least: Option<(u128, u128)> = if extent >= u64::MAX as u128 {
        Some((1, 0))
    } else if cuts == 0 {
        None
    } else {
        Some(ranked[cuts - 1])
    };
    proof {
        if extent >= u64::MAX {
            lemma_total_len_all_cut(sorted@);
        } else {
            lemma_total_len_ranked(sorted@, ranked@, cuts as int);
        }
    }
    let ranges: Vec<RangeMapping> = build_ranges(&sorted, least);
    proof {
        law_built_space_covers(ranges@, sorted@, least);
        assert forall|value: u128| values@.contains(value) implies #[trigger] covers(
            ranges@,
            value as int,
        ) by {
            assert(sorted@.to_set().contains(value));
            let i = choose|i: int| 0 <= i < sorted@.len() && sorted@[i] == value;
            assert(covers(ranges@, sorted@[i] as int));
        }
        let best = law_built_space_is_best(ranges@, sorted@, total_num_values, cost_per_blank);
        if total_len(best) > u64::MAX {
            assert forall|value: u128| #[trigger] covers(
                ranges@,
                value as int,
            ) implies values@.contains(value) by {
                assert(sorted@.to_set().contains(value));
            }
        }
    }
    CompactSpace::from_ranges(ranges)
}

proof fn lemma_push_wf(ranges: Seq<RangeMapping>, range: RangeMapping)
    requires
        ranges_wf(ranges),
        range.start <= range.end,
        range.compact_start + (range.end - range.start) <= u64::MAX,
        ranges.len() == 0 ==> range.compact_start == 1,
        ranges.len() > 0 ==> range.compact_start == ranges.last().last_compact() + 1,
        ranges.len() > 0 ==> ranges.last().end < range.start,
        range.compact_start >= 1,
    ensures
        ranges_wf(ranges.push(range)),
        range.last_compact() == range.compact_start + (range.end - range.start),
{
    lemma_push_laid_out(ranges, range);
    let longer = ranges.push(range);
    assert forall|i: int, j: int| 0 <= i < j < longer.len() implies longer[i].end
        < longer[j].start by {
        if j == ranges.len() && i < ranges.len() - 1 {
            assert(ranges[i].end < ranges.last().start);
            assert(ranges.last().start <= ranges.last().end);
        }
    }
}

/// The cover of values ends with the last of them and begins with the first.
pub(crate) proof fn lemma_cover_ends(values: Seq<u128>, least: Option<(u128, u128)>)
    requires
        strictly_increasing(values),
        values.len() > 0,
    ensures
        cover(values, least).len() > 0,
        cover(values, least)[0].0 == values[0],
        cover(values, least).last().1 == values.last(),
        forall|i: int| #![trigger cover(values, least)[i]]
            0 <= i < cover(values, least).len() ==> values[0] <= cover(values, least)[i].0
                <= cover(values, least)[i].1 <= values.last(),
    decreases values.len(),
{
    if values.len() > 1 {
        lemma_cover_ends(values.drop_last(), least);
        assert(values.drop_last().last() == values[values.len() - 2]);
        assert(values[values.len() - 2] < values.last());
        let before = cover(values.drop_last(), least);
        assert forall|i: int| #![trigger cover(values, least)[i]]
            0 <= i < cover(values, least).len() implies values[0] <= cover(values, least)[i].0
            <= cover(values, least)[i].1 <= values.last() by {
            if i < before.len() {
                assert(before[i].0 <= before[i].1);
            }
        }
    }
}

/// One value more makes the cover longer by one, or by the distance to it.
proof fn lemma_total_len_step(values: Seq<u128>, least: Option<(u128, u128)>)
    requires
        strictly_increasing(values),
        values.len() > 1,
    ensures
        total_len(cover(values, least)) == total_len(cover(values.drop_last(), least)) + (
        if is_cut(blank_at(values, values.len() - 2), least) {
            1
        } else {
            values.last() - values[values.len() - 2]
        }),
{
    let before = cover(values.drop_last(), least);
    lemma_cover_ends(values.drop_last(), least);
    assert(values[values.len() - 2] < values.last());
    if is_cut(blank_at(values, values.len() - 2), least) {
        assert(cover(values, least).drop_last() =~= before);
    } else {
        assert(cover(values, least).drop_last() =~= before.drop_last());
    }
}

proof fn lemma_total_len_grows(values: Seq<u128>, least: Option<(u128, u128)>, n: int)
    requires
        strictly_increasing(values),
        1 <= n <= values.len(),
    ensures
        total_len(cover(values.take(n), least)) <= total_len(cover(values, least)),
    decreases values.len(),
{
    if n == values.len() {
        assert(values.take(n) =~= values);
    } else {
        lemma_total_len_step(values, least);
        lemma_total_len_grows(values.drop_last(), least, n);
        assert(values.drop_last().take(n) =~= values.take(n));
        assert(values[values.len() - 2] < values.last());
    }
}

/// Cut at every blank, the cover holds the values alone.
proof fn lemma_total_len_all_cut(values: Seq<u128>)
    requires
        strictly_increasing(values),
        values.len() > 0,
    ensures
        total_len(cover(values, Some((1, 0)))) == values.len(),
    decreases values.len(),
{
    if values.len() == 1 {
        assert(cover(values, Some((1u128, 0u128))).drop_last() =~= Seq::empty());
        assert(total_len(Seq::empty()) == 0);
    } else {
        lemma_total_len_step(values, Some((1, 0)));
        lemma_total_len_all_cut(values.drop_last());
        assert(values[values.len() - 2] < values.last());
    }
}

pub(crate) proof fn lemma_sum_remove(blanks: Seq<(u128, u128)>, i: int)
    requires
        0 <= i < blanks.len(),
    ensures
        sum_sizes(blanks.remove(i)) + blanks[i].0 == sum_sizes(blanks),
    decreases blanks.len(),
{
    if i == blanks.len() - 1 {
        assert(blanks.remove(i) =~= blanks.drop_last());
    } else {
        lemma_sum_remove(blanks.drop_last(), i);
        assert(blanks.remove(i).drop_last() =~= blanks.drop_last().remove(i));
        assert(blanks.remove(i).last() == blanks.last());
    }
}

/// Whether `cut` lists, once each, the blanks between the values that are cut out.
spec fn lists_cuts(
    values: Seq<u128>,
    least: Option<(u128, u128)>,
    cut: Seq<(u128, u128)>,
) -> bool {
    &&& cut.no_duplicates()
    &&& forall|i: int|
        0 <= i < values.len() - 1 ==> (cut.contains(#[trigger] blank_at(values, i)) <==> is_cut(
            blank_at(values, i),
            least,
        ))
    &&& forall|k: int| 0 <= k < cut.len() ==> is_blank_between(values, #[trigger] cut[k])
}

spec fn is_blank_between(values: Seq<u128>, blank: (u128, u128)) -> bool {
    exists|i: int| 0 <= i < values.len() - 1 && #[trigger] blank_at(values, i) == blank
}

/// What is cut out is missing from the length of the cover.
#[verifier::spinoff_prover]
#[verifier::rlimit(40)]
proof fn lemma_total_len_cut(
    values: Seq<u128>,
    least: Option<(u128, u128)>,
    cut: Seq<(u128, u128)>,
)
    requires
        strictly_increasing(values),
        values.len() > 0,
        lists_cuts(values, least, cut),
    ensures
        total_len(cover(values, least)) == values.last() - values[0] + 1 - sum_sizes(cut),
        sum_sizes(cut) <= values.last() - values[0],
        cover(values, least).len() == cut.len() + 1,
    decreases values.len(),
{
    if values.len() == 1 {
        if cut.len() > 0 {
            assert(is_blank_between(values, cut[0]));
        }
        assert(cover(values, least).drop_last() =~= Seq::empty());
        assert(total_len(Seq::empty()) == 0);
    } else {
        let shorter = values.drop_last();
        let last = values.len() - 2;
        let blank = blank_at(values, last);
        assert(values[last] < values[last + 1]);
        assert forall|i: int| 0 <= i < last implies blank_at(shorter, i) == blank_at(values, i)
            && blank_at(values, i) != blank by {
            assert(values[i] < values[last]);
        }
        lemma_total_len_step(values, least);
        let rest = if is_cut(blank, least) {
            let k = choose|k: int| 0 <= k < cut.len() && cut[k] == blank;
            assert(cut.contains(blank));
            lemma_sum_remove(cut, k);
            cut.remove(k)
        } else {
            cut
        };
        assert(lists_cuts(shorter, least, rest)) by {
            assert forall|i: int| 0 <= i < shorter.len() - 1 implies (rest.contains(
                #[trigger] blank_at(shorter, i),
            ) <==> is_cut(blank_at(shorter, i), least)) by {
                let b = blank_at(values, i);
                assert(blank_at(shorter, i) == b);
                assert(cut.contains(b) <==> is_cut(b, least));
                if is_cut(blank, least) {
                    let k = choose|k: int| 0 <= k < cut.len() && cut[k] == blank;
                    assert(cut.contains(blank));
                    if cut.contains(b) {
                        let j = choose|j: int| 0 <= j < cut.len() && cut[j] == b;
                        assert(rest[if j < k { j } else { j - 1 }] == b);
                    }
                    if rest.contains(b) {
                        let j = choose|j: int| 0 <= j < rest.len() && rest[j] == b;
                        assert(cut[if j < k { j } else { j + 1 }] == b);
                    }
                }
            }
            assert forall|j: int| 0 <= j < rest.len() implies is_blank_between(
                shorter,
                #[trigger] rest[j],
            ) by {
                let at = if is_cut(blank, least) {
                    let k = choose|k: int| 0 <= k < cut.len() && cut[k] == blank;
                    assert(cut.contains(blank));
                    if j < k {
                        j
                    } else {
                        j + 1
                    }
                } else {
                    j
                };
                assert(cut[at] == rest[j]);
                assert(is_blank_between(values, cut[at]));
                let i = choose|i: int|
                    0 <= i < values.len() - 1 && #[trigger] blank_at(values, i) == cut[at];
                if i == last {
                    assert(cut.contains(blank));
                    assert(is_cut(blank, least));
                }
                assert(i < last);
                assert(blank_at(shorter, i) == rest[j]);
            }
        }
        lemma_total_len_cut(shorter, least, rest);
    }
}

/// Cut at the first `cuts` ranked blanks, the cover is as long as the values' space less these
/// blanks.
pub(crate) proof fn lemma_total_len_ranked(
    values: Seq<u128>,
    ranked: Seq<(u128, u128)>,
    cuts: int,
)
    requires
        strictly_increasing(values),
        values.len() > 0,
        pairs_decreasing(ranked),
        ranked.to_set() == wide_blanks(values),
        0 <= cuts <= ranked.len(),
    ensures
        cover(
            values,
            if cuts == 0 {
                None
            } else {
                Some(ranked[cuts - 1])
            },
        ).len() == cuts + 1,
        sum_sizes(ranked.take(cuts)) <= values.last() - values[0],
        total_len(
            cover(
                values,
                if cuts == 0 {
                    None
                } else {
                    Some(ranked[cuts - 1])
                },
            ),
        ) == extent_after(values, ranked, cuts) + 1,
{
    let least = if cuts == 0 {
        None
    } else {
        Some(ranked[cuts - 1])
    };
    let cut = ranked.take(cuts);
    assert forall|k: int| 0 <= k < ranked.len() implies is_blank_between(
        values,
        #[trigger] ranked[k],
    ) && ranked[k].0 >= MIN_BLANK_SIZE by {
        assert(ranked.to_set().contains(ranked[k]));
        assert(wide_blanks(values).contains(ranked[k]));
    }
    assert forall|i: int| 0 <= i < values.len() - 1 implies (cut.contains(
        #[trigger] blank_at(values, i),
    ) <==> is_cut(blank_at(values, i), least)) by {
        let b = blank_at(values, i);
        if cut.contains(b) {
            let k = choose|k: int| 0 <= k < cut.len() && cut[k] == b;
            assert(ranked[k] == b);
            assert(k < cuts - 1 ==> pair_less(ranked[cuts - 1], ranked[k]));
        }
        if is_cut(b, least) {
            assert(ranked[cuts - 1].0 >= MIN_BLANK_SIZE);
            assert(wide_blanks(values).contains(b));
            assert(ranked.to_set().contains(b));
            let k = choose|k: int| 0 <= k < ranked.len() && ranked[k] == b;
            assert(k >= cuts ==> pair_less(ranked[k], ranked[cuts - 1]));
            assert(cut[k] == b);
        }
    }
    assert(cut.no_duplicates()) by {
        assert forall|i: int, j: int| 0 <= i < j < cut.len() implies cut[i] != cut[j] by {
            assert(pair_less(ranked[j], ranked[i]));
        }
    }
    assert(lists_cuts(values, least, cut));
    lemma_total_len_cut(values, least, cut);
}

/// Every value lies in a range of the cover.
pub(crate) proof fn lemma_cover_holds(values: Seq<u128>, least: Option<(u128, u128)>, i: int)
    requires
        strictly_increasing(values),
        0 <= i < values.len(),
    ensures
        exists|k: int| 0 <= k < cover(values, least).len() && (
        #[trigger] cover(values, least)[k]).0 <= values[i] <= cover(values, least)[k].1,
    decreases values.len(),
{
    let all = cover(values, least);
    if values.len() > 1 {
        let before = cover(values.drop_last(), least);
        lemma_cover_ends(values.drop_last(), least);
        assert(values[values.len() - 2] < values.last());
        if i == values.len() - 1 {
            assert(before.last().0 <= before.last().1);
            assert(all.last().0 <= values[i] <= all.last().1);
        } else {
            lemma_cover_holds(values.drop_last(), least, i);
            let k = choose|k: int|
                0 <= k < before.len() && (#[trigger] before[k]).0 <= values[i] <= before[k].1;
            assert(all[k].0 <= values[i] <= all[k].1);
        }
    } else {
        assert(all[0].0 <= values[i] <= all[0].1);
    }
}

/// Every range of the cover begins and ends with a value.
pub(crate) proof fn lemma_cover_bounds(values: Seq<u128>, least: Option<(u128, u128)>, k: int)
    requires
        values.len() > 0,
        0 <= k < cover(values, least).len(),
    ensures
        values.contains(cover(values, least)[k].0),
        values.contains(cover(values, least)[k].1),
    decreases values.len(),
{
    let all = cover(values, least);
    if values.len() == 1 {
        assert(values.contains(values[0]));
    } else {
        let before = cover(values.drop_last(), least);
        assert(values.contains(values.last()));
        assert forall|v: u128| values.drop_last().contains(v) implies values.contains(v) by {
            let i = choose|i: int| 0 <= i < values.len() - 1 && values.drop_last()[i] == v;
            assert(values[i] == v);
        }
        if k < before.len() {
            lemma_cover_bounds(values.drop_last(), least, k);
        }
    }
}

/// A compact space that is built of values, at whatever blanks it is cut, covers every one of
/// them. It begins with the smallest, whose compact value is 1, and ends with the largest, whose
/// compact value is the amplitude.
pub proof fn law_built_space_covers(
    ranges: Seq<RangeMapping>,
    values: Seq<u128>,
    least: Option<(u128, u128)>,
)
    requires
        ranges_wf(ranges),
        strictly_increasing(values),
        values.len() > 0,
        spans(ranges) == cover(values, least),
    ensures
        ranges.len() > 0,
        forall|i: int| 0 <= i < values.len() ==> covers(ranges, (#[trigger] values[i]) as int),
        ranges[0].start == values[0],
        ranges.last().end == values.last(),
        to_compact(ranges, values[0] as int) == Ok::<int, int>(1),
        to_compact(ranges, values.last() as int) == Ok::<int, int>(amplitude(ranges)),
{
    let all = cover(values, least);
    assert(spans(ranges).len() == ranges.len());
    assert forall|i: int| 0 <= i < values.len() implies covers(
        ranges,
        (#[trigger] values[i]) as int,
    ) by {
        lemma_cover_holds(values, least, i);
        let k = choose|k: int|
            0 <= k < all.len() && (#[trigger] all[k]).0 <= values[i] <= all[k].1;
        assert(spans(ranges)[k] == (ranges[k].start, ranges[k].end));
        assert(ranges[k].contains(values[i] as int));
    }
    lemma_built_space_ends(ranges, values, least);
}

/// Each range of a compact space that is built of values begins and ends with one of them.
pub proof fn law_built_ranges_are_tight(
    ranges: Seq<RangeMapping>,
    values: Seq<u128>,
    least: Option<(u128, u128)>,
    pos: int,
)
    requires
        strictly_increasing(values),
        values.len() > 0,
        spans(ranges) == cover(values, least),
        0 <= pos < ranges.len(),
    ensures
        values.contains(ranges[pos].start),
        values.contains(ranges[pos].end),
{
    assert(spans(ranges)[pos] == (ranges[pos].start, ranges[pos].end));
    lemma_cover_bounds(values, least, pos);
}

proof fn lemma_built_space_ends(
    ranges: Seq<RangeMapping>,
    values: Seq<u128>,
    least: Option<(u128, u128)>,
)
    requires
        ranges_wf(ranges),
        strictly_increasing(values),
        values.len() > 0,
        spans(ranges) == cover(values, least),
    ensures
        ranges.len() > 0,
        ranges[0].start == values[0],
        ranges.last().end == values.last(),
        to_compact(ranges, values[0] as int) == Ok::<int, int>(1),
        to_compact(ranges, values.last() as int) == Ok::<int, int>(amplitude(ranges)),
{
    lemma_cover_ends(values, least);
    let last = ranges.len() - 1;
    assert(spans(ranges).len() == ranges.len());
    assert(spans(ranges)[0] == (ranges[0].start, ranges[0].end));
    assert(spans(ranges)[last] == (ranges[last].start, ranges[last].end));
    lemma_to_compact_at(ranges, values[0] as int, 0);
    lemma_to_compact_at(ranges, values.last() as int, last);
}

/// The amplitude of a compact space is the number of the values of all its ranges.
pub proof fn law_amplitude_counts_values(ranges: Seq<RangeMapping>)
    requires
        ranges_wf(ranges),
        ranges.len() > 0,
    ensures
        amplitude(ranges) == total_len(spans(ranges)),
    decreases ranges.len(),
{
    let shorter = ranges.drop_last();
    assert(spans(ranges).drop_last() =~= spans(shorter));
    assert(spans(ranges).last() == (ranges.last().start, ranges.last().end));
    if shorter.len() > 0 {
        lemma_drop_last_wf(ranges);
        law_amplitude_counts_values(shorter);
        assert(follows_on(ranges, ranges.len() - 2));
    } else {
        assert(total_len(spans(shorter)) == 0);
    }
}

/// There are no more ranges than values, but for the one range that no values are given.
pub proof fn lemma_cover_len(values: Seq<u128>, least: Option<(u128, u128)>)
    ensures
        1 <= cover(values, least).len() <= values.len() + 1,
        values.len() > 0 ==> cover(values, least).len() <= values.len(),
    decreases values.len(),
{
    if values.len() > 1 {
        lemma_cover_len(values.drop_last(), least);
    }
}

proof fn lemma_total_len_bounds(values: Seq<u128>, least: Option<(u128, u128)>)
    requires
        strictly_increasing(values),
        values.len() > 0,
    ensures
        values.len() <= total_len(cover(values, least)) <= values.last() - values[0] + 1,
    decreases values.len(),
{
    if values.len() == 1 {
        assert(cover(values, least).drop_last() =~= Seq::empty());
        assert(total_len(Seq::empty()) == 0);
    } else {
        lemma_total_len_step(values, least);
        lemma_total_len_bounds(values.drop_last(), least);
        assert(values[values.len() - 2] < values.last());
    }
}

/// The compact space of values has room for each of them, and is no larger than the original
/// space from the smallest to the largest.
pub proof fn law_built_space_is_compact(
    ranges: Seq<RangeMapping>,
    values: Seq<u128>,
    least: Option<(u128, u128)>,
)
    requires
        ranges_wf(ranges),
        strictly_increasing(values),
        values.len() > 0,
        spans(ranges) == cover(values, least),
    ensures
        values.len() <= amplitude(ranges) <= values.last() - values[0] + 1,
{
    lemma_built_space_ends(ranges, values, least);
    law_amplitude_counts_values(ranges);
    lemma_total_len_bounds(values, least);
}

/// The cuts that are made save, over all the values, at least the bits that they cost.
pub proof fn law_cuts_pay_off(
    values: Seq<u128>,
    ranked: Seq<(u128, u128)>,
    seen: nat,
    total_num_values: u64,
    cost_per_blank: usize,
)
    ensures
        ({
            let cuts = num_cuts(
                values,
                ranked,
                seen as int,
                total_num_values as int,
                cost_per_blank as int,
            );
            cuts * cost_per_blank <= (bits_after(values, ranked, 0) - bits_after(
                values,
                ranked,
                cuts,
            )) * total_num_values
        }),
    decreases seen,
{
    if seen > 0 {
        law_cuts_pay_off(values, ranked, (seen - 1) as nat, total_num_values, cost_per_blank);
        let total = total_num_values as int;
        let cost = cost_per_blank as int;
        let kept = num_cuts(values, ranked, seen - 1, total, cost);
        let first = bits_after(values, ranked, 0);
        let middle = bits_after(values, ranked, kept);
        let last = bits_after(values, ranked, seen as int);
        assert((seen - kept) * cost + kept * cost == seen * cost) by (nonlinear_arith);
        assert((first - middle) * total + (middle - last) * total == (first - last) * total)
            by (nonlinear_arith);
    }
}

} // verus!
