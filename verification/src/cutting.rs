//! The ways to cut the space of values at blanks, what each of them costs, and that the compact
//! space is built by the best of them.
use vstd::prelude::*;

use crate::bits::{bit_len, lemma_bit_len_monotone};
use crate::builder::{
    bits_after, blank_at, cover, extent_after, is_cut, law_amplitude_counts_values, least_cut,
    lemma_cover_bounds, lemma_cover_ends, lemma_cover_holds, lemma_sum_remove,
    lemma_total_len_ranked, num_cuts, pays_off, spans, sum_sizes, total_len, wide_blanks,
};
use crate::order::{
    descending, lemma_descending, pair_less, pairs_decreasing, strictly_increasing,
};
use crate::space::{amplitude, covers, ranges_wf, RangeMapping};

verus! {

/// Whether one of `spans`, each given by its first and its last number, holds `value`.
pub open spec fn in_spans(spans: Seq<(u128, u128)>, value: int) -> bool {
    exists|k: int| 0 <= k < spans.len() && (#[trigger] spans[k]).0 <= value <= spans[k].1
}

/// Whether `spans` are what is left of the space of `values` when it is cut at some of its blanks:
/// each begins and ends with a value, they hold all the values, they are in ascending order, and
/// at least three numbers are left out between each two.
pub open spec fn is_cutting(values: Seq<u128>, spans: Seq<(u128, u128)>) -> bool {
    &&& forall|k: int| #![trigger spans[k]]
        0 <= k < spans.len() ==> spans[k].0 <= spans[k].1 && values.contains(spans[k].0)
            && values.contains(spans[k].1)
    &&& forall|i: int| 0 <= i < values.len() ==> #[trigger] in_spans(spans, values[i] as int)
    &&& forall|j: int, k: int|
        0 <= j < k < spans.len() ==> (#[trigger] spans[k]).0 - (#[trigger] spans[j]).1 - 1 >= 3
}

/// The bits that a cutting takes: `cost_per_blank` for every blank that is cut out, and for each of
/// `total_num_values` rows as many as the numbers that are left, and null, can be told apart with.
/// (Numbers are counted up to `u128::MAX`.)
pub open spec fn cutting_cost(
    spans: Seq<(u128, u128)>,
    total_num_values: int,
    cost_per_blank: int,
) -> int {
    (spans.len() - 1) * cost_per_blank + total_num_values * bit_len(
        if total_len(spans) > u128::MAX {
            u128::MAX as nat
        } else {
            total_len(spans) as nat
        },
    )
}

/// Whether the cutting `spans` takes fewer bits than the cutting `other` or, with as many bits,
/// fewer ranges or, with as many ranges, no more numbers.
pub open spec fn is_no_worse(
    spans: Seq<(u128, u128)>,
    other: Seq<(u128, u128)>,
    total_num_values: int,
    cost_per_blank: int,
) -> bool {
    let cost = cutting_cost(spans, total_num_values, cost_per_blank);
    let other_cost = cutting_cost(other, total_num_values, cost_per_blank);
    ||| cost < other_cost
    ||| cost == other_cost && spans.len() < other.len()
    ||| cost == other_cost && spans.len() == other.len() && total_len(spans) <= total_len(other)
}

/// Whether `spans` is a cutting of the space of `values` that no other cutting is better than.
pub open spec fn is_best_cutting(
    values: Seq<u128>,
    spans: Seq<(u128, u128)>,
    total_num_values: int,
    cost_per_blank: int,
) -> bool {
    &&& is_cutting(values, spans)
    &&& forall|other: Seq<(u128, u128)>| #[trigger]
        is_cutting(values, other) ==> is_no_worse(spans, other, total_num_values, cost_per_blank)
}

/// The blanks between neighbouring `spans`.
spec fn gaps(spans: Seq<(u128, u128)>) -> Seq<(u128, u128)> {
    Seq::new(
        (spans.len() - 1) as nat,
        |j: int| ((spans[j + 1].0 - spans[j].1 - 1) as u128, (spans[j].1 + 1) as u128),
    )
}

proof fn lemma_total_len_gaps(spans: Seq<(u128, u128)>)
    requires
        spans.len() > 0,
        forall|j: int, k: int|
            0 <= j < k < spans.len() ==> (#[trigger] spans[k]).0 > (#[trigger] spans[j]).1,
    ensures
        total_len(spans) == spans.last().1 - spans[0].0 + 1 - sum_sizes(gaps(spans)),
    decreases spans.len(),
{
    let shorter = spans.drop_last();
    if spans.len() == 1 {
        assert(total_len(shorter) == 0);
        assert(gaps(spans) =~= Seq::empty());
    } else {
        lemma_total_len_gaps(shorter);
        assert(gaps(spans).drop_last() =~= gaps(shorter));
        assert(spans[spans.len() - 1].0 > spans[spans.len() - 2].1);
    }
}

/// A cutting begins with the first value, ends with the last, and its gaps are wide blanks between
/// neighbouring values.
proof fn lemma_cutting_gaps(values: Seq<u128>, spans: Seq<(u128, u128)>)
    requires
        strictly_increasing(values),
        values.len() > 0,
        is_cutting(values, spans),
    ensures
        spans.len() > 0,
        spans[0].0 == values[0],
        spans.last().1 == values.last(),
        forall|j: int|
            0 <= j < spans.len() - 1 ==> wide_blanks(values).contains(#[trigger] gaps(spans)[j]),
        gaps(spans).no_duplicates(),
{
    assert(in_spans(spans, values[0] as int));
    assert(in_spans(spans, values[values.len() - 1] as int));
    let n = spans.len();
    let first = choose|k: int|
        0 <= k < n && (#[trigger] spans[k]).0 <= values[0] <= spans[k].1;
    let last = choose|k: int|
        0 <= k < n && (#[trigger] spans[k]).0 <= values.last() <= spans[k].1;
    let a = choose|a: int| 0 <= a < values.len() && values[a] == spans[0].0;
    let b = choose|b: int| 0 <= b < values.len() && values[b] == spans[n - 1].1;
    assert(values.contains(spans[0].0));
    assert(values.contains(spans[n - 1].1));
    assert(a > 0 ==> values[0] < values[a]);
    assert(b < values.len() - 1 ==> values[b] < values[values.len() - 1]);
    assert(first > 0 ==> spans[first].0 > spans[0].1);
    assert(last < n - 1 ==> spans[n - 1].0 > spans[last].1);
    assert forall|j: int| 0 <= j < n - 1 implies wide_blanks(values).contains(
        #[trigger] gaps(spans)[j],
    ) by {
        let end = spans[j].1;
        let start = spans[j + 1].0;
        assert(values.contains(end));
        assert(values.contains(start));
        let i = choose|i: int| 0 <= i < values.len() && values[i] == end;
        let i2 = choose|i2: int| 0 <= i2 < values.len() && values[i2] == start;
        assert(start > end);
        assert(i2 > i) by {
            if i2 < i {
                assert(values[i2] < values[i]);
            }
        }
        if i2 > i + 1 {
            assert(values[i] < values[i + 1] < values[i2]);
            assert(in_spans(spans, values[i + 1] as int));
            let k = choose|k: int|
                0 <= k < n && (#[trigger] spans[k]).0 <= values[i + 1] <= spans[k].1;
            if k < j {
                assert(spans[j].0 > spans[k].1);
                assert(spans[j].0 <= spans[j].1);
            } else if k > j + 1 {
                assert(spans[k].0 > spans[j + 1].1);
                assert(spans[j + 1].0 <= spans[j + 1].1);
            }
            assert(false);
        }
        assert(blank_at(values, i) == gaps(spans)[j]);
    }
    assert forall|i: int, j: int| 0 <= i < n - 1 && 0 <= j < n - 1 && i != j implies gaps(spans)[i]
        != gaps(spans)[j] by {
        let (x, y) = if i < j {
            (i, j)
        } else {
            (j, i)
        };
        assert(spans[y].0 > spans[x].1);
        assert(spans[y].0 <= spans[y].1);
    }
}

/// No blanks are wider together than as many of the widest.
proof fn lemma_widest_blanks(
    ranked: Seq<(u128, u128)>,
    blanks: Seq<(u128, u128)>,
    r: int,
)
    requires
        pairs_decreasing(ranked),
        0 <= r <= ranked.len(),
        blanks.no_duplicates(),
        forall|j: int| 0 <= j < blanks.len() ==> ranked.take(r).contains(#[trigger] blanks[j]),
    ensures
        blanks.len() <= r,
        sum_sizes(blanks) <= sum_sizes(ranked.take(blanks.len() as int)),
    decreases r,
{
    if r == 0 {
        if blanks.len() > 0 {
            assert(ranked.take(0).contains(blanks[0]));
        }
        assert(blanks =~= ranked.take(0));
    } else {
        let least = ranked[r - 1];
        if blanks.contains(least) {
            let k = choose|k: int| 0 <= k < blanks.len() && blanks[k] == least;
            let rest = blanks.remove(k);
            lemma_sum_remove(blanks, k);
            assert forall|j: int| 0 <= j < rest.len() implies ranked.take(r - 1).contains(
                #[trigger] rest[j],
            ) by {
                let at = if j < k {
                    j
                } else {
                    j + 1
                };
                assert(rest[j] == blanks[at]);
                assert(ranked.take(r).contains(blanks[at]));
                let i = choose|i: int| 0 <= i < r && ranked.take(r)[i] == blanks[at];
                assert(blanks[at] != blanks[k]);
                assert(i < r - 1);
                assert(ranked.take(r - 1)[i] == rest[j]);
            }
            lemma_widest_blanks(ranked, rest, r - 1);
            let m = blanks.len() as int;
            assert(ranked.take(m).drop_last() =~= ranked.take(m - 1));
            assert(m < r ==> pair_less(ranked[r - 1], ranked[m - 1]));
        } else {
            assert forall|j: int| 0 <= j < blanks.len() implies ranked.take(r - 1).contains(
                #[trigger] blanks[j],
            ) by {
                assert(ranked.take(r).contains(blanks[j]));
                let i = choose|i: int| 0 <= i < r && ranked.take(r)[i] == blanks[j];
                assert(i < r - 1);
                assert(ranked.take(r - 1)[i] == blanks[j]);
            }
            lemma_widest_blanks(ranked, blanks, r - 1);
        }
    }
}

proof fn lemma_wide_blanks_finite(values: Seq<u128>)
    ensures
        wide_blanks(values).finite(),
    decreases values.len(),
{
    if values.len() <= 1 {
        assert(wide_blanks(values) =~= Set::empty());
    } else {
        let shorter = values.drop_last();
        let last = values.len() - 2;
        let blank = blank_at(values, last);
        lemma_wide_blanks_finite(shorter);
        let all = wide_blanks(shorter).insert(blank);
        assert forall|b: (u128, u128)| wide_blanks(values).contains(b) implies all.contains(b) by {
            let i = choose|i: int|
                0 <= i < values.len() - 1 && #[trigger] blank_at(values, i) == b;
            if i < last {
                assert(blank_at(shorter, i) == b);
            }
        }
        vstd::set_lib::lemma_len_subset(wide_blanks(values), all);
    }
}

/// The bits that it takes to cut out the first `cuts` of the ranked blanks.
spec fn ranked_cost(
    values: Seq<u128>,
    ranked: Seq<(u128, u128)>,
    cuts: int,
    total_num_values: int,
    cost_per_blank: int,
) -> int {
    cuts * cost_per_blank + total_num_values * bits_after(values, ranked, cuts)
}

/// The number of blanks that are cut out takes the fewest bits, and is the least that does.
proof fn lemma_num_cuts_least(
    values: Seq<u128>,
    ranked: Seq<(u128, u128)>,
    seen: int,
    total: int,
    cost: int,
)
    requires
        0 <= seen,
    ensures
        0 <= num_cuts(values, ranked, seen, total, cost) <= seen,
        forall|m: int|
            0 <= m <= seen ==> ranked_cost(
                values,
                ranked,
                num_cuts(values, ranked, seen, total, cost),
                total,
                cost,
            ) <= #[trigger] ranked_cost(values, ranked, m, total, cost),
        forall|m: int|
            0 <= m < num_cuts(values, ranked, seen, total, cost) ==> ranked_cost(
                values,
                ranked,
                num_cuts(values, ranked, seen, total, cost),
                total,
                cost,
            ) < #[trigger] ranked_cost(values, ranked, m, total, cost),
    decreases seen,
{
    if seen > 0 {
        lemma_num_cuts_least(values, ranked, seen - 1, total, cost);
        let kept = num_cuts(values, ranked, seen - 1, total, cost);
        let x = bits_after(values, ranked, kept);
        let y = bits_after(values, ranked, seen);
        assert((seen - kept) * cost == seen * cost - kept * cost) by (nonlinear_arith);
        assert((x - y) * total == total * x - total * y) by (nonlinear_arith);
        assert(pays_off(values, ranked, kept, seen, total, cost) <==> ranked_cost(
            values,
            ranked,
            seen,
            total,
            cost,
        ) < ranked_cost(values, ranked, kept, total, cost));
    }
}

/// Neighbouring ranges of a cover end and begin with neighbouring values, and the blank between
/// these is cut out.
proof fn lemma_cover_gap(values: Seq<u128>, least: Option<(u128, u128)>, k: int) -> (i: int)
    requires
        strictly_increasing(values),
        values.len() > 0,
        0 <= k < cover(values, least).len() - 1,
    ensures
        0 <= i < values.len() - 1,
        cover(values, least)[k].1 == values[i],
        cover(values, least)[k + 1].0 == values[i + 1],
        is_cut(blank_at(values, i), least),
    decreases values.len(),
{
    if values.len() == 1 {
        0
    } else {
        let shorter = values.drop_last();
        let before = cover(shorter, least);
        lemma_cover_ends(shorter, least);
        if k < before.len() - 1 {
            let i = lemma_cover_gap(shorter, least, k);
            assert(blank_at(shorter, i) == blank_at(values, i));
            i
        } else {
            values.len() - 2
        }
    }
}

proof fn lemma_cover_in_order(values: Seq<u128>, least: Option<(u128, u128)>, j: int, k: int)
    requires
        strictly_increasing(values),
        values.len() > 0,
        0 <= j < k < cover(values, least).len(),
    ensures
        cover(values, least)[j].1 <= cover(values, least)[k - 1].1 < cover(values, least)[k].0,
    decreases k - j,
{
    lemma_cover_ends(values, least);
    let all = cover(values, least);
    let i = lemma_cover_gap(values, least, k - 1);
    assert(values[i] < values[i + 1]);
    if j < k - 1 {
        lemma_cover_in_order(values, least, j, k - 1);
        assert(all[k - 1].0 <= all[k - 1].1);
    }
}

/// What the blanks from `least` on leave is a cutting, if only wide blanks are among them.
proof fn lemma_cover_is_cutting(values: Seq<u128>, least: Option<(u128, u128)>)
    requires
        strictly_increasing(values),
        values.len() > 0,
        least matches Some(limit) ==> limit.0 >= 3,
    ensures
        is_cutting(values, cover(values, least)),
{
    let all = cover(values, least);
    lemma_cover_ends(values, least);
    assert forall|k: int| #![trigger all[k]] 0 <= k < all.len() implies all[k].0 <= all[k].1
        && values.contains(all[k].0) && values.contains(all[k].1) by {
        lemma_cover_bounds(values, least, k);
    }
    assert forall|i: int| 0 <= i < values.len() implies #[trigger] in_spans(
        all,
        values[i] as int,
    ) by {
        lemma_cover_holds(values, least, i);
    }
    assert forall|j: int, k: int| 0 <= j < k < all.len() implies (#[trigger] all[k]).0 - (
    #[trigger] all[j]).1 - 1 >= 3 by {
        lemma_cover_in_order(values, least, j, k);
        let i = lemma_cover_gap(values, least, k - 1);
        assert(values[i] < values[i + 1]);
        assert(blank_at(values, i).0 >= 3);
    }
}

/// No cutting with as many cuts leaves fewer numbers than that at the widest blanks.
proof fn lemma_cutting_bound(
    values: Seq<u128>,
    ranked: Seq<(u128, u128)>,
    other: Seq<(u128, u128)>,
)
    requires
        strictly_increasing(values),
        values.len() > 0,
        pairs_decreasing(ranked),
        ranked.to_set() == wide_blanks(values),
        is_cutting(values, other),
    ensures
        1 <= other.len() <= ranked.len() + 1,
        total_len(other) >= extent_after(values, ranked, other.len() - 1) + 1,
{
    lemma_cutting_gaps(values, other);
    assert forall|j: int, k: int| 0 <= j < k < other.len() implies (#[trigger] other[k]).0 > (
    #[trigger] other[j]).1 by {}
    lemma_total_len_gaps(other);
    let blanks = gaps(other);
    assert(ranked.take(ranked.len() as int) =~= ranked);
    assert forall|j: int| 0 <= j < blanks.len() implies ranked.take(
        ranked.len() as int,
    ).contains(#[trigger] blanks[j]) by {
        assert(ranked.to_set().contains(blanks[j]));
    }
    lemma_widest_blanks(ranked, blanks, ranked.len() as int);
}

/// The cutting at the blanks that are counted to be cut out is the best.
proof fn lemma_counted_cuts_are_best(values: Seq<u128>, total: int, cost: int) -> (best: Seq<
    (u128, u128),
>)
    requires
        strictly_increasing(values),
        values.len() > 0,
        total >= 0,
    ensures
        is_best_cutting(values, best, total, cost),
        total_len(best) <= u64::MAX ==> best == cover(values, least_cut(values, total, cost)),
        total_len(best) > u64::MAX ==> least_cut(values, total, cost) == Some((1u128, 0u128)),
{
    let ranked = descending(wide_blanks(values));
    lemma_wide_blanks_finite(values);
    lemma_descending(wide_blanks(values));
    let cuts = num_cuts(values, ranked, ranked.len() as int, total, cost);
    lemma_num_cuts_least(values, ranked, ranked.len() as int, total, cost);
    let least = if cuts == 0 {
        None
    } else {
        Some(ranked[cuts - 1])
    };
    if cuts > 0 {
        assert(ranked.to_set().contains(ranked[cuts - 1]));
    }
    let best = cover(values, least);
    lemma_total_len_ranked(values, ranked, cuts);
    lemma_cover_is_cutting(values, least);
    assert(cutting_cost(best, total, cost) == ranked_cost(values, ranked, cuts, total, cost));
    assert forall|other: Seq<(u128, u128)>| #[trigger] is_cutting(values, other) implies is_no_worse(
        best,
        other,
        total,
        cost,
    ) by {
        let m = other.len() - 1;
        lemma_cutting_bound(values, ranked, other);
        lemma_total_len_ranked(values, ranked, m);
        let x = extent_after(values, ranked, m) + 1;
        let y = total_len(other);
        let bits_x = bits_after(values, ranked, m);
        let bits_y = bit_len(
            if y > u128::MAX {
                u128::MAX as nat
            } else {
                y as nat
            },
        );
        lemma_bit_len_monotone(
            if x > u128::MAX {
                u128::MAX as nat
            } else {
                x as nat
            },
            if y > u128::MAX {
                u128::MAX as nat
            } else {
                y as nat
            },
        );
        assert(total * bits_x <= total * bits_y) by (nonlinear_arith)
            requires
                total >= 0,
                bits_x <= bits_y,
        ;
        assert(ranked_cost(values, ranked, m, total, cost) <= cutting_cost(other, total, cost));
    }
    best
}

/// The numbers of a blank are in the cover exactly if the blank is not cut out.
proof fn lemma_cover_blank(values: Seq<u128>, least: Option<(u128, u128)>, i: int, x: int)
    requires
        strictly_increasing(values),
        0 <= i < values.len() - 1,
        values[i] < x < values[i + 1],
    ensures
        in_spans(cover(values, least), x) <==> !is_cut(blank_at(values, i), least),
    decreases values.len(),
{
    let all = cover(values, least);
    let shorter = values.drop_last();
    let before = cover(shorter, least);
    let last = values.len() - 2;
    let n = before.len() as int;
    lemma_cover_ends(shorter, least);
    assert(i < last ==> values[i + 1] <= values[last]);
    assert(values[last] < values[last + 1]);
    if i < last {
        lemma_cover_blank(shorter, least, i, x);
        assert(blank_at(shorter, i) == blank_at(values, i));
        if in_spans(before, x) {
            let k = choose|k: int| 0 <= k < n && (#[trigger] before[k]).0 <= x <= before[k].1;
            assert(all[k].0 <= x <= all[k].1);
        }
        if in_spans(all, x) {
            let k = choose|k: int|
                0 <= k < all.len() && (#[trigger] all[k]).0 <= x <= all[k].1;
            assert(k < n);
            assert(before[k].0 <= x <= before[k].1);
        }
    } else if is_cut(blank_at(values, i), least) {
        assert forall|k: int| 0 <= k < all.len() implies !((#[trigger] all[k]).0 <= x
            <= all[k].1) by {
            if k < n {
                assert(before[k].1 <= values[last]);
            }
        }
    } else {
        assert(before[n - 1].0 <= values[last]);
        assert(all[n - 1].0 <= x <= all[n - 1].1);
    }
}

/// A number between the first value and the last is a value or lies in a blank.
proof fn lemma_value_or_blank(values: Seq<u128>, x: int) -> (i: int)
    requires
        strictly_increasing(values),
        values.len() > 0,
        values[0] <= x <= values.last(),
    ensures
        0 <= i < values.len(),
        values[i] <= x,
        i < values.len() - 1 ==> x < values[i + 1],
        i == values.len() - 1 ==> x == values[i],
    decreases values.len(),
{
    if x == values.last() {
        values.len() - 1
    } else if x >= values[values.len() - 2] {
        values.len() - 2
    } else {
        lemma_value_or_blank(values.drop_last(), x)
    }
}

/// Whether some range holds `x` can be told by the first and last numbers of the ranges.
proof fn lemma_covers_in_spans(ranges: Seq<RangeMapping>, x: int)
    ensures
        covers(ranges, x) <==> in_spans(spans(ranges), x),
{
    let all = spans(ranges);
    assert(all.len() == ranges.len());
    if covers(ranges, x) {
        let k = choose|k: int| 0 <= k < ranges.len() && (#[trigger] ranges[k]).contains(x);
        assert(all[k].0 <= x <= all[k].1);
    }
    if in_spans(all, x) {
        let k = choose|k: int| 0 <= k < all.len() && (#[trigger] all[k]).0 <= x <= all[k].1;
        assert(ranges[k].contains(x));
    }
}

/// Cut at every blank, the cover holds values alone.
proof fn lemma_all_cut_holds_values(values: Seq<u128>, x: int)
    requires
        strictly_increasing(values),
        values.len() > 0,
        in_spans(cover(values, Some((1, 0))), x),
    ensures
        0 <= x <= u128::MAX,
        values.contains(x as u128),
{
    let least = Some((1u128, 0u128));
    let all = cover(values, least);
    lemma_cover_ends(values, least);
    let k = choose|k: int| 0 <= k < all.len() && (#[trigger] all[k]).0 <= x <= all[k].1;
    assert(values[0] <= all[k].0 && all[k].1 <= values.last());
    let i = lemma_value_or_blank(values, x);
    if x != values[i] {
        lemma_cover_blank(values, least, i, x);
        assert(false);
    }
    assert(values.contains(values[i]));
}

/// The compact space of values is made of the best cutting of their space: no other way to cut
/// blanks of three numbers or more out of it takes fewer bits over all the rows, the cost of the
/// cuts included. Only where even the best cutting leaves more numbers than 64 bits can count, every
/// blank is cut out, so that nothing but the values themselves is left.
pub proof fn law_built_space_is_best(
    ranges: Seq<RangeMapping>,
    values: Seq<u128>,
    total_num_values: u64,
    cost_per_blank: usize,
) -> (best: Seq<(u128, u128)>)
    requires
        strictly_increasing(values),
        values.len() > 0,
        spans(ranges) == cover(
            values,
            least_cut(values, total_num_values as int, cost_per_blank as int),
        ),
    ensures
        is_best_cutting(values, best, total_num_values as int, cost_per_blank as int),
        total_len(best) <= u64::MAX ==> spans(ranges) == best,
        total_len(best) > u64::MAX ==> forall|x: u128| #[trigger]
            covers(ranges, x as int) ==> values.contains(x),
{
    let best = lemma_counted_cuts_are_best(
        values,
        total_num_values as int,
        cost_per_blank as int,
    );
    if total_len(best) > u64::MAX {
        assert forall|x: u128| #[trigger] covers(ranges, x as int) implies values.contains(x) by {
            lemma_covers_in_spans(ranges, x as int);
            lemma_all_cut_holds_values(values, x as int);
        }
    }
    best
}

/// What is cut out pays: the cuts of a compact space do not cost more than they save, over all the
/// rows, against the whole space from the smallest value to the largest. (That is unless the best
/// cutting leaves more numbers than 64 bits can count.)
pub proof fn law_cuts_save_their_cost(
    ranges: Seq<RangeMapping>,
    values: Seq<u128>,
    total_num_values: u64,
    cost_per_blank: usize,
)
    requires
        ranges_wf(ranges),
        strictly_increasing(values),
        values.len() > 0,
        spans(ranges) == cover(
            values,
            least_cut(values, total_num_values as int, cost_per_blank as int),
        ),
    ensures
        (ranges.len() - 1) * cost_per_blank <= total_num_values * (bit_len(
            if values.last() - values[0] >= u128::MAX {
                u128::MAX as nat
            } else {
                (values.last() - values[0] + 1) as nat
            },
        ) - bit_len(amplitude(ranges) as nat)) || exists|best: Seq<(u128, u128)>|
            is_best_cutting(values, best, total_num_values as int, cost_per_blank as int)
                && total_len(best) > u64::MAX,
{
    let total = total_num_values as int;
    let cost = cost_per_blank as int;
    let best = law_built_space_is_best(ranges, values, total_num_values, cost_per_blank);
    if total_len(best) <= u64::MAX {
        let uncut = seq![(values[0], values.last())];
        lemma_uncut_is_cutting(values);
        assert(is_no_worse(best, uncut, total, cost));
        assert(uncut.drop_last() =~= Seq::empty());
        assert(total_len(uncut.drop_last()) == 0);
        assert(best.len() == ranges.len());
        lemma_cover_ends(values, least_cut(values, total, cost));
        law_amplitude_counts_values(ranges);
        let x = bit_len(
            if values.last() - values[0] >= u128::MAX {
                u128::MAX as nat
            } else {
                (values.last() - values[0] + 1) as nat
            },
        ) as int;
        let y = bit_len(amplitude(ranges) as nat) as int;
        assert(cutting_cost(uncut, total, cost) == total * x) by {
            assert((uncut.len() - 1) * cost == 0) by (nonlinear_arith)
                requires
                    uncut.len() == 1,
            ;
        }
        assert(total * (x - y) == total * x - total * y) by (nonlinear_arith);
    }
}

proof fn lemma_uncut_is_cutting(values: Seq<u128>)
    requires
        strictly_increasing(values),
        values.len() > 0,
    ensures
        is_cutting(values, seq![(values[0], values.last())]),
{
    let uncut = seq![(values[0], values.last())];
    assert(values.contains(values[0]));
    assert(values.contains(values[values.len() - 1]));
    assert forall|i: int| 0 <= i < values.len() implies #[trigger] in_spans(
        uncut,
        values[i] as int,
    ) by {
        assert(i > 0 ==> values[0] < values[i]);
        assert(i < values.len() - 1 ==> values[i] < values.last());
        assert(uncut[0].0 <= values[i] <= uncut[0].1);
    }
}

/// What would pay is cut out: cutting the space of the values in any other way, at more blanks or
/// at fewer, does not save more bits, over all the rows, than the further cuts cost. (That is
/// unless the best cutting leaves more numbers than 64 bits can count.)
pub proof fn law_paying_cuts_are_made(
    ranges: Seq<RangeMapping>,
    values: Seq<u128>,
    total_num_values: u64,
    cost_per_blank: usize,
    other: Seq<(u128, u128)>,
)
    requires
        ranges_wf(ranges),
        strictly_increasing(values),
        values.len() > 0,
        spans(ranges) == cover(
            values,
            least_cut(values, total_num_values as int, cost_per_blank as int),
        ),
        is_cutting(values, other),
        total_len(other) <= u128::MAX,
    ensures
        (other.len() - ranges.len()) * cost_per_blank >= total_num_values * (bit_len(
            amplitude(ranges) as nat,
        ) - bit_len(total_len(other) as nat)) || exists|best: Seq<(u128, u128)>|
            is_best_cutting(values, best, total_num_values as int, cost_per_blank as int)
                && total_len(best) > u64::MAX,
{
    let total = total_num_values as int;
    let cost = cost_per_blank as int;
    let best = law_built_space_is_best(ranges, values, total_num_values, cost_per_blank);
    if total_len(best) <= u64::MAX {
        assert(is_no_worse(best, other, total, cost));
        assert(best.len() == ranges.len());
        lemma_cover_ends(values, least_cut(values, total, cost));
        law_amplitude_counts_values(ranges);
        let x = bit_len(amplitude(ranges) as nat) as int;
        let y = bit_len(total_len(other) as nat) as int;
        let m = other.len() as int;
        let n = ranges.len() as int;
        assert(cutting_cost(best, total, cost) == (n - 1) * cost + total * x);
        assert(cutting_cost(other, total, cost) == (m - 1) * cost + total * y);
        assert(total * (x - y) == total * x - total * y) by (nonlinear_arith);
        assert((m - n) * cost == (m - 1) * cost - (n - 1) * cost) by (nonlinear_arith);
    }
}

/// A blank is cut out as a whole or not at all, and none is kept before a greater one, or one of
/// the same size behind it, is kept.
pub proof fn law_greatest_blanks_are_cut(
    ranges: Seq<RangeMapping>,
    values: Seq<u128>,
    total_num_values: u64,
    cost_per_blank: usize,
    i: int,
    j: int,
    x: int,
    y: int,
)
    requires
        strictly_increasing(values),
        spans(ranges) == cover(
            values,
            least_cut(values, total_num_values as int, cost_per_blank as int),
        ),
        0 <= i < values.len() - 1,
        0 <= j < values.len() - 1,
        values[i] < x < values[i + 1],
        values[j] < y < values[j + 1],
        !covers(ranges, x),
        covers(ranges, y),
    ensures
        values[j + 1] - values[j] < values[i + 1] - values[i] || (values[j + 1] - values[j]
            == values[i + 1] - values[i] && j < i),
{
    let least = least_cut(values, total_num_values as int, cost_per_blank as int);
    lemma_covers_in_spans(ranges, x);
    lemma_covers_in_spans(ranges, y);
    lemma_cover_blank(values, least, i, x);
    lemma_cover_blank(values, least, j, y);
    assert(j > i ==> values[j] > values[i]);
    assert(pair_less(blank_at(values, j), blank_at(values, i)));
}

/// Two ranges of a compact space that is built of values do not touch: between them lies a blank,
/// and what bounds it are neighbouring values.
pub proof fn law_built_ranges_are_apart(
    ranges: Seq<RangeMapping>,
    values: Seq<u128>,
    total_num_values: u64,
    cost_per_blank: usize,
    pos: int,
) -> (i: int)
    requires
        strictly_increasing(values),
        values.len() > 0,
        spans(ranges) == cover(
            values,
            least_cut(values, total_num_values as int, cost_per_blank as int),
        ),
        0 <= pos < ranges.len() - 1,
    ensures
        0 <= i < values.len() - 1,
        ranges[pos].end == values[i],
        ranges[pos + 1].start == values[i + 1],
        ranges[pos + 1].start - ranges[pos].end > 1,
{
    let total = total_num_values as int;
    let cost = cost_per_blank as int;
    let least = least_cut(values, total, cost);
    assert(spans(ranges).len() == ranges.len());
    assert(spans(ranges)[pos] == (ranges[pos].start, ranges[pos].end));
    assert(spans(ranges)[pos + 1] == (ranges[pos + 1].start, ranges[pos + 1].end));
    let i = lemma_cover_gap(values, least, pos);
    assert(values[i] < values[i + 1]);
    let best = lemma_counted_cuts_are_best(values, total, cost);
    if total_len(best) <= u64::MAX {
        assert(best[pos + 1].0 - best[pos].1 - 1 >= 3);
    } else {
        assert(blank_at(values, i).0 >= 1);
    }
    i
}

} // verus!
