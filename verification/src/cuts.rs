//! The segmentation of the columns that saves the most, found by dynamic
//! programming over a savings table, and the replay of a segmentation.
use crate::matrix::{cell_limit, is_savings_table, SavingsMatrix};
use vstd::prelude::*;

verus! {

/// The best total for the prefix `[0, j)` when the last segment may start
/// only at a column below `i`, or the prefix is left whole: the baseline is
/// cell `[0][j]`, and a split at `i - 1` counts only if it is strictly
/// better than what the columns before it gave.
pub open spec fn best_upto(t: Seq<Seq<i64>>, j: int, i: int) -> int
    decreases j, i,
{
    if 0 < i <= j {
        let before = best_upto(t, j, i - 1);
        let split = best_upto(t, i - 1, i - 1) + t[i - 1][j];
        if split > before {
            split
        } else {
            before
        }
    } else {
        t[0][j] as int
    }
}

/// The largest total saving over the segmentations of the prefix `[0, j)`.
pub open spec fn best_total(t: Seq<Seq<i64>>, j: int) -> int {
    best_upto(t, j, j)
}

/// The start of the last segment that the scan of the columns below `i` has
/// kept for the prefix `[0, j)`, if a split improved on the baseline.
pub open spec fn split_upto(t: Seq<Seq<i64>>, j: int, i: int) -> Option<int>
    decreases i,
{
    if 0 < i <= j {
        if best_total(t, i - 1) + t[i - 1][j] > best_upto(t, j, i - 1) {
            Some(i - 1)
        } else {
            split_upto(t, j, i - 1)
        }
    } else {
        None
    }
}

/// The start of the last segment in the chosen segmentation of `[0, j)`, or
/// `None` where the prefix is best left whole.
pub open spec fn best_split(t: Seq<Seq<i64>>, j: int) -> Option<int> {
    split_upto(t, j, j)
}

/// The interior cut points of the chosen segmentation of `[0, j)`, ascending.
pub open spec fn cut_path(t: Seq<Seq<i64>>, j: int) -> Seq<int>
    decreases j,
{
    match best_split(t, j) {
        Some(i) => if 0 <= i < j {
            cut_path(t, i).push(i)
        } else {
            Seq::empty()
        },
        None => Seq::empty(),
    }
}

/// The total saving of the segmentation of `[0, end)` at the boundaries
/// `cuts`: the sum of the cells of its consecutive segments.
pub open spec fn path_total(t: Seq<Seq<i64>>, cuts: Seq<int>, end: int) -> int
    decreases cuts.len(),
{
    if cuts.len() == 0 {
        t[0][end] as int
    } else {
        path_total(t, cuts.drop_last(), cuts.last()) + t[cuts.last()][end]
    }
}

/// Interior cut points of `[0, end)`: strictly increasing, none at 0 or `end`.
pub open spec fn is_cut_sequence(cuts: Seq<int>, end: int) -> bool {
    &&& forall|k: int| 0 <= k < cuts.len() ==> 0 < #[trigger] cuts[k] < end
    &&& forall|a: int, b: int| 0 <= a < b < cuts.len() ==> cuts[a] < cuts[b]
}

/// Cut points as mathematical integers.
pub open spec fn as_ints(cuts: Seq<usize>) -> Seq<int> {
    Seq::new(cuts.len(), |k: int| cuts[k] as int)
}

/// The best total of a prefix is never below its baseline, the saving of the
/// prefix taken as one segment.
pub proof fn lemma_baseline_never_beaten(t: Seq<Seq<i64>>, j: int)
    ensures
        best_total(t, j) >= t[0][j],
{
    lemma_upto_at_least_baseline(t, j, j);
}

proof fn lemma_upto_at_least_baseline(t: Seq<Seq<i64>>, j: int, i: int)
    ensures
        best_upto(t, j, i) >= t[0][j],
    decreases i,
{
    if 0 < i <= j {
        lemma_upto_at_least_baseline(t, j, i - 1);
    }
}

proof fn lemma_upto_dominates(t: Seq<Seq<i64>>, j: int, i: int, a: int)
    requires
        0 <= a < i <= j,
    ensures
        best_upto(t, j, i) >= best_total(t, a) + t[a][j],
    decreases i,
{
    if a < i - 1 {
        lemma_upto_dominates(t, j, i - 1, a);
    }
}

/// No split of the prefix `[0, j)` gives more than its best total.
pub proof fn lemma_best_total_dominates(t: Seq<Seq<i64>>, j: int, i: int)
    requires
        0 <= i < j,
    ensures
        best_total(t, j) >= best_total(t, i) + t[i][j],
{
    lemma_upto_dominates(t, j, j, i);
}

proof fn lemma_split_upto(t: Seq<Seq<i64>>, j: int, i: int)
    requires
        0 <= i <= j,
    ensures
        match split_upto(t, j, i) {
            None => best_upto(t, j, i) == t[0][j],
            Some(a) => {
                &&& 0 <= a < i
                &&& best_upto(t, j, i) == best_total(t, a) + t[a][j]
                &&& best_upto(t, j, i) > t[0][j]
                &&& forall|b: int| 0 <= b < a ==> best_total(t, b) + t[b][j] < best_upto(t, j, i)
                &&& forall|b: int| a <= b < i ==> best_total(t, b) + t[b][j] <= best_upto(t, j, i)
            },
        },
    decreases i,
{
    if 0 < i {
        lemma_split_upto(t, j, i - 1);
        lemma_upto_at_least_baseline(t, j, i - 1);
        assert forall|b: int| 0 <= b < i - 1 implies best_total(t, b) + t[b][j] <= best_upto(
            t,
            j,
            i - 1,
        ) by {
            lemma_upto_dominates(t, j, i - 1, b);
        }
    }
}

/// The chosen split is the first one that reaches the best total: the prefix
/// stays whole exactly when no split is strictly better than the baseline,
/// and among equally good splits the one at the smallest column is kept.
pub proof fn lemma_best_split_is_first(t: Seq<Seq<i64>>, j: int)
    requires
        0 <= j,
    ensures
        match best_split(t, j) {
            None => {
                &&& best_total(t, j) == t[0][j]
                &&& forall|b: int| 0 <= b < j ==> best_total(t, b) + t[b][j] <= t[0][j]
            },
            Some(a) => {
                &&& 0 <= a < j
                &&& best_total(t, j) == best_total(t, a) + t[a][j]
                &&& best_total(t, j) > t[0][j]
                &&& forall|b: int| 0 <= b < a ==> best_total(t, b) + t[b][j] < best_total(t, j)
            },
        },
{
    lemma_split_upto(t, j, j);
    assert forall|b: int| 0 <= b < j implies best_total(t, b) + t[b][j] <= best_total(t, j) by {
        lemma_best_total_dominates(t, j, b);
    }
}

/// Interior cut points are fewer than the columns that they cut: the cut
/// point at position `k` is at least `k + 1`.
pub proof fn lemma_cut_sequence_is_short(cuts: Seq<int>, end: int)
    requires
        is_cut_sequence(cuts, end),
    ensures
        forall|k: int| 0 <= k < cuts.len() ==> #[trigger] cuts[k] >= k + 1,
        cuts.len() == 0 || cuts.len() < end,
    decreases cuts.len(),
{
    if cuts.len() > 0 {
        let rest = cuts.drop_last();
        assert(is_cut_sequence(rest, end)) by {
            assert forall|k: int| 0 <= k < rest.len() implies 0 < #[trigger] rest[k] < end by {
                assert(rest[k] == cuts[k]);
            }
        }
        lemma_cut_sequence_is_short(rest, end);
        if cuts.len() > 1 {
            assert(rest[cuts.len() - 2] == cuts[cuts.len() - 2]);
            assert(cuts[cuts.len() - 2] < cuts[cuts.len() - 1]);
        }
        assert forall|k: int| 0 <= k < cuts.len() implies #[trigger] cuts[k] >= k + 1 by {
            if k < rest.len() {
                assert(rest[k] == cuts[k]);
            }
        }
        assert(cuts[cuts.len() - 1] < end);
    }
}

/// In a savings table the chosen cut points of a prefix are interior and
/// strictly increasing.
pub proof fn lemma_cut_path_is_cut_sequence(t: Seq<Seq<i64>>, width: nat, j: int)
    requires
        is_savings_table(t, width),
        0 <= j <= width,
    ensures
        is_cut_sequence(cut_path(t, j), j),
    decreases j,
{
    lemma_best_split_is_first(t, j);
    match best_split(t, j) {
        Some(i) => {
            lemma_cut_path_is_cut_sequence(t, width, i);
            assert(i != 0) by {
                assert(t[0][0] == 0);
            }
        },
        None => {},
    }
}

/// Replaying the chosen cut points of a prefix gives its best total.
pub proof fn lemma_cut_path_total(t: Seq<Seq<i64>>, j: int)
    requires
        0 <= j,
    ensures
        path_total(t, cut_path(t, j), j) == best_total(t, j),
    decreases j,
{
    lemma_best_split_is_first(t, j);
    match best_split(t, j) {
        Some(i) => {
            lemma_cut_path_total(t, i);
            let p = cut_path(t, i).push(i);
            assert(p.drop_last() =~= cut_path(t, i));
            assert(p.last() == i);
        },
        None => {},
    }
}

/// No segmentation of the prefix `[0, j)` saves more than its best total.
pub proof fn lemma_best_total_is_maximal(t: Seq<Seq<i64>>, cuts: Seq<int>, j: int)
    requires
        0 <= j,
        is_cut_sequence(cuts, j),
    ensures
        path_total(t, cuts, j) <= best_total(t, j),
    decreases cuts.len(),
{
    if cuts.len() == 0 {
        lemma_baseline_never_beaten(t, j);
    } else {
        let last = cuts.last();
        let rest = cuts.drop_last();
        assert(is_cut_sequence(rest, last)) by {
            assert forall|k: int| 0 <= k < rest.len() implies 0 < #[trigger] rest[k] < last by {
                assert(rest[k] == cuts[k]);
            }
        }
        lemma_best_total_is_maximal(t, rest, last);
        lemma_best_total_dominates(t, j, last);
    }
}

proof fn lemma_limit_fits(width: nat, k: int)
    requires
        0 <= k <= width + 1,
    ensures
        0 <= cell_limit(width),
        0 <= k * cell_limit(width) <= i64::MAX,
        (k + 1) * cell_limit(width) == k * cell_limit(width) + cell_limit(width),
{
    let d = (width + 1) as int;
    let m = i64::MAX as int;
    let l = cell_limit(width);
    assert(0 <= l && l * d <= m) by (nonlinear_arith)
        requires
            d > 0,
            m >= 0,
            l == m / d,
    ;
    assert(0 <= k * l <= l * d) by (nonlinear_arith)
        requires
            0 <= k <= d,
            0 <= l,
    ;
    assert((k + 1) * l == k * l + l) by (nonlinear_arith);
}

proof fn lemma_upto_within(t: Seq<Seq<i64>>, width: nat, j: int, i: int)
    requires
        is_savings_table(t, width),
        0 <= i <= j <= width,
    ensures
        -((i + 1) * cell_limit(width)) <= best_upto(t, j, i) <= (i + 1) * cell_limit(width),
    decreases j, i,
{
    lemma_limit_fits(width, i);
    lemma_limit_fits(width, i + 1);
    if i == 0 {
        if j == 0 {
            assert(t[0][0] == 0);
        } else {
            assert(-cell_limit(width) <= t[0][j] <= cell_limit(width));
        }
    } else {
        lemma_upto_within(t, width, j, i - 1);
        lemma_upto_within(t, width, i - 1, i - 1);
        assert(-cell_limit(width) <= t[i - 1][j] <= cell_limit(width));
    }
}

proof fn lemma_path_total_within(t: Seq<Seq<i64>>, width: nat, cuts: Seq<int>, end: int)
    requires
        is_savings_table(t, width),
        0 <= end <= width,
        cuts.len() <= width,
        forall|k: int| 0 <= k < cuts.len() ==> 0 <= #[trigger] cuts[k] <= width,
    ensures
        -((cuts.len() + 1) * cell_limit(width)) <= path_total(t, cuts, end) <= (cuts.len() + 1)
            * cell_limit(width),
    decreases cuts.len(),
{
    lemma_limit_fits(width, cuts.len() as int);
    let from = if cuts.len() == 0 {
        0
    } else {
        cuts.last()
    };
    assert(-cell_limit(width) <= t[from][end] <= cell_limit(width)) by {
        if from >= end {
            assert(t[from][end] == 0);
        }
    }
    if cuts.len() > 0 {
        lemma_path_total_within(t, width, cuts.drop_last(), cuts.last());
    }
}

/// For every prefix length `j` up to the width of the table: the largest
/// total saving over the segmentations of `[0, j)`, and the cut points of the
/// segmentation that reaches it. A split replaces the current best only if it
/// is strictly better, and the columns are tried in ascending order.
pub fn find_optimal_cuts(s_mat: &SavingsMatrix) -> (found: (Vec<i64>, Vec<Vec<usize>>))
    ensures
        found.0@.len() == s_mat.spec_width() + 1,
        found.1@.len() == s_mat.spec_width() + 1,
        forall|j: int|
            0 <= j <= s_mat.spec_width() ==> #[trigger] found.0@[j] == best_total(s_mat@, j),
        forall|j: int|
            0 <= j <= s_mat.spec_width() ==> as_ints(#[trigger] found.1@[j]@) == cut_path(
                s_mat@,
                j,
            ),
        forall|j: int| 0 <= j <= s_mat.spec_width() ==> #[trigger] found.0@[j] >= s_mat@[0][j],
        forall|j: int|
            0 <= j <= s_mat.spec_width() ==> is_cut_sequence(as_ints(#[trigger] found.1@[j]@), j)
                && found.1@[j]@.len() <= j,
        forall|j: int, k: int|
            0 <= j <= s_mat.spec_width() && 0 <= k < found.1@[j]@.len() ==> 0
                < #[trigger] found.1@[j]@[k] < j,
        forall|j: int|
            0 <= j <= s_mat.spec_width() ==> path_total(s_mat@, as_ints(#[trigger] found.1@[j]@), j)
                == found.0@[j],
        forall|j: int, cuts: Seq<int>|
            0 <= j <= s_mat.spec_width() && is_cut_sequence(cuts, j) ==> #[trigger] path_total(
                s_mat@,
                cuts,
                j,
            ) <= found.0@[j],
{
    let width = s_mat.width();
    let ghost t = s_mat@;
    let mut s: Vec<i64> = Vec::new();
    let mut path: Vec<Vec<usize>> = Vec::new();
    let mut j: usize = 0;
    while j <= width
        invariant
            width == s_mat.spec_width(),
            width < usize::MAX,
            t == s_mat@,
            is_savings_table(t, width as nat),
            j <= width + 1,
            s@.len() == j,
            path@.len() == j,
            forall|a: int| 0 <= a < j ==> #[trigger] s@[a] == best_total(t, a),
            forall|a: int| 0 <= a < j ==> as_ints(#[trigger] path@[a]@) == cut_path(t, a),
        decreases width + 1 - j,
    {
        let mut best: i64 = s_mat.get(0, j);
        let mut best_i: Option<usize> = None;
        let mut i: usize = 0;
        while i < j
            invariant
                width == s_mat.spec_width(),
                t == s_mat@,
                is_savings_table(t, width as nat),
                i <= j <= width,
                s@.len() == j,
                forall|a: int| 0 <= a < j ==> #[trigger] s@[a] == best_total(t, a),
                best == best_upto(t, j as int, i as int),
                match best_i {
                    Some(a) => a < i && split_upto(t, j as int, i as int) == Some(a as int),
                    None => split_upto(t, j as int, i as int) is None,
                },
            decreases j - i,
        {
            proof {
                lemma_upto_within(t, width as nat, i as int, i as int);
                lemma_limit_fits(width as nat, i as int + 1);
                lemma_limit_fits(width as nat, i as int + 2);
                assert(-cell_limit(width as nat) <= t[i as int][j as int] <= cell_limit(
                    width as nat,
                ));
            }
            let better: i64 = s[i] + s_mat.get(i, j);
            if best < better {
                best = better;
                best_i = Some(i);
            }
            i += 1;
        }
        s.push(best);
        let pathj: Vec<usize> = match best_i {
            Some(a) => {
                let mut before = path[a].clone();
                before.push(a);
                assert(as_ints(before@) =~= cut_path(t, a as int).push(a as int)) by {
                    assert(before@.drop_last() =~= path@[a as int]@);
                    assert(as_ints(path@[a as int]@) == cut_path(t, a as int));
                }
                before
            },
            None => Vec::new(),
        };
        assert(as_ints(pathj@) =~= cut_path(t, j as int));
        path.push(pathj);
        j += 1;
    }
    proof {
        assert forall|a: int| 0 <= a <= width implies #[trigger] s@[a] >= t[0][a] by {
            lemma_baseline_never_beaten(t, a);
        }
        assert forall|a: int| 0 <= a <= width implies is_cut_sequence(
            as_ints(#[trigger] path@[a]@),
            a,
        ) && path@[a]@.len() <= a && path_total(t, as_ints(path@[a]@), a) == s@[a] by {
            lemma_cut_path_is_cut_sequence(t, width as nat, a);
            lemma_cut_sequence_is_short(cut_path(t, a), a);
            lemma_cut_path_total(t, a);
        }
        assert forall|a: int, k: int| 0 <= a <= width && 0 <= k < path@[a]@.len() implies 0
            < #[trigger] path@[a]@[k] < a by {
            assert(as_ints(path@[a]@)[k] == path@[a]@[k]);
        }
        assert forall|a: int, cuts: Seq<int>|
            0 <= a <= width && is_cut_sequence(cuts, a) implies #[trigger] path_total(t, cuts, a)
            <= s@[a] by {
            lemma_best_total_is_maximal(t, cuts, a);
        }
    }
    (s, path)
}

/// The total saving of the segmentation of all columns at the boundaries
/// `cuts`, replayed from column 0 to the last column.
pub fn get_savings(cuts: &Vec<usize>, s_mat: &SavingsMatrix) -> (total: i64)
    requires
        cuts@.len() <= s_mat.spec_width(),
        forall|k: int| 0 <= k < cuts@.len() ==> #[trigger] cuts@[k] <= s_mat.spec_width(),
    ensures
        total == path_total(s_mat@, as_ints(cuts@), s_mat.spec_width() as int),
{
    let width = s_mat.width();
    let ghost t = s_mat@;
    let ghost ints = as_ints(cuts@);
    let mut start: usize = 0;
    let mut ret: i64 = 0;
    let mut k: usize = 0;
    while k < cuts.len()
        invariant
            width == s_mat.spec_width(),
            t == s_mat@,
            ints == as_ints(cuts@),
            is_savings_table(t, width as nat),
            cuts@.len() <= width,
            forall|a: int| 0 <= a < cuts@.len() ==> #[trigger] cuts@[a] <= width,
            k <= cuts@.len(),
            start <= width,
            k == 0 ==> start == 0 && ret == 0,
            k > 0 ==> start == cuts@[k - 1] && ret == path_total(
                t,
                ints.take(k - 1),
                ints[k - 1],
            ),
        decreases cuts@.len() - k,
    {
        let c = cuts[k];
        proof {
            let upto = ints.take(k as int);
            assert(upto.len() == k);
            if k > 0 {
                assert(upto.drop_last() =~= ints.take(k - 1));
                assert(upto.last() == ints[k - 1]);
                lemma_path_total_within(t, width as nat, ints.take(k - 1), ints[k - 1]);
            }
            lemma_path_total_within(t, width as nat, upto, c as int);
            lemma_limit_fits(width as nat, k as int + 1);
            assert(path_total(t, upto, c as int) == ret + t[start as int][c as int]);
        }
        ret = ret + s_mat.get(start, c);
        start = c;
        k += 1;
    }
    proof {
        if k > 0 {
            assert(ints.drop_last() =~= ints.take(k - 1));
            assert(ints.last() == ints[k - 1]);
            lemma_path_total_within(t, width as nat, ints.take(k - 1), ints[k - 1]);
        }
        lemma_path_total_within(t, width as nat, ints, width as int);
        lemma_limit_fits(width as nat, k as int + 1);
    }
    ret + s_mat.get(start, width)
}

} // verus!
