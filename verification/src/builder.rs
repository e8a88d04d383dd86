//! The savings table of a rule set: for every column range, what coding it
//! with a dictionary saves.
use crate::cost::{
    lemma_net_saving_bounded, net_saving, saving_limit, segment_saving, MAX_INDEX_BITS,
};
use crate::matrix::{cell_limit, is_savings_table, SavingsMatrix};
use crate::rules::RuleSet;
use rayon::iter::{IntoParallelIterator, ParallelIterator};
use std::collections::hash_map::DefaultHasher;
use std::collections::HashSet;
use std::hash::Hasher;
use vstd::prelude::*;
use vstd::std_specs::hash::DefaultHasherAdditionalSpecFns;

verus! {

/// The fingerprint of a pattern: what the default hasher of the standard
/// library gives for its symbols, written to it at once.
pub open spec fn fingerprint(pattern: Seq<u8>) -> u64 {
    DefaultHasher::spec_finish(seq![pattern])
}

/// The fingerprints of the patterns that the rules have in the columns
/// `[i, j)`, rule by rule.
pub open spec fn pattern_fingerprints(rules: Seq<Seq<u8>>, i: int, j: int) -> Seq<u64> {
    Seq::new(rules.len(), |r: int| fingerprint(rules[r].subrange(i, j)))
}

/// The number of distinct fingerprints among the patterns that the rules
/// have in the columns `[i, j)`. Two patterns with one fingerprint count
/// once.
pub open spec fn distinct_patterns(rules: Seq<Seq<u8>>, i: int, j: int) -> nat {
    pattern_fingerprints(rules, i, j).to_set().len()
}

/// The net saving of coding the columns `[i, j)` of the rules as one
/// segment.
pub open spec fn segment_net_saving(rules: Seq<Seq<u8>>, i: int, j: int) -> int {
    net_saving(rules.len(), (j - i) as nat, distinct_patterns(rules, i, j))
}

/// Whether `row` is row `i` of the savings table of the rules: the net
/// saving of `[i, j)` in each column `j` behind `i`, zero in the others.
pub open spec fn is_savings_row(rules: Seq<Seq<u8>>, width: nat, i: int, row: Seq<i64>) -> bool {
    &&& row.len() == width + 1
    &&& forall|j: int|
        0 <= j <= width ==> #[trigger] row[j] == if i < j {
            segment_net_saving(rules, i, j)
        } else {
            0
        }
}

/// Whether the savings of `n` rules of `width` symbols, summed over any
/// segmentation, stay within 64 bits.
pub open spec fn fits_table(n: nat, width: nat) -> bool {
    &&& width < usize::MAX
    &&& saving_limit(n, width) <= cell_limit(width)
}

/// There are no more distinct patterns than rules.
pub proof fn lemma_distinct_patterns_bounded(rules: Seq<Seq<u8>>, i: int, j: int)
    ensures
        distinct_patterns(rules, i, j) <= rules.len(),
{
    pattern_fingerprints(rules, i, j).lemma_cardinality_of_set();
}

/// The net saving of a segment stays within the limit for its rule set.
pub proof fn lemma_segment_net_saving_bounded(rules: Seq<Seq<u8>>, width: nat, i: int, j: int)
    requires
        rules.len() <= usize::MAX,
        0 <= i < j <= width,
    ensures
        -saving_limit(rules.len(), width) <= segment_net_saving(rules, i, j) <= saving_limit(
            rules.len(),
            width,
        ),
{
    lemma_distinct_patterns_bounded(rules, i, j);
    lemma_net_saving_bounded(rules.len(), (j - i) as nat, distinct_patterns(rules, i, j), width);
}

/// The net saving of a segment does not depend on the order of the rules.
pub proof fn lemma_saving_ignores_order(a: Seq<Seq<u8>>, b: Seq<Seq<u8>>, i: int, j: int)
    requires
        a.to_multiset() == b.to_multiset(),
    ensures
        distinct_patterns(a, i, j) == distinct_patterns(b, i, j),
        segment_net_saving(a, i, j) == segment_net_saving(b, i, j),
{
    a.to_multiset_ensures();
    b.to_multiset_ensures();
    let fa = pattern_fingerprints(a, i, j);
    let fb = pattern_fingerprints(b, i, j);
    assert forall|h: u64| fa.to_set().contains(h) <==> fb.to_set().contains(h) by {
        if fa.to_set().contains(h) {
            let r = choose|r: int| 0 <= r < fa.len() && fa[r] == h;
            assert(a.contains(a[r]));
            assert(a.to_multiset().count(a[r]) > 0);
            assert(b.to_multiset().count(a[r]) > 0);
            assert(b.contains(a[r]));
            let q = choose|q: int| 0 <= q < b.len() && b[q] == a[r];
            assert(fb[q] == h);
        }
        if fb.to_set().contains(h) {
            let r = choose|r: int| 0 <= r < fb.len() && fb[r] == h;
            assert(b.contains(b[r]));
            assert(b.to_multiset().count(b[r]) > 0);
            assert(a.to_multiset().count(b[r]) > 0);
            assert(a.contains(b[r]));
            let q = choose|q: int| 0 <= q < a.len() && a[q] == b[r];
            assert(fa[q] == h);
        }
    }
    assert(fa.to_set() =~= fb.to_set());
}

/// The fingerprint of `pattern`.
pub fn fingerprint_of(pattern: &[u8]) -> (h: u64)
    ensures
        h == fingerprint(pattern@),
{
    let mut state = DefaultHasher::new();
    state.write(pattern);
    assert(state@ =~= seq![pattern@]);
    state.finish()
}

/// The number of distinct fingerprints among the patterns that the rules
/// have in the columns `[i, j)`.
pub fn count_distinct(rules: &RuleSet, i: usize, j: usize) -> (k: usize)
    requires
        i <= j <= rules.spec_width(),
    ensures
        k == distinct_patterns(rules@, i as int, j as int),
        k <= rules@.len(),
{
    let n = rules.len();
    let width = rules.width();
    let ghost all = pattern_fingerprints(rules@, i as int, j as int);
    let mut seen: HashSet<u64> = HashSet::new();
    let mut r: usize = 0;
    assert(all.take(0) =~= Seq::empty());
    assert(all.take(0).to_set() =~= Set::empty());
    while r < n
        invariant
            r <= n,
            n == rules@.len(),
            width == rules.spec_width(),
            i <= j <= width,
            crate::rules::is_rule_set(rules@, width as nat),
            all == pattern_fingerprints(rules@, i as int, j as int),
            seen@ == all.take(r as int).to_set(),
        decreases n - r,
    {
        let rule = rules.rule(r);
        let h = fingerprint_of(&rule[i..j]);
        proof {
            assert(all.take(r + 1) =~= all.take(r as int).push(h));
            all.take(r as int).lemma_push_to_set_commute(h);
        }
        seen.insert(h);
        r += 1;
    }
    proof {
        assert(all.take(n as int) =~= all);
        all.lemma_cardinality_of_set();
    }
    seen.len()
}

/// Whether the savings of `n` rules of `width` symbols fit a table.
pub fn table_fits(n: usize, width: usize) -> (fits: bool)
    ensures
        fits == fits_table(n as nat, width as nat),
{
    if width == usize::MAX {
        return false;
    }
    let limit: u128 = i64::MAX as u128 / (width as u128 + 1);
    let top: u128 = width as u128 + MAX_INDEX_BITS as u128;
    assert(limit == cell_limit(width as nat));
    if n == 0 {
        assert(saving_limit(0, width as nat) == 0) by (nonlinear_arith);
        return true;
    }
    if top > limit || n as u128 > limit {
        assert(saving_limit(n as nat, width as nat) > limit) by (nonlinear_arith)
            requires
                top > limit || n > limit,
                n >= 1,
                top >= 64,
                top == width + MAX_INDEX_BITS,
                limit >= 0,
        ;
        return false;
    }
    assert(top * (n as u128) <= 0x8000_0000_0000_0000 * 0x8000_0000_0000_0000) by (nonlinear_arith)
        requires
            top <= 0x8000_0000_0000_0000,
            n <= 0x8000_0000_0000_0000,
    ;
    2 * (top * n as u128) <= limit
}

/// Row `i` of the savings table of `rules`.
pub fn savings_row(rules: &RuleSet, i: usize) -> (row: Vec<i64>)
    requires
        i <= rules.spec_width(),
        fits_table(rules@.len(), rules.spec_width()),
    ensures
        is_savings_row(rules@, rules.spec_width(), i as int, row@),
{
    let n = rules.len();
    let width = rules.width();
    let mut row: Vec<i64> = Vec::new();
    let mut j: usize = 0;
    while j <= width
        invariant
            n == rules@.len(),
            width == rules.spec_width(),
            i <= width,
            fits_table(n as nat, width as nat),
            j <= width + 1,
            row@.len() == j,
            forall|a: int|
                0 <= a < j ==> #[trigger] row@[a] == if i < a {
                    segment_net_saving(rules@, i as int, a)
                } else {
                    0
                },
        decreases width + 1 - j,
    {
        if i < j {
            let k = count_distinct(rules, i, j);
            proof {
                let top = (width + MAX_INDEX_BITS) as int;
                let part = (j - i + MAX_INDEX_BITS) as int;
                assert(2 * (part * n) <= 2 * (top * n)) by (nonlinear_arith)
                    requires
                        0 <= part <= top,
                        0 <= n,
                ;
                assert(cell_limit(width as nat) <= i64::MAX);
            }
            row.push(segment_saving(n, j - i, k));
        } else {
            row.push(0);
        }
        j += 1;
    }
    row
}

/// Computes the `count` rows of the savings table on the worker threads of
/// `rayon`: `into_par_iter().map(..).collect()` on a range. Trusted: the
/// result has one item for each number of the range, in ascending order, and
/// item `i` is what the closure returned for `i`. The closure is one call of
/// `savings_row`, whose contract is proved.
#[verifier::external_body]
fn savings_rows(rules: &RuleSet, count: usize) -> (rows: Vec<Vec<i64>>)
    requires
        count == rules.spec_width() + 1,
        fits_table(rules@.len(), rules.spec_width()),
    ensures
        rows@.len() == count,
        forall|i: int|
            0 <= i < count ==> is_savings_row(
                rules@,
                rules.spec_width(),
                i,
                (#[trigger] rows@[i])@,
            ),
{
    (0..count).into_par_iter().map(|i| savings_row(rules, i)).collect()
}

/// The number of rules and their savings table: cell `[i][j]` with `i < j`
/// is the net saving of the columns `[i, j)`. `None` where the savings do not
/// fit a table.
pub fn build_s_mat(rules: &RuleSet) -> (built: Option<(usize, SavingsMatrix)>)
    ensures
        built is Some <==> fits_table(rules@.len(), rules.spec_width()),
        built is Some ==> {
            let (n, s_mat) = built->0;
            &&& n == rules@.len()
            &&& s_mat.spec_width() == rules.spec_width()
            &&& is_savings_table(s_mat@, rules.spec_width())
            &&& forall|i: int, j: int|
                0 <= i < j <= rules.spec_width() ==> #[trigger] s_mat@[i][j] == segment_net_saving(
                    rules@,
                    i,
                    j,
                )
        },
{
    let n = rules.len();
    let width = rules.width();
    if !table_fits(n, width) {
        return None;
    }
    let cells = savings_rows(rules, width + 1);
    proof {
        let t = Seq::new(cells@.len(), |i: int| cells@[i]@);
        assert forall|i: int, j: int| 0 <= i <= width && 0 <= j <= width implies #[trigger] t[i][j]
            == if i < j {
            segment_net_saving(rules@, i, j)
        } else {
            0
        } by {
            assert(is_savings_row(rules@, width as nat, i, cells@[i]@));
        }
        assert forall|i: int| 0 <= i <= width implies (#[trigger] t[i]).len() == width + 1 by {
            assert(is_savings_row(rules@, width as nat, i, cells@[i]@));
        }
        assert forall|i: int, j: int| 0 <= i < j <= width implies -cell_limit(width as nat)
            <= #[trigger] t[i][j] <= cell_limit(width as nat) by {
            lemma_segment_net_saving_bounded(rules@, width as nat, i, j);
        }
    }
    Some((n, SavingsMatrix::from_table(width, cells)))
}

} // verus!
