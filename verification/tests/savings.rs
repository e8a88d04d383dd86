use rustcuts::builder::{
    build_s_mat, count_distinct, fingerprint_of, savings_row, table_fits,
};
use rustcuts::cost::{index_bits, segment_saving};
use rustcuts::cuts::{find_optimal_cuts, get_savings};
use rustcuts::matrix::SavingsMatrix;
use rustcuts::rules::load_data;
use std::collections::hash_map::DefaultHasher;
use std::hash::{Hash, Hasher};

fn ceil_log2(k: usize) -> i64 {
    let mut b = 0;
    while (1u128 << b) < k as u128 {
        b += 1;
    }
    b
}

fn net(n: usize, w: usize, k: usize) -> i64 {
    let b = ceil_log2(k);
    let saving = (w as i64 - b) * n as i64;
    let cost = if w > 20 { k as i64 * (w as i64 + b) } else { 0 };
    saving - cost
}

fn distinct(rules: &[&str], i: usize, j: usize) -> usize {
    let mut seen: Vec<&str> = Vec::new();
    for rule in rules {
        if !seen.contains(&&rule[i..j]) {
            seen.push(&rule[i..j]);
        }
    }
    seen.len()
}

fn table(rules: &[&str], width: usize) -> Vec<Vec<i64>> {
    let mut rows = vec![vec![0i64; width + 1]; width + 1];
    for i in 0..=width {
        for j in i + 1..=width {
            rows[i][j] = net(rules.len(), j - i, distinct(rules, i, j));
        }
    }
    rows
}

fn cells(m: &SavingsMatrix) -> Vec<Vec<i64>> {
    let w = m.width();
    (0..=w).map(|i| (0..=w).map(|j| m.get(i, j)).collect()).collect()
}

fn upper(width: usize, f: impl Fn(usize, usize) -> i64) -> SavingsMatrix {
    let mut rows = vec![vec![0i64; width + 1]; width + 1];
    for i in 0..=width {
        for j in i + 1..=width {
            rows[i][j] = f(i, j);
        }
    }
    SavingsMatrix::from_rows(rows).unwrap()
}

fn replay(m: &SavingsMatrix, cuts: &[usize]) -> i64 {
    let mut start = 0;
    let mut total = 0;
    for &c in cuts {
        total += m.get(start, c);
        start = c;
    }
    total + m.get(start, m.width())
}

fn best_by_search(m: &SavingsMatrix, end: usize) -> i64 {
    let mut best = i64::MIN;
    let interior = end.saturating_sub(1);
    for mask in 0u32..(1 << interior) {
        let mut start = 0;
        let mut total = 0;
        for c in 1..end {
            if mask & (1 << (c - 1)) != 0 {
                total += m.get(start, c);
                start = c;
            }
        }
        total += m.get(start, end);
        best = best.max(total);
    }
    best
}

#[test]
fn index_bits_is_the_ceiling_of_the_logarithm() {
    let expected = [0u32, 0, 1, 2, 2, 3, 3, 3, 3, 4, 4, 4, 4, 4, 4, 4, 4, 5];
    for (k, b) in expected.iter().enumerate() {
        assert_eq!(index_bits(k), *b, "k = {}", k);
    }
    assert_eq!(index_bits(1 << 20), 20);
    assert_eq!(index_bits((1 << 20) + 1), 21);
    assert_eq!(index_bits((1 << 53) + 1), 54);
    assert_eq!(index_bits(usize::MAX), usize::BITS);
}

#[test]
fn segment_saving_of_a_narrow_segment_has_no_cost() {
    assert_eq!(segment_saving(4, 2, 2), 4);
    assert_eq!(segment_saving(4, 2, 1), 8);
    assert_eq!(segment_saving(4, 4, 2), 12);
    assert_eq!(segment_saving(10, 20, 3), 180);
    assert_eq!(segment_saving(4, 1, 4), -4);
}

#[test]
fn segment_saving_of_a_wide_segment_pays_for_the_dictionary() {
    assert_eq!(segment_saving(10, 21, 3), 121);
    assert_eq!(segment_saving(4, 21, 1), 63);
    assert_eq!(segment_saving(4, 42, 4), -16);
    assert_eq!(segment_saving(1000, 104, 600), 94000 - 600 * 114);
}

#[test]
fn segment_saving_without_rules_is_zero() {
    assert_eq!(segment_saving(0, 104, 0), 0);
    assert_eq!(segment_saving(0, usize::MAX, 0), 0);
}

#[test]
fn fingerprint_is_that_of_the_default_hasher() {
    let pattern = b"01_0";
    let mut state = DefaultHasher::default();
    Hash::hash_slice(&pattern[..], &mut state);
    assert_eq!(fingerprint_of(pattern), state.finish());
    assert_eq!(fingerprint_of(b"01_0"), fingerprint_of(&b"x01_0"[1..]));
    assert_ne!(fingerprint_of(b"01_0"), fingerprint_of(b"01_1"));
    assert_ne!(fingerprint_of(b""), fingerprint_of(b"0"));
}

#[test]
fn count_distinct_counts_patterns_once() {
    let rules = load_data("0000\n0000\n1100\n1100\n", 4).unwrap();
    assert_eq!(count_distinct(&rules, 0, 2), 2);
    assert_eq!(count_distinct(&rules, 2, 4), 1);
    assert_eq!(count_distinct(&rules, 0, 4), 2);
    assert_eq!(count_distinct(&rules, 1, 1), 1);
    let none = load_data("", 4).unwrap();
    assert_eq!(count_distinct(&none, 0, 4), 0);
}

#[test]
fn table_fits_unless_the_savings_leave_64_bits() {
    assert!(table_fits(0, 0));
    assert!(table_fits(0, usize::MAX - 1));
    assert!(!table_fits(0, usize::MAX));
    assert!(table_fits(4, 4));
    assert!(table_fits(1_000_000, 104));
    // 2 * (104 + 64) * n <= i64::MAX / 105
    let most = (i64::MAX / 105 / 336) as usize;
    assert!(table_fits(most, 104));
    assert!(!table_fits(most + 1, 104));
    assert!(!table_fits(usize::MAX, 104));
    assert!(!table_fits(1, usize::MAX - 1));
}

#[test]
fn savings_row_holds_the_segments_that_start_at_its_column() {
    let text = ["0000", "0000", "1100", "1100"];
    let rules = load_data("0000\n0000\n1100\n1100\n", 4).unwrap();
    for i in 0..=4 {
        assert_eq!(savings_row(&rules, i), table(&text, 4)[i]);
    }
    assert_eq!(savings_row(&rules, 0), vec![0, 0, 4, 8, 12]);
    assert_eq!(savings_row(&rules, 2), vec![0, 0, 0, 4, 8]);
    assert_eq!(savings_row(&rules, 4), vec![0, 0, 0, 0, 0]);
}

#[test]
fn build_s_mat_fills_the_cells_above_the_diagonal() {
    let text = ["0000", "0000", "1100", "1100"];
    let rules = load_data("0000\n0000\n1100\n1100\n", 4).unwrap();
    let (n, s_mat) = build_s_mat(&rules).unwrap();
    assert_eq!(n, 4);
    assert_eq!(s_mat.width(), 4);
    assert_eq!(cells(&s_mat), table(&text, 4));
    for i in 0..=4 {
        for j in 0..=i {
            assert_eq!(s_mat.get(i, j), 0);
        }
    }
}

#[test]
fn build_s_mat_of_no_rules_is_zero() {
    let rules = load_data("", 3).unwrap();
    let (n, s_mat) = build_s_mat(&rules).unwrap();
    assert_eq!(n, 0);
    assert_eq!(cells(&s_mat), vec![vec![0; 4]; 4]);
}

#[test]
fn build_s_mat_does_not_depend_on_the_order_of_the_rules() {
    let a = load_data("0101\n0_10\n1111\n0101\n", 4).unwrap();
    let b = load_data("1111\n0101\n0101\n0_10\n", 4).unwrap();
    assert_eq!(cells(&build_s_mat(&a).unwrap().1), cells(&build_s_mat(&b).unwrap().1));
}

#[test]
fn scenario_two_patterns_then_one() {
    let rules = load_data("0000\n0000\n1100\n1100\n", 4).unwrap();
    assert_eq!(count_distinct(&rules, 0, 2), 2);
    assert_eq!(count_distinct(&rules, 2, 4), 1);
    let (n, s_mat) = build_s_mat(&rules).unwrap();
    assert_eq!(n, 4);
    assert_eq!(s_mat.get(0, 2), 4);
    assert_eq!(s_mat.get(2, 4), 8);
    assert_eq!(s_mat.get(0, 4), 12);
    let (s, path) = find_optimal_cuts(&s_mat);
    assert_eq!(s[4], s_mat.get(0, 2) + s_mat.get(2, 4));
    assert_eq!(s[4], 12);
    // The whole range has two patterns as well: the cut at 2 only ties with
    // the baseline, and a tie is not taken.
    assert_eq!(count_distinct(&rules, 0, 4), 2);
    assert_eq!(path[4], Vec::<usize>::new());
    assert_eq!(get_savings(&vec![2], &s_mat), s[4]);
    assert_eq!(get_savings(&path[4], &s_mat), s[4]);
}

#[test]
fn wide_rules_are_cut_where_the_dictionary_costs_less() {
    let constant = "0".repeat(21);
    let lines: Vec<String> = ["00", "01", "10", "11"]
        .iter()
        .map(|tail| format!("{}{}{}", constant, "1".repeat(19), tail))
        .collect();
    let text: Vec<&str> = lines.iter().map(|l| l.as_str()).collect();
    let rules = load_data(&lines.join("\n"), 42).unwrap();
    let (n, s_mat) = build_s_mat(&rules).unwrap();
    assert_eq!(n, 4);
    assert_eq!(cells(&s_mat), table(&text, 42));
    assert_eq!(s_mat.get(0, 42), -16);
    let (s, path) = find_optimal_cuts(&s_mat);
    assert_eq!(s.len(), 43);
    assert_eq!(path.len(), 43);
    assert!(s[42] > s_mat.get(0, 42));
    assert!(!path[42].is_empty());
    assert_eq!(get_savings(&path[42], &s_mat), s[42]);
    assert_eq!(replay(&s_mat, &path[42]), s[42]);
    // Cut into pieces of at most 20 columns no dictionary is paid for: every
    // column of the first 40 is saved whole, and the last two take two bits.
    assert_eq!(s[42], 4 * 42 - 4 * 2);
}

#[test]
fn from_rows_takes_a_savings_table_only() {
    assert!(SavingsMatrix::from_rows(Vec::new()).is_none());
    assert!(SavingsMatrix::from_rows(vec![vec![0]]).is_some());
    assert!(SavingsMatrix::from_rows(vec![vec![1]]).is_none());
    assert!(SavingsMatrix::from_rows(vec![vec![0, 5], vec![0, 0]]).is_some());
    assert!(SavingsMatrix::from_rows(vec![vec![0, 5], vec![1, 0]]).is_none());
    assert!(SavingsMatrix::from_rows(vec![vec![0, 5], vec![0]]).is_none());
    assert!(SavingsMatrix::from_rows(vec![vec![0, 5, 1], vec![0, 0, 1]]).is_none());
    let limit = i64::MAX / 2;
    assert!(SavingsMatrix::from_rows(vec![vec![0, limit], vec![0, 0]]).is_some());
    assert!(SavingsMatrix::from_rows(vec![vec![0, -limit], vec![0, 0]]).is_some());
    assert!(SavingsMatrix::from_rows(vec![vec![0, limit + 1], vec![0, 0]]).is_none());
    assert!(SavingsMatrix::from_rows(vec![vec![0, -limit - 1], vec![0, 0]]).is_none());
    let m = SavingsMatrix::from_rows(vec![vec![0, 5, 7], vec![0, 0, -3], vec![0, 0, 0]]).unwrap();
    assert_eq!(m.width(), 2);
    assert_eq!(m.get(0, 1), 5);
    assert_eq!(m.get(0, 2), 7);
    assert_eq!(m.get(1, 2), -3);
    assert_eq!(m.get(2, 1), 0);
}

#[test]
fn optimizer_on_the_smallest_tables() {
    let m = upper(0, |_, _| 0);
    assert_eq!(find_optimal_cuts(&m), (vec![0], vec![vec![]]));
    assert_eq!(get_savings(&Vec::new(), &m), 0);
    let m = upper(1, |_, _| -7);
    assert_eq!(find_optimal_cuts(&m), (vec![0, -7], vec![vec![], vec![]]));
    assert_eq!(get_savings(&Vec::new(), &m), -7);
}

#[test]
fn optimizer_takes_a_split_only_if_it_is_strictly_better() {
    // Every segmentation of three columns gives 3.
    let m = upper(3, |i, j| (j - i) as i64);
    let (s, path) = find_optimal_cuts(&m);
    assert_eq!(s, vec![0, 1, 2, 3]);
    assert_eq!(path, vec![Vec::<usize>::new(); 4]);
}

#[test]
fn optimizer_keeps_the_smallest_of_equally_good_splits() {
    // A segment of one column gives 1, a longer one 0: the splits at 1 and at
    // 2 of three columns are equally good once the prefixes are settled.
    let m = upper(3, |i, j| if j - i == 1 { 1 } else { 0 });
    let (s, path) = find_optimal_cuts(&m);
    assert_eq!(s, vec![0, 1, 2, 3]);
    assert_eq!(path, vec![vec![], vec![], vec![1], vec![1, 2]]);
    // Splits at 1 and 2 of [0, 3) with the tails as single segments.
    let m = SavingsMatrix::from_rows(vec![
        vec![0, 2, 2, 0],
        vec![0, 0, 0, 5],
        vec![0, 0, 0, 5],
        vec![0, 0, 0, 0],
    ])
    .unwrap();
    let (s, path) = find_optimal_cuts(&m);
    assert_eq!(s, vec![0, 2, 2, 7]);
    assert_eq!(path[3], vec![1]);
    assert_eq!(get_savings(&vec![1], &m), 7);
    assert_eq!(get_savings(&vec![2], &m), 7);
}

#[test]
fn optimizer_finds_the_best_segmentation() {
    let mut seed: u64 = 0x9E37_79B9_7F4A_7C15;
    for round in 0..40 {
        let width = 1 + round % 9;
        let mut values = Vec::new();
        for _ in 0..(width + 1) * (width + 1) {
            seed = seed.wrapping_mul(6364136223846793005).wrapping_add(1442695040888963407);
            values.push(((seed >> 33) % 41) as i64 - 20);
        }
        let m = upper(width, |i, j| values[i * (width + 1) + j]);
        let (s, path) = find_optimal_cuts(&m);
        assert_eq!(s.len(), width + 1);
        assert_eq!(path.len(), width + 1);
        for j in 0..=width {
            assert_eq!(s[j], best_by_search(&m, j), "width {} prefix {}", width, j);
            assert!(s[j] >= m.get(0, j));
            assert!(path[j].windows(2).all(|p| p[0] < p[1]));
            assert!(path[j].iter().all(|&c| 0 < c && c < j));
            if s[j] == m.get(0, j) {
                assert!(path[j].is_empty());
            }
        }
        assert_eq!(get_savings(&path[width], &m), s[width]);
        assert_eq!(replay(&m, &path[width]), s[width]);
    }
}

#[test]
fn get_savings_adds_the_segments_between_the_cuts() {
    let m = upper(5, |i, j| (10 * i + j) as i64);
    assert_eq!(get_savings(&Vec::new(), &m), 5);
    assert_eq!(get_savings(&vec![2], &m), 2 + 25);
    assert_eq!(get_savings(&vec![1, 3, 4], &m), 1 + 13 + 34 + 45);
    assert_eq!(get_savings(&vec![1, 2, 3, 4], &m), 1 + 12 + 23 + 34 + 45);
    // Boundaries that go back read cells below the diagonal, which are zero.
    assert_eq!(get_savings(&vec![3, 1], &m), 3 + 0 + 15);
}

#[test]
fn savings_reach_the_edge_of_64_bits_without_overflow() {
    let limit = i64::MAX / 4;
    let m = upper(3, |_, _| limit);
    let (s, path) = find_optimal_cuts(&m);
    assert_eq!(s, vec![0, limit, 2 * limit, 3 * limit]);
    assert_eq!(path[3], vec![1, 2]);
    assert_eq!(get_savings(&path[3], &m), 3 * limit);
    let m = upper(3, |_, _| -limit);
    let (s, _) = find_optimal_cuts(&m);
    assert_eq!(s, vec![0, -limit, -limit, -limit]);
    assert_eq!(get_savings(&vec![1, 2], &m), -3 * limit);
}
