//! The table of net savings over all column ranges of a rule set.
use vstd::prelude::*;

verus! {

/// The largest magnitude of a cell in a table over `width` columns: with it,
/// the savings of the `width` segments of any segmentation add up within the
/// range of `i64`.
pub open spec fn cell_limit(width: nat) -> int {
    i64::MAX as int / (width + 1) as int
}

/// What makes a table of `width + 1` rows and columns a savings table: cell
/// `[i][j]` with `i < j` holds the net saving of the column range `[i, j)`,
/// within `cell_limit`, and every other cell is zero.
pub open spec fn is_savings_table(t: Seq<Seq<i64>>, width: nat) -> bool {
    &&& t.len() == width + 1
    &&& forall|i: int| 0 <= i <= width ==> (#[trigger] t[i]).len() == width + 1
    &&& forall|i: int, j: int| 0 <= j <= i <= width ==> #[trigger] t[i][j] == 0
    &&& forall|i: int, j: int|
        0 <= i < j <= width ==> -cell_limit(width) <= #[trigger] t[i][j] <= cell_limit(width)
}

/// A savings table, built once and read-only afterwards.
pub struct SavingsMatrix {
    width: usize,
    cells: Vec<Vec<i64>>,
}

impl View for SavingsMatrix {
    type V = Seq<Seq<i64>>;

    closed spec fn view(&self) -> Seq<Seq<i64>> {
        Seq::new(self.cells@.len(), |i: int| self.cells@[i]@)
    }
}

impl SavingsMatrix {
    #[verifier::type_invariant]
    spec fn inv(&self) -> bool {
        &&& self.width < usize::MAX
        &&& is_savings_table(self@, self.width as nat)
    }

    /// The number of columns that the table covers.
    pub closed spec fn spec_width(&self) -> nat {
        self.width as nat
    }

    /// The number of columns that the table covers. Every matrix is a savings
    /// table over its width.
    pub fn width(&self) -> (w: usize)
        ensures
            w == self.spec_width(),
            w < usize::MAX,
            is_savings_table(self@, w as nat),
    {
        proof {
            use_type_invariant(self);
        }
        self.width
    }

    /// The cell in row `i` and column `j`.
    pub fn get(&self, i: usize, j: usize) -> (v: i64)
        requires
            i <= self.spec_width(),
            j <= self.spec_width(),
        ensures
            v == self@[i as int][j as int],
    {
        proof {
            use_type_invariant(self);
        }
        assert(self@[i as int] == self.cells@[i as int]@);
        self.cells[i][j]
    }

    /// Wraps `cells`, which the caller has filled as a savings table.
    pub(crate) fn from_table(width: usize, cells: Vec<Vec<i64>>) -> (m: SavingsMatrix)
        requires
            width < usize::MAX,
            is_savings_table(Seq::new(cells@.len(), |i: int| cells@[i]@), width as nat),
        ensures
            m.spec_width() == width,
            m@ == Seq::new(cells@.len(), |i: int| cells@[i]@),
    {
        SavingsMatrix { width, cells }
    }

    /// Takes `rows` as a savings table if they form one: a square of at
    /// least one row, zero on and below the diagonal, every other cell
    /// within `cell_limit`.
    pub fn from_rows(rows: Vec<Vec<i64>>) -> (m: Option<SavingsMatrix>)
        ensures
            m is Some <==> rows@.len() >= 1 && is_savings_table(
                Seq::new(rows@.len(), |i: int| rows@[i]@),
                (rows@.len() - 1) as nat,
            ),
            m is Some ==> m->0@ == Seq::new(rows@.len(), |i: int| rows@[i]@) && m->0.spec_width()
                == rows@.len() - 1,
    {
        let n = rows.len();
        if n == 0 {
            return None;
        }
        let width: usize = n - 1;
        let limit: i64 = (i64::MAX as u64 / n as u64) as i64;
        let ghost t = Seq::new(rows@.len(), |i: int| rows@[i]@);
        let mut i: usize = 0;
        while i < n
            invariant
                n == rows@.len(),
                width == n - 1,
                limit == cell_limit(width as nat),
                i <= n,
                t == Seq::new(rows@.len(), |i: int| rows@[i]@),
                forall|a: int| 0 <= a < i ==> (#[trigger] t[a]).len() == n,
                forall|a: int, b: int| 0 <= b <= a < i ==> #[trigger] t[a][b] == 0,
                forall|a: int, b: int|
                    0 <= a < i && a < b <= width ==> -limit <= #[trigger] t[a][b] <= limit,
            decreases n - i,
        {
            if rows[i].len() != n {
                assert(t[i as int].len() != width + 1);
                return None;
            }
            let mut j: usize = 0;
            while j < n
                invariant
                    n == rows@.len(),
                    width == n - 1,
                    i < n,
                    j <= n,
                    t == Seq::new(rows@.len(), |i: int| rows@[i]@),
                    t[i as int].len() == n,
                    limit == cell_limit(width as nat),
                    forall|b: int| 0 <= b < j && b <= i ==> #[trigger] t[i as int][b] == 0,
                    forall|b: int|
                        0 <= b < j && i < b ==> -limit <= #[trigger] t[i as int][b] <= limit,
                decreases n - j,
            {
                let v = rows[i][j];
                assert(v == t[i as int][j as int]);
                if j <= i {
                    if v != 0 {
                        return None;
                    }
                } else if v < -limit || v > limit {
                    return None;
                }
                j += 1;
            }
            i += 1;
        }
        Some(SavingsMatrix { width, cells: rows })
    }
}

} // verus!
