//! The Sudoku grid: a flat 81-cell array of digits with the "no duplicate
//! nonzero digit in any row, column or block" invariant, and its views.

use vstd::prelude::*;
use vstd::string::StringExecFns;

verus! {

/// Flat index of the cell in row `row` and column `col`.
pub open spec fn cell_index(row: int, col: int) -> int {
    row * 9 + col
}

/// Row of the cell with flat index `i`.
pub open spec fn cell_row(i: int) -> int {
    i / 9
}

/// Column of the cell with flat index `i`.
pub open spec fn cell_col(i: int) -> int {
    i % 9
}

/// Two cells share a unit when they lie in the same row, the same column
/// or the same 3x3 block.
pub open spec fn same_unit(i: int, j: int) -> bool {
    ||| cell_row(i) == cell_row(j)
    ||| cell_col(i) == cell_col(j)
    ||| (cell_row(i) / 3 == cell_row(j) / 3 && cell_col(i) / 3 == cell_col(j) / 3)
}

/// A well-formed grid: exactly 81 cells, each holding a digit 0..=9.
pub open spec fn grid_wf(s: Seq<u8>) -> bool {
    s.len() == 81 && (forall|i: int| 0 <= i < 81 ==> #[trigger] s[i] <= 9)
}

/// No row, column or block holds the same nonzero digit twice.
pub open spec fn no_conflicts(s: Seq<u8>) -> bool {
    forall|i: int, j: int|
        0 <= i < 81 && 0 <= j < 81 && i != j && #[trigger] same_unit(i, j) && s[i] != 0
            ==> s[i] != s[j]
}

/// Cell `k` (0..9) of unit `u` (0..27): units 0..9 are the rows, 9..18 the
/// columns, 18..27 the blocks.  Block `b` spans rows `(b/3)*3..` and columns
/// `(b%3)*3..`, its cells listed row-major.
pub open spec fn unit_cell(u: int, k: int) -> int {
    if u < 9 {
        u * 9 + k
    } else if u < 18 {
        k * 9 + (u - 9)
    } else {
        let b = u - 18;
        (b / 3) * 27 + (b % 3) * 3 + (k / 3) * 9 + k % 3
    }
}

/// Cell `i` lies in unit `u`.
pub open spec fn in_unit(u: int, i: int) -> bool {
    exists|k: int| 0 <= k < 9 && unit_cell(u, k) == i
}

/// Every cell of a unit is a grid cell.
pub proof fn lemma_unit_cell_bounds(u: int, k: int)
    requires
        0 <= u < 27,
        0 <= k < 9,
    ensures
        0 <= unit_cell(u, k) < 81,
{
}

/// Quotient and remainder of a row-major cell index by 9.
proof fn lemma_split9(r: int, c: int)
    requires
        0 <= r < 9,
        0 <= c < 9,
    ensures
        (r * 9 + c) / 9 == r,
        (r * 9 + c) % 9 == c,
{
}

/// Quotient of a base-3 split by 3.
proof fn lemma_split3(a: int, d: int)
    requires
        0 <= d < 3,
    ensures
        (a * 3 + d) / 3 == a,
        (a * 3 + d) % 3 == d,
{
}

/// Row and column of a block cell: block `b` (0..9), position `k` (0..9).
proof fn lemma_block_cell(b: int, k: int)
    requires
        0 <= b < 9,
        0 <= k < 9,
    ensures
        unit_cell(18 + b, k) == ((b / 3) * 3 + k / 3) * 9 + ((b % 3) * 3 + k % 3),
        cell_row(unit_cell(18 + b, k)) == (b / 3) * 3 + k / 3,
        cell_col(unit_cell(18 + b, k)) == (b % 3) * 3 + k % 3,
        cell_row(unit_cell(18 + b, k)) / 3 == b / 3,
        cell_col(unit_cell(18 + b, k)) / 3 == b % 3,
{
    let r = (b / 3) * 3 + k / 3;
    let c = (b % 3) * 3 + k % 3;
    assert(unit_cell(18 + b, k) == r * 9 + c);
    assert(0 <= r < 9 && 0 <= c < 9);
    lemma_split9(r, c);
    lemma_split3(b / 3, k / 3);
    lemma_split3(b % 3, k % 3);
}

/// Distinct positions of one unit name distinct cells, and any two cells of
/// one unit share a unit.
pub proof fn lemma_unit_cell_pair(u: int, k1: int, k2: int)
    requires
        0 <= u < 27,
        0 <= k1 < 9,
        0 <= k2 < 9,
    ensures
        same_unit(unit_cell(u, k1), unit_cell(u, k2)),
        k1 != k2 ==> unit_cell(u, k1) != unit_cell(u, k2),
{
    let i = unit_cell(u, k1);
    let j = unit_cell(u, k2);
    if u < 9 {
        lemma_split9(u, k1);
        lemma_split9(u, k2);
        assert(cell_row(i) == u && cell_row(j) == u);
    } else if u < 18 {
        lemma_split9(k1, u - 9);
        lemma_split9(k2, u - 9);
        assert(cell_col(i) == u - 9 && cell_col(j) == u - 9);
    } else {
        let b = u - 18;
        lemma_block_cell(b, k1);
        lemma_block_cell(b, k2);
        if k1 != k2 {
            assert(k1 / 3 != k2 / 3 || k1 % 3 != k2 % 3);
            assert(cell_row(i) != cell_row(j) || cell_col(i) != cell_col(j));
        }
    }
}

/// Each cell belongs to its row unit, its column unit and its block unit.
pub proof fn lemma_cell_units(i: int)
    requires
        0 <= i < 81,
    ensures
        0 <= cell_row(i) < 9,
        0 <= cell_col(i) < 9,
        unit_cell(cell_row(i), cell_col(i)) == i,
        unit_cell(9 + cell_col(i), cell_row(i)) == i,
        unit_cell(
            18 + (cell_row(i) / 3) * 3 + cell_col(i) / 3,
            (cell_row(i) % 3) * 3 + cell_col(i) % 3,
        ) == i,
        in_unit(cell_row(i), i),
        in_unit(9 + cell_col(i), i),
        in_unit(18 + (cell_row(i) / 3) * 3 + cell_col(i) / 3, i),
{
    let r = cell_row(i);
    let c = cell_col(i);
    let b = (r / 3) * 3 + c / 3;
    let k = (r % 3) * 3 + c % 3;
    assert(b / 3 == r / 3 && b % 3 == c / 3);
    assert(k / 3 == r % 3 && k % 3 == c % 3);
    assert(unit_cell(18 + b, k) == (r / 3) * 27 + (c / 3) * 3 + (r % 3) * 9 + c % 3);
    assert((r / 3) * 27 + (r % 3) * 9 == r * 9);
    assert(unit_cell(cell_row(i), cell_col(i)) == i);
    assert(unit_cell(9 + cell_col(i), cell_row(i)) == i);
    assert(0 <= k < 9);
}

/// Two cells of one unit share a unit.
pub proof fn lemma_in_unit_same_unit(u: int, i: int, j: int)
    requires
        0 <= u < 27,
        in_unit(u, i),
        in_unit(u, j),
    ensures
        same_unit(i, j),
{
    let k1 = choose|k: int| 0 <= k < 9 && unit_cell(u, k) == i;
    let k2 = choose|k: int| 0 <= k < 9 && unit_cell(u, k) == j;
    lemma_unit_cell_pair(u, k1, k2);
}

/// Two cells that share a unit lie together in some unit.
pub proof fn lemma_same_unit_common(i: int, j: int)
    requires
        0 <= i < 81,
        0 <= j < 81,
        same_unit(i, j),
    ensures
        exists|u: int| 0 <= u < 27 && #[trigger] in_unit(u, i) && in_unit(u, j),
{
    lemma_cell_units(i);
    lemma_cell_units(j);
    if cell_row(i) == cell_row(j) {
        assert(in_unit(cell_row(i), i) && in_unit(cell_row(i), j));
    } else if cell_col(i) == cell_col(j) {
        assert(in_unit(9 + cell_col(i), i) && in_unit(9 + cell_col(i), j));
    } else {
        let u = 18 + (cell_row(i) / 3) * 3 + cell_col(i) / 3;
        assert(in_unit(u, i) && in_unit(u, j));
    }
}

/// The nonzero digits of a 9-cell unit view are pairwise distinct.
pub open spec fn distinct_nonzero(v: Seq<u8>) -> bool {
    forall|k1: int, k2: int|
        0 <= k1 < k2 < v.len() && #[trigger] v[k1] != 0 ==> v[k1] != #[trigger] v[k2]
}

/// Unit `u` holds no nonzero digit twice.
pub open spec fn unit_ok(s: Seq<u8>, u: int) -> bool {
    forall|k1: int, k2: int|
        0 <= k1 < k2 < 9 && #[trigger] s[unit_cell(u, k1)] != 0
            ==> s[unit_cell(u, k1)] != #[trigger] s[unit_cell(u, k2)]
}

/// A grid is conflict-free exactly when each of its 27 units is.
pub proof fn lemma_no_conflicts_by_units(s: Seq<u8>)
    requires
        s.len() == 81,
    ensures
        no_conflicts(s) <==> (forall|u: int| 0 <= u < 27 ==> #[trigger] unit_ok(s, u)),
{
    if no_conflicts(s) {
        assert forall|u: int| 0 <= u < 27 implies #[trigger] unit_ok(s, u) by {
            assert forall|k1: int, k2: int|
                0 <= k1 < k2 < 9 && #[trigger] s[unit_cell(u, k1)] != 0
                    implies s[unit_cell(u, k1)] != #[trigger] s[unit_cell(u, k2)] by {
                lemma_unit_cell_pair(u, k1, k2);
                lemma_unit_cell_bounds(u, k1);
                lemma_unit_cell_bounds(u, k2);
            }
        }
    }
    if forall|u: int| 0 <= u < 27 ==> #[trigger] unit_ok(s, u) {
        assert forall|i: int, j: int|
            0 <= i < 81 && 0 <= j < 81 && i != j && #[trigger] same_unit(i, j) && s[i] != 0
                implies s[i] != s[j] by {
            lemma_same_unit_common(i, j);
            let u = choose|u: int| 0 <= u < 27 && #[trigger] in_unit(u, i) && in_unit(u, j);
            let k1 = choose|k: int| 0 <= k < 9 && unit_cell(u, k) == i;
            let k2 = choose|k: int| 0 <= k < 9 && unit_cell(u, k) == j;
            assert(unit_ok(s, u));
            if k1 < k2 {
                assert(s[unit_cell(u, k1)] != 0);
            } else {
                assert(k2 < k1);
                if s[j] == 0 {
                    assert(s[i] != s[j]);
                } else {
                    assert(s[unit_cell(u, k2)] != 0);
                    assert(s[unit_cell(u, k2)] != s[unit_cell(u, k1)]);
                }
            }
        }
    }
}

/// Which way construction of a grid failed: the input was not 81 digits, or
/// the 81 digits already break the no-duplicates invariant.
#[derive(Clone, Copy, Debug, PartialEq, Eq, Structural)]
pub enum ConstructionError {
    MalformedInput,
    InvalidPuzzle,
}

/// An 81-cell Sudoku grid in row-major order; digit 0 marks an empty cell.
pub struct Sudoku(pub Vec<u8>);

impl View for Sudoku {
    type V = Seq<u8>;

    open spec fn view(&self) -> Seq<u8> {
        self.0@
    }
}

impl Clone for Sudoku {
    /// A clone is cell-for-cell equal to the original.
    fn clone(&self) -> (r: Self)
        ensures
            r@ == self@,
    {
        let mut cells: Vec<u8> = Vec::new();
        let mut i: usize = 0;
        while i < self.0.len()
            invariant
                i <= self.0.len(),
                cells@ == self.0@.subrange(0, i as int),
            decreases self.0.len() - i,
        {
            cells.push(self.0[i]);
            proof {
                assert(cells@ =~= self.0@.subrange(0, i + 1));
            }
            i = i + 1;
        }
        proof {
            assert(cells@ =~= self.0@);
        }
        Sudoku(cells)
    }
}

impl Sudoku {
    /// The grid is well formed: 81 cells, each a digit 0..=9.
    pub open spec fn wf(&self) -> bool {
        grid_wf(self@)
    }

    /// The digit in row `row`, column `col`.
    pub fn get(&self, row: usize, col: usize) -> (d: u8)
        requires
            self.wf(),
            row < 9,
            col < 9,
        ensures
            d == self@[cell_index(row as int, col as int)],
            d <= 9,
    {
        self.0[row * 9 + col]
    }

    /// Writes `digit` into row `row`, column `col`; no other cell changes.
    pub fn set(&mut self, row: usize, col: usize, digit: u8)
        requires
            old(self).wf(),
            row < 9,
            col < 9,
            digit <= 9,
        ensures
            final(self)@ == old(self)@.update(cell_index(row as int, col as int), digit),
            final(self).wf(),
    {
        self.0.set(row * 9 + col, digit);
    }

    /// The 9 digits of row `row`, left to right.
    pub fn row(&self, row: usize) -> (r: Vec<u8>)
        requires
            self.wf(),
            row < 9,
        ensures
            r@.len() == 9,
            forall|k: int| 0 <= k < 9 ==> #[trigger] r@[k] == self@[cell_index(row as int, k)],
    {
        let mut r: Vec<u8> = Vec::new();
        let mut k: usize = 0;
        while k < 9
            invariant
                self.wf(),
                row < 9,
                k <= 9,
                r@.len() == k,
                forall|m: int| 0 <= m < k ==> #[trigger] r@[m] == self@[cell_index(row as int, m)],
            decreases 9 - k,
        {
            r.push(self.get(row, k));
            k = k + 1;
        }
        r
    }

    /// The 9 digits of column `col`, top to bottom.
    pub fn col(&self, col: usize) -> (r: Vec<u8>)
        requires
            self.wf(),
            col < 9,
        ensures
            r@.len() == 9,
            forall|k: int| 0 <= k < 9 ==> #[trigger] r@[k] == self@[cell_index(k, col as int)],
    {
        let mut r: Vec<u8> = Vec::new();
        let mut k: usize = 0;
        while k < 9
            invariant
                self.wf(),
                col < 9,
                k <= 9,
                r@.len() == k,
                forall|m: int| 0 <= m < k ==> #[trigger] r@[m] == self@[cell_index(m, col as int)],
            decreases 9 - k,
        {
            r.push(self.get(k, col));
            k = k + 1;
        }
        r
    }

    /// The 9 digits of the block in block-column `block_col` and block-row
    /// `block_row`, column-major within the block: position `k` holds the
    /// cell `k % 3` rows below and `k / 3` columns right of the block's
    /// top-left corner.
    pub fn block(&self, block_col: usize, block_row: usize) -> (r: Vec<u8>)
        requires
            self.wf(),
            block_col < 3,
            block_row < 3,
        ensures
            r@.len() == 9,
            forall|k: int|
                0 <= k < 9 ==> #[trigger] r@[k] == self@[
                    cell_index(block_row as int * 3 + k % 3, block_col as int * 3 + k / 3)
                ],
    {
        let mut r: Vec<u8> = Vec::new();
        let mut k: usize = 0;
        while k < 9
            invariant
                self.wf(),
                block_col < 3,
                block_row < 3,
                k <= 9,
                r@.len() == k,
                forall|m: int|
                    0 <= m < k ==> #[trigger] r@[m] == self@[
                        cell_index(block_row as int * 3 + m % 3, block_col as int * 3 + m / 3)
                    ],
            decreases 9 - k,
        {
            r.push(self.get(block_row * 3 + k % 3, block_col * 3 + k / 3));
            k = k + 1;
        }
        r
    }

    /// True exactly when no nonzero digit repeats within `nums`; zeros are
    /// ignored.  The result is a pure predicate over the digits, independent
    /// of their order.
    pub fn has_no_duplicates(nums: Vec<u8>) -> (r: bool)
        ensures
            r == distinct_nonzero(nums@),
    {
        let len = nums.len();
        let mut k1: usize = 0;
        while k1 < len
            invariant
                len == nums@.len(),
                k1 <= len,
                forall|m1: int, m2: int|
                    0 <= m1 < k1 && m1 < m2 < len && #[trigger] nums@[m1] != 0
                        ==> nums@[m1] != #[trigger] nums@[m2],
            decreases len - k1,
        {
            if nums[k1] != 0 {
                let mut k2: usize = k1 + 1;
                while k2 < len
                    invariant
                        len == nums@.len(),
                        k1 < k2 <= len,
                        nums@[k1 as int] != 0,
                        forall|m2: int|
                            k1 < m2 < k2 ==> nums@[k1 as int] != #[trigger] nums@[m2],
                    decreases len - k2,
                {
                    if nums[k1] == nums[k2] {
                        return false;
                    }
                    k2 = k2 + 1;
                }
            }
            k1 = k1 + 1;
        }
        true
    }

    /// True exactly when no row, column or block holds a nonzero digit twice.
    pub fn is_valid(&self) -> (r: bool)
        requires
            self.wf(),
        ensures
            r == no_conflicts(self@),
    {
        proof {
            lemma_no_conflicts_by_units(self@);
        }
        let mut e: usize = 0;
        while e < 9
            invariant
                self.wf(),
                e <= 9,
                forall|m: int| 0 <= m < e ==> #[trigger] unit_ok(self@, m),
                forall|m: int| 0 <= m < e ==> #[trigger] unit_ok(self@, 9 + m),
                forall|m: int| 0 <= m < e ==> #[trigger] unit_ok(self@, 18 + m),
            decreases 9 - e,
        {
            let rv = self.row(e);
            let ghost rview = rv@;
            let row_ok = Self::has_no_duplicates(rv);
            let cv = self.col(e);
            let ghost cview = cv@;
            let col_ok = Self::has_no_duplicates(cv);
            let bv = self.block(e % 3, e / 3);
            let ghost bview = bv@;
            let block_ok = Self::has_no_duplicates(bv);
            proof {
                lemma_unit_views(self@, e as int);
                assert forall|k: int| 0 <= k < 9 implies rview[k] == self@[
                    #[trigger] unit_cell(e as int, k)
                ] by {
                    assert(rview[k] == self@[cell_index(e as int, k)]);
                }
                assert forall|k: int| 0 <= k < 9 implies cview[k] == self@[
                    #[trigger] unit_cell(9 + e as int, k)
                ] by {
                    assert(cview[k] == self@[cell_index(k, e as int)]);
                }
                assert forall|k: int| 0 <= k < 9 implies bview[(k % 3) * 3 + k / 3] == self@[
                    #[trigger] unit_cell(18 + e as int, k)
                ] by {
                    let p = (k % 3) * 3 + k / 3;
                    lemma_split3(k % 3, k / 3);
                    assert(bview[p] == self@[
                        cell_index((e as int / 3) * 3 + p % 3, (e as int % 3) * 3 + p / 3)
                    ]);
                }
                lemma_unit_ok_view(self@, e as int, rview);
                lemma_unit_ok_view(self@, 9 + e as int, cview);
                lemma_unit_ok_block_view(self@, 18 + e as int, bview);
            }
            if !(row_ok && col_ok && block_ok) {
                proof {
                    lemma_no_conflicts_by_units(self@);
                    assert(!unit_ok(self@, e as int) || !unit_ok(self@, 9 + e as int)
                        || !unit_ok(self@, 18 + e as int));
                }
                return false;
            }
            proof {
                assert(unit_ok(self@, e as int));
                assert(unit_ok(self@, 9 + e as int));
                assert(unit_ok(self@, 18 + e as int));
            }
            e = e + 1;
        }
        proof {
            assert forall|u: int| 0 <= u < 27 implies #[trigger] unit_ok(self@, u) by {
                if u < 9 {
                    assert(unit_ok(self@, u));
                } else if u < 18 {
                    assert(unit_ok(self@, 9 + (u - 9)));
                } else {
                    assert(unit_ok(self@, 18 + (u - 18)));
                }
            }
        }
        true
    }

    /// Builds a grid from 81 flat digits.  Rejects any other length, and any
    /// value above 9, as `MalformedInput`; rejects 81 digits that repeat a
    /// nonzero digit within a row, column or block as `InvalidPuzzle`.
    pub fn from_digits(nums: Vec<u8>) -> (r: Result<Sudoku, ConstructionError>)
        ensures
            match r {
                Ok(s) => s@ == nums@ && s.wf() && no_conflicts(s@),
                Err(e) => {
                    &&& (e == ConstructionError::MalformedInput <==> !grid_wf(nums@))
                    &&& (e == ConstructionError::InvalidPuzzle <==> grid_wf(nums@)
                        && !no_conflicts(nums@))
                },
            },
            r is Ok <==> grid_wf(nums@) && no_conflicts(nums@),
    {
        if nums.len() != 81 {
            return Err(ConstructionError::MalformedInput);
        }
        let mut i: usize = 0;
        while i < 81
            invariant
                nums@.len() == 81,
                i <= 81,
                forall|m: int| 0 <= m < i ==> #[trigger] nums@[m] <= 9,
            decreases 81 - i,
        {
            if nums[i] > 9 {
                return Err(ConstructionError::MalformedInput);
            }
            i = i + 1;
        }
        let grid = Sudoku(nums);
        if !grid.is_valid() {
            return Err(ConstructionError::InvalidPuzzle);
        }
        Ok(grid)
    }
}

/// A 9-cell view that lists exactly the cells of unit `u` has pairwise
/// distinct nonzero digits exactly when the unit does.
proof fn lemma_unit_ok_view(s: Seq<u8>, u: int, v: Seq<u8>)
    requires
        s.len() == 81,
        0 <= u < 27,
        v.len() == 9,
        forall|k: int| 0 <= k < 9 ==> v[k] == s[#[trigger] unit_cell(u, k)],
    ensures
        unit_ok(s, u) == distinct_nonzero(v),
{
    if distinct_nonzero(v) {
        assert forall|k1: int, k2: int|
            0 <= k1 < k2 < 9 && #[trigger] s[unit_cell(u, k1)] != 0
                implies s[unit_cell(u, k1)] != #[trigger] s[unit_cell(u, k2)] by {
            assert(v[k1] == s[unit_cell(u, k1)] && v[k2] == s[unit_cell(u, k2)]);
        }
    }
    if unit_ok(s, u) {
        assert forall|k1: int, k2: int|
            0 <= k1 < k2 < v.len() && #[trigger] v[k1] != 0
                implies v[k1] != #[trigger] v[k2] by {
            assert(v[k1] == s[unit_cell(u, k1)] && v[k2] == s[unit_cell(u, k2)]);
        }
    }
}

/// A 9-cell view that lists the cells of unit `u` column-major — its
/// position `(k % 3) * 3 + k / 3` holds the digit of unit position `k` —
/// has pairwise distinct nonzero digits exactly when the unit does: the
/// transposition only permutes the 9 digits.
proof fn lemma_unit_ok_block_view(s: Seq<u8>, u: int, v: Seq<u8>)
    requires
        s.len() == 81,
        0 <= u < 27,
        v.len() == 9,
        forall|k: int| 0 <= k < 9 ==> v[(k % 3) * 3 + k / 3] == s[#[trigger] unit_cell(u, k)],
    ensures
        unit_ok(s, u) == distinct_nonzero(v),
{
    if distinct_nonzero(v) {
        assert forall|k1: int, k2: int|
            0 <= k1 < k2 < 9 && #[trigger] s[unit_cell(u, k1)] != 0
                implies s[unit_cell(u, k1)] != #[trigger] s[unit_cell(u, k2)] by {
            let p1 = (k1 % 3) * 3 + k1 / 3;
            let p2 = (k2 % 3) * 3 + k2 / 3;
            lemma_split3(k1 % 3, k1 / 3);
            lemma_split3(k2 % 3, k2 / 3);
            assert(v[p1] == s[unit_cell(u, k1)]);
            assert(v[p2] == s[unit_cell(u, k2)]);
            assert(p1 != p2);
            if p1 < p2 {
                assert(v[p1] != 0);
            } else if s[unit_cell(u, k1)] == s[unit_cell(u, k2)] {
                assert(v[p2] != 0);
                assert(v[p2] != v[p1]);
                assert(false);
            }
        }
    }
    if unit_ok(s, u) {
        assert forall|p1: int, p2: int|
            0 <= p1 < p2 < v.len() && #[trigger] v[p1] != 0
                implies v[p1] != #[trigger] v[p2] by {
            let k1 = (p1 % 3) * 3 + p1 / 3;
            let k2 = (p2 % 3) * 3 + p2 / 3;
            lemma_split3(p1 % 3, p1 / 3);
            lemma_split3(p2 % 3, p2 / 3);
            assert(v[(k1 % 3) * 3 + k1 / 3] == s[unit_cell(u, k1)]);
            assert(v[(k2 % 3) * 3 + k2 / 3] == s[unit_cell(u, k2)]);
            assert(k1 != k2);
            if k1 < k2 {
                assert(s[unit_cell(u, k1)] != 0);
            } else if v[p1] == v[p2] {
                assert(s[unit_cell(u, k2)] != 0);
                assert(s[unit_cell(u, k2)] != s[unit_cell(u, k1)]);
                assert(false);
            }
        }
    }
}

/// Row and column of each entry of the three unit views checked in one pass
/// of `is_valid`: the views list exactly the cells of units `e`, `9 + e` and
/// `18 + e`.
proof fn lemma_unit_views(s: Seq<u8>, e: int)
    requires
        s.len() == 81,
        0 <= e < 9,
    ensures
        forall|k: int| 0 <= k < 9 ==> cell_index(e, k) == #[trigger] unit_cell(e, k),
        forall|k: int| 0 <= k < 9 ==> cell_index(k, e) == #[trigger] unit_cell(9 + e, k),
        forall|k: int|
            0 <= k < 9 ==> cell_index((e / 3) * 3 + k / 3, (e % 3) * 3 + k % 3)
                == #[trigger] unit_cell(18 + e, k),
{
    assert forall|k: int|
        0 <= k < 9 implies cell_index((e / 3) * 3 + k / 3, (e % 3) * 3 + k % 3)
            == #[trigger] unit_cell(18 + e, k) by {
        lemma_block_cell(e, k);
        lemma_split9((e / 3) * 3 + k / 3, (e % 3) * 3 + k % 3);
    }
}

/// The letter naming column `col` in the human-readable cell label.
pub open spec fn col_letter(col: int) -> char {
    if col == 0 { 'a' }
    else if col == 1 { 'b' }
    else if col == 2 { 'c' }
    else if col == 3 { 'd' }
    else if col == 4 { 'e' }
    else if col == 5 { 'f' }
    else if col == 6 { 'g' }
    else if col == 7 { 'h' }
    else { 'i' }
}

/// The digit naming row `row` in the human-readable cell label.
pub open spec fn row_digit(row: int) -> char {
    if row == 0 { '0' }
    else if row == 1 { '1' }
    else if row == 2 { '2' }
    else if row == 3 { '3' }
    else if row == 4 { '4' }
    else if row == 5 { '5' }
    else if row == 6 { '6' }
    else if row == 7 { '7' }
    else { '8' }
}

/// The two-character label of a cell: its column as a letter `a`..`i`
/// followed by its row index `0`..`8`.
pub fn fmt_cell(col: usize, row: usize) -> (r: String)
    requires
        col < 9,
        row < 9,
    ensures
        r@ == seq![col_letter(col as int), row_digit(row as int)],
{
    let letter: &str = match col {
        0 => "a",
        1 => "b",
        2 => "c",
        3 => "d",
        4 => "e",
        5 => "f",
        6 => "g",
        7 => "h",
        _ => "i",
    };
    let digit: &str = match row {
        0 => "0",
        1 => "1",
        2 => "2",
        3 => "3",
        4 => "4",
        5 => "5",
        6 => "6",
        7 => "7",
        _ => "8",
    };
    proof {
        reveal_strlit("a");
        reveal_strlit("b");
        reveal_strlit("c");
        reveal_strlit("d");
        reveal_strlit("e");
        reveal_strlit("f");
        reveal_strlit("g");
        reveal_strlit("h");
        reveal_strlit("i");
        reveal_strlit("0");
        reveal_strlit("1");
        reveal_strlit("2");
        reveal_strlit("3");
        reveal_strlit("4");
        reveal_strlit("5");
        reveal_strlit("6");
        reveal_strlit("7");
        reveal_strlit("8");
    }
    let r = String::from_str(letter).concat(digit);
    proof {
        assert(r@ =~= seq![col_letter(col as int), row_digit(row as int)]);
    }
    r
}

} // verus!
