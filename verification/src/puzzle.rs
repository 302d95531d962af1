use vstd::prelude::*;

use vstd::arithmetic::div_mod::{lemma_fundamental_div_mod, lemma_fundamental_div_mod_converse};

verus! {

/// One cell of the board: empty, or filled with a digit 1..=9.
#[derive(Copy, Clone, Debug, PartialEq, Eq, Structural)]
pub enum Slot {
    Empty,
    Filled(u8),
}

/// Board storage: 81 slots in row-major order.
pub type Grid = Vec<Slot>;

/// A slot is either empty or holds a digit between 1 and 9.
pub open spec fn slot_ok(s: Slot) -> bool {
    match s {
        Slot::Empty => true,
        Slot::Filled(n) => 1 <= n <= 9,
    }
}

/// A well-formed grid: exactly 81 cells, every filled cell in range.
pub open spec fn grid_ok(g: Seq<Slot>) -> bool {
    &&& g.len() == 81
    &&& forall|k: int| 0 <= k < 81 ==> slot_ok(#[trigger] g[k])
}

/// Index of cell (row, col) in row-major order.
pub open spec fn cell_at(row: int, col: int) -> int {
    row * 9 + col
}

/// The grid index of member `k` of unit `u`. Units 0..9 are the rows,
/// 9..18 the columns, and 18..27 the 3x3 blocks in row-major block order.
pub open spec fn unit_cell(u: int, k: int) -> int {
    if u < 9 {
        u * 9 + k
    } else if u < 18 {
        k * 9 + (u - 9)
    } else {
        (3 * ((u - 18) / 3) + k / 3) * 9 + 3 * ((u - 18) % 3) + k % 3
    }
}

/// The 9 slots of unit `u`, in canonical order.
pub open spec fn unit_seq(g: Seq<Slot>, u: int) -> Seq<Slot> {
    Seq::new(9, |k: int| g[unit_cell(u, k)])
}

/// How many cells of `s` are filled with the digit `d`.
pub open spec fn count_digit(s: Seq<Slot>, d: u8) -> nat
    decreases s.len(),
{
    if s.len() == 0 {
        0
    } else {
        count_digit(s.drop_last(), d) + if s.last() == Slot::Filled(d) {
            1nat
        } else {
            0nat
        }
    }
}

/// A unit is consistent when no digit occurs in it more than once.
pub open spec fn unit_ok(s: Seq<Slot>) -> bool {
    forall|d: u8| 1 <= d <= 9 ==> count_digit(s, d) <= 1
}

/// Grid validity: every one of the 27 units is consistent.
pub open spec fn grid_valid(g: Seq<Slot>) -> bool {
    forall|u: int| 0 <= u < 27 ==> unit_ok(#[trigger] unit_seq(g, u))
}

/// Every cell is filled.
pub open spec fn grid_complete(g: Seq<Slot>) -> bool {
    forall|k: int| 0 <= k < 81 ==> !((#[trigger] g[k]) is Empty)
}

/// Every cell filled in `orig` holds the same value in `g`.
pub open spec fn givens_kept(orig: Seq<Slot>, g: Seq<Slot>) -> bool {
    forall|k: int| 0 <= k < 81 && !((#[trigger] orig[k]) is Empty) ==> g[k] == orig[k]
}

/// A Sudoku board. Value semantics: solving returns a fresh puzzle and
/// leaves the original untouched.
#[derive(Clone, Debug)]
pub struct SudokuPuzzle {
    pub(crate) grid: Grid,
}

impl View for SudokuPuzzle {
    type V = Seq<Slot>;

    closed spec fn view(&self) -> Seq<Slot> {
        self.grid@
    }
}

impl SudokuPuzzle {
    /// Well-formedness: the grid has 81 cells, all in range.
    pub open spec fn wf(&self) -> bool {
        grid_ok(self@)
    }

    /// Wrap a grid of cells as a puzzle.
    pub(crate) fn of_grid(grid: Grid) -> (r: SudokuPuzzle)
        ensures
            r@ == grid@,
    {
        SudokuPuzzle { grid }
    }

    /// Borrow the underlying cells.
    pub(crate) fn grid_ref(&self) -> (r: &Grid)
        ensures
            r@ == self@,
    {
        &self.grid
    }

    /// Does the grid currently violate no constraint? A local check only:
    /// it does not say the grid is completable.
    pub fn is_valid(&self) -> (r: bool)
        requires
            self.wf(),
        ensures
            r == grid_valid(self@),
    {
        is_valid_cells(&self.grid)
    }
}

/// Exec counterpart of `unit_cell`, with its bound.
fn unit_index(u: usize, k: usize) -> (r: usize)
    requires
        u < 27,
        k < 9,
    ensures
        r == unit_cell(u as int, k as int),
        r < 81,
{
    if u < 9 {
        u * 9 + k
    } else if u < 18 {
        k * 9 + (u - 9)
    } else {
        let b = u - 18;
        (3 * (b / 3) + k / 3) * 9 + 3 * (b % 3) + k % 3
    }
}

/// Materialise the 9 slots of unit `u`.
pub(crate) fn unit_slots(g: &Grid, u: usize) -> (r: Vec<Slot>)
    requires
        g@.len() == 81,
        u < 27,
    ensures
        r@ == unit_seq(g@, u as int),
{
    let mut out: Vec<Slot> = Vec::new();
    for k in 0..9
        invariant
            g@.len() == 81,
            u < 27,
            out@.len() == k,
            forall|j: int| 0 <= j < k ==> out@[j] == g@[unit_cell(u as int, j)],
    {
        let idx = unit_index(u, k);
        out.push(g[idx]);
    }
    proof {
        assert(out@ =~= unit_seq(g@, u as int));
    }
    out
}

/// Count the cells of `unit` filled with `d`.
fn count_in_unit(unit: &Vec<Slot>, d: u8) -> (r: usize)
    requires
        unit@.len() == 9,
    ensures
        r == count_digit(unit@, d),
{
    let mut cnt: usize = 0;
    for k in 0..9
        invariant
            unit@.len() == 9,
            cnt == count_digit(unit@.take(k as int), d),
            cnt <= k,
    {
        proof {
            assert(unit@.take(k + 1).drop_last() =~= unit@.take(k as int));
            assert(unit@.take(k + 1).last() == unit@[k as int]);
        }
        if unit[k] == Slot::Filled(d) {
            cnt = cnt + 1;
        }
    }
    proof {
        assert(unit@.take(9) =~= unit@);
    }
    cnt
}

/// Does this unit contain no duplicate digit?
fn is_valid_unit(unit: &Vec<Slot>) -> (r: bool)
    requires
        unit@.len() == 9,
    ensures
        r == unit_ok(unit@),
{
    for d in 1..10u8
        invariant
            unit@.len() == 9,
            forall|e: u8| 1 <= e < d ==> count_digit(unit@, e) <= 1,
    {
        if count_in_unit(unit, d) > 1 {
            return false;
        }
    }
    true
}

/// Exec counterpart of `grid_valid`.
pub(crate) fn is_valid_cells(g: &Grid) -> (r: bool)
    requires
        g@.len() == 81,
    ensures
        r == grid_valid(g@),
{
    for u in 0..27
        invariant
            g@.len() == 81,
            forall|v: int| 0 <= v < u ==> unit_ok(#[trigger] unit_seq(g@, v)),
    {
        let slots = unit_slots(g, u);
        if !is_valid_unit(&slots) {
            return false;
        }
    }
    true
}

/// A fresh copy of a grid's cells.
pub(crate) fn copy_cells(g: &Grid) -> (r: Grid)
    ensures
        r@ == g@,
{
    let n = g.len();
    let mut out: Vec<Slot> = Vec::new();
    for k in 0..n
        invariant
            n == g@.len(),
            out@.len() == k,
            forall|j: int| 0 <= j < k ==> out@[j] == g@[j],
    {
        out.push(g[k]);
    }
    proof {
        assert(out@ =~= g@);
    }
    out
}

/// Every member of a unit names a cell of the grid.
pub proof fn lemma_unit_cell_in_range(u: int, k: int)
    requires
        0 <= u < 27,
        0 <= k < 9,
    ensures
        0 <= unit_cell(u, k) < 81,
{
    if 18 <= u {
        let b = u - 18;
        assert(0 <= b / 3 <= 2);
        assert(0 <= b % 3 <= 2);
        assert(0 <= k / 3 <= 2);
        assert(0 <= k % 3 <= 2);
    }
}

/// A sequence holding `Filled(d)` somewhere counts it at least once.
proof fn lemma_count_at_least_one(s: Seq<Slot>, d: u8, i: int)
    requires
        0 <= i < s.len(),
        s[i] == Slot::Filled(d),
    ensures
        count_digit(s, d) >= 1,
    decreases s.len(),
{
    if i == s.len() - 1 {
    } else {
        lemma_count_at_least_one(s.drop_last(), d, i);
    }
}

/// A sequence holding `Filled(d)` at two positions counts it at least
/// twice.
proof fn lemma_count_at_least_two(s: Seq<Slot>, d: u8, i: int, j: int)
    requires
        0 <= i < j < s.len(),
        s[i] == Slot::Filled(d),
        s[j] == Slot::Filled(d),
    ensures
        count_digit(s, d) >= 2,
    decreases s.len(),
{
    if j == s.len() - 1 {
        lemma_count_at_least_one(s.drop_last(), d, i);
    } else {
        lemma_count_at_least_two(s.drop_last(), d, i, j);
    }
}

/// Validity is unit-local: two identical filled digits at two positions
/// of one unit make the grid invalid, whatever the rest of it holds.
pub proof fn lemma_duplicate_in_unit_invalid(g: Seq<Slot>, u: int, i: int, j: int, d: u8)
    requires
        g.len() == 81,
        0 <= u < 27,
        0 <= i < j < 9,
        1 <= d <= 9,
        g[unit_cell(u, i)] == Slot::Filled(d),
        g[unit_cell(u, j)] == Slot::Filled(d),
    ensures
        !grid_valid(g),
{
    lemma_unit_cell_in_range(u, i);
    lemma_unit_cell_in_range(u, j);
    let s = unit_seq(g, u);
    assert(s[i] == Slot::Filled(d));
    assert(s[j] == Slot::Filled(d));
    lemma_count_at_least_two(s, d, i, j);
    assert(!unit_ok(s));
}

/// Two identical filled digits in one row make the grid invalid.
pub proof fn lemma_row_duplicate_invalid(g: Seq<Slot>, row: int, c1: int, c2: int, d: u8)
    requires
        g.len() == 81,
        0 <= row < 9,
        0 <= c1 < c2 < 9,
        1 <= d <= 9,
        g[cell_at(row, c1)] == Slot::Filled(d),
        g[cell_at(row, c2)] == Slot::Filled(d),
    ensures
        !grid_valid(g),
{
    assert(unit_cell(row, c1) == cell_at(row, c1));
    assert(unit_cell(row, c2) == cell_at(row, c2));
    lemma_duplicate_in_unit_invalid(g, row, c1, c2, d);
}

/// Two identical filled digits in one column make the grid invalid.
pub proof fn lemma_column_duplicate_invalid(g: Seq<Slot>, col: int, r1: int, r2: int, d: u8)
    requires
        g.len() == 81,
        0 <= col < 9,
        0 <= r1 < r2 < 9,
        1 <= d <= 9,
        g[cell_at(r1, col)] == Slot::Filled(d),
        g[cell_at(r2, col)] == Slot::Filled(d),
    ensures
        !grid_valid(g),
{
    assert(unit_cell(9 + col, r1) == cell_at(r1, col));
    assert(unit_cell(9 + col, r2) == cell_at(r2, col));
    lemma_duplicate_in_unit_invalid(g, 9 + col, r1, r2, d);
}

/// The row of cell `k`.
pub open spec fn row_of(k: int) -> int {
    k / 9
}

/// The column of cell `k`.
pub open spec fn col_of(k: int) -> int {
    k % 9
}

/// The block of cell `k`.
pub open spec fn block_of(k: int) -> int {
    3 * ((k / 9) / 3) + (k % 9) / 3
}

/// Where member `i` of unit `u` lies on the board: a row unit fixes the
/// row, a column unit the column, a block unit the block, and in each
/// case the member index can be read back off the coordinates.
pub proof fn lemma_unit_member_coords(u: int, i: int)
    requires
        0 <= u < 27,
        0 <= i < 9,
    ensures
        u < 9 ==> row_of(unit_cell(u, i)) == u && col_of(unit_cell(u, i)) == i,
        9 <= u < 18 ==> row_of(unit_cell(u, i)) == i && col_of(unit_cell(u, i)) == u - 9,
        18 <= u ==> block_of(unit_cell(u, i)) == u - 18 && 3 * (row_of(unit_cell(u, i)) % 3)
            + col_of(unit_cell(u, i)) % 3 == i,
{
    if u < 9 {
        lemma_fundamental_div_mod_converse(u * 9 + i, 9, u, i);
    } else if u < 18 {
        lemma_fundamental_div_mod_converse(i * 9 + (u - 9), 9, i, u - 9);
    } else {
        let b = u - 18;
        let r0 = 3 * (b / 3) + i / 3;
        let c0 = 3 * (b % 3) + i % 3;
        lemma_fundamental_div_mod(b, 3);
        lemma_fundamental_div_mod(i, 3);
        assert(0 <= b / 3 <= 2 && 0 <= b % 3 <= 2);
        assert(0 <= i / 3 <= 2 && 0 <= i % 3 <= 2);
        lemma_fundamental_div_mod_converse(r0 * 9 + c0, 9, r0, c0);
        lemma_fundamental_div_mod_converse(r0, 3, b / 3, i / 3);
        lemma_fundamental_div_mod_converse(c0, 3, b % 3, i % 3);
    }
}

/// No unit repeats a cell: distinct members name distinct cells.
pub proof fn lemma_unit_cells_distinct(u: int, i: int, j: int)
    requires
        0 <= u < 27,
        0 <= i < 9,
        0 <= j < 9,
        i != j,
    ensures
        unit_cell(u, i) != unit_cell(u, j),
{
    lemma_unit_member_coords(u, i);
    lemma_unit_member_coords(u, j);
}

/// Cells that lie in one unit share a row, a column, or a block.
pub proof fn lemma_shared_unit(u: int, i: int, j: int)
    requires
        0 <= u < 27,
        0 <= i < 9,
        0 <= j < 9,
    ensures
        row_of(unit_cell(u, i)) == row_of(unit_cell(u, j)) || col_of(unit_cell(u, i)) == col_of(
            unit_cell(u, j),
        ) || block_of(unit_cell(u, i)) == block_of(unit_cell(u, j)),
{
    lemma_unit_member_coords(u, i);
    lemma_unit_member_coords(u, j);
}

/// Every cell is covered by each of the three unit families: it is a
/// member of its row unit, of its column unit, and of its block unit.
pub proof fn lemma_cell_covered(k: int)
    requires
        0 <= k < 81,
    ensures
        0 <= row_of(k) < 9,
        0 <= col_of(k) < 9,
        0 <= block_of(k) < 9,
        unit_cell(row_of(k), col_of(k)) == k,
        unit_cell(9 + col_of(k), row_of(k)) == k,
        unit_cell(18 + block_of(k), 3 * (row_of(k) % 3) + col_of(k) % 3) == k,
{
    let r = k / 9;
    let c = k % 9;
    lemma_fundamental_div_mod(k, 9);
    assert(0 <= r < 9 && 0 <= c < 9);
    lemma_fundamental_div_mod(r, 3);
    lemma_fundamental_div_mod(c, 3);
    let b = 3 * (r / 3) + c / 3;
    let m = 3 * (r % 3) + c % 3;
    lemma_fundamental_div_mod_converse(b, 3, r / 3, c / 3);
    lemma_fundamental_div_mod_converse(m, 3, r % 3, c % 3);
}

/// A sequence without `Filled(d)` counts it zero times.
proof fn lemma_count_zero(s: Seq<Slot>, d: u8)
    requires
        forall|i: int| 0 <= i < s.len() ==> s[i] != Slot::Filled(d),
    ensures
        count_digit(s, d) == 0,
    decreases s.len(),
{
    if s.len() > 0 {
        lemma_count_zero(s.drop_last(), d);
    }
}

/// A sequence holding `Filled(d)` in at most one place counts it at most
/// once.
proof fn lemma_count_le_one(s: Seq<Slot>, d: u8)
    requires
        forall|i: int, j: int|
            0 <= i < s.len() && 0 <= j < s.len() && s[i] == Slot::Filled(d) && s[j]
                == Slot::Filled(d) ==> i == j,
    ensures
        count_digit(s, d) <= 1,
    decreases s.len(),
{
    if s.len() > 0 {
        if s.last() == Slot::Filled(d) {
            assert forall|i: int|
                0 <= i < s.len() - 1 implies s.drop_last()[i] != Slot::Filled(d) by {
                assert(s.drop_last()[i] == s[i]);
            }
            lemma_count_zero(s.drop_last(), d);
        } else {
            lemma_count_le_one(s.drop_last(), d);
        }
    }
}

/// Validity is unit-local, the other way around: two filled cells that
/// share no row, no column and no block, with every other cell empty,
/// violate nothing, whatever digits they hold.
pub proof fn lemma_isolated_pair_valid(g: Seq<Slot>, k1: int, k2: int)
    requires
        g.len() == 81,
        0 <= k1 < 81,
        0 <= k2 < 81,
        g[k1] is Filled,
        g[k2] is Filled,
        forall|k: int| 0 <= k < 81 && k != k1 && k != k2 ==> (#[trigger] g[k]) is Empty,
        row_of(k1) != row_of(k2),
        col_of(k1) != col_of(k2),
        block_of(k1) != block_of(k2),
    ensures
        grid_valid(g),
{
    assert forall|u: int| 0 <= u < 27 implies unit_ok(#[trigger] unit_seq(g, u)) by {
        let s = unit_seq(g, u);
        assert forall|d: u8| 1 <= d <= 9 implies count_digit(s, d) <= 1 by {
            assert forall|i: int, j: int|
                0 <= i < s.len() && 0 <= j < s.len() && s[i] == Slot::Filled(d) && s[j]
                    == Slot::Filled(d) implies i == j by {
                lemma_unit_cell_in_range(u, i);
                lemma_unit_cell_in_range(u, j);
                let ki = unit_cell(u, i);
                let kj = unit_cell(u, j);
                assert(ki == k1 || ki == k2);
                assert(kj == k1 || kj == k2);
                if ki == kj {
                    if i != j {
                        lemma_unit_cells_distinct(u, i, j);
                    }
                } else {
                    lemma_shared_unit(u, i, j);
                }
            }
            lemma_count_le_one(s, d);
        }
    }
}

} // verus!
