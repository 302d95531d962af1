use vstd::prelude::*;
use vstd::pervasive::VecAdditionalExecFns;

use crate::puzzle::{
    Grid, Slot, SudokuPuzzle, copy_cells, count_digit, givens_kept, grid_complete, grid_ok,
    grid_valid, is_valid_cells, lemma_unit_cell_in_range, slot_ok, unit_ok, unit_seq,
};

verus! {

/// The digit of a filled slot (0 for an empty one).
pub open spec fn slot_digit(s: Slot) -> u8 {
    match s {
        Slot::Empty => 0,
        Slot::Filled(n) => n,
    }
}

/// A full solution for the puzzle whose givens are `givens`: well
/// formed, every cell filled, no constraint violated, every given kept.
pub open spec fn is_solution(givens: Seq<Slot>, sol: Seq<Slot>) -> bool {
    &&& grid_ok(sol)
    &&& grid_complete(sol)
    &&& grid_valid(sol)
    &&& givens_kept(givens, sol)
}

/// `sol` agrees with `g` on every cell before `n`.
pub open spec fn prefix_matches(sol: Seq<Slot>, g: Seq<Slot>, n: int) -> bool {
    forall|k: int| 0 <= k < n ==> (#[trigger] sol[k]) == g[k]
}

/// Counting a digit is monotone under filling in more cells.
proof fn lemma_count_mono(s1: Seq<Slot>, s2: Seq<Slot>, d: u8)
    requires
        s1.len() == s2.len(),
        forall|k: int| 0 <= k < s1.len() && s1[k] == Slot::Filled(d) ==> s2[k] == Slot::Filled(d),
    ensures
        count_digit(s2, d) >= count_digit(s1, d),
    decreases s1.len(),
{
    if s1.len() > 0 {
        lemma_count_mono(s1.drop_last(), s2.drop_last(), d);
    }
}

/// A grid that already violates a constraint cannot be repaired by filling
/// empty cells: every extension violates it too.
pub proof fn lemma_invalid_extension(g1: Seq<Slot>, g2: Seq<Slot>)
    requires
        g1.len() == 81,
        g2.len() == 81,
        !grid_valid(g1),
        givens_kept(g1, g2),
    ensures
        !grid_valid(g2),
{
    let u = choose|u: int| 0 <= u < 27 && !unit_ok(unit_seq(g1, u));
    let d = choose|d: u8| 1 <= d <= 9 && count_digit(unit_seq(g1, u), d) > 1;
    assert forall|k: int|
        0 <= k < 9 && unit_seq(g1, u)[k] == Slot::Filled(d) implies unit_seq(g2, u)[k]
        == Slot::Filled(d) by {
        lemma_unit_cell_in_range(u, k);
    }
    lemma_count_mono(unit_seq(g1, u), unit_seq(g2, u), d);
    assert(!unit_ok(unit_seq(g2, u)));
}

/// If placing `d` at the empty cell `idx` of the working grid already
/// violates a constraint, then every grid that matches the work done so
/// far, keeps the givens, and puts `d` there violates one too.
proof fn lemma_candidate_blocked(
    givens: Seq<Slot>,
    cells: Seq<Slot>,
    sol: Seq<Slot>,
    idx: int,
    d: u8,
)
    requires
        cells.len() == 81,
        sol.len() == 81,
        0 <= idx < 81,
        givens.len() == 81,
        givens_kept(givens, cells),
        forall|k: int|
            idx <= k < 81 && (#[trigger] givens[k]) is Empty ==> cells[k] is Empty,
        givens_kept(givens, sol),
        prefix_matches(sol, cells, idx),
        sol[idx] == Slot::Filled(d),
        !grid_valid(cells.update(idx, Slot::Filled(d))),
    ensures
        !grid_valid(sol),
{
    let placed = cells.update(idx, Slot::Filled(d));
    assert forall|k: int|
        0 <= k < 81 && !((#[trigger] placed[k]) is Empty) implies sol[k] == placed[k] by {
        if k < idx {
        } else if k == idx {
        } else {
            assert(placed[k] == cells[k]);
            assert(!(givens[k] is Empty));
            assert(cells[k] == givens[k]);
            assert(sol[k] == givens[k]);
        }
    }
    lemma_invalid_extension(placed, sol);
}

/// Starting from candidate `start`, place at `idx` the lowest digit that
/// keeps the whole grid valid; if none of `start..=9` fits, leave the cell
/// empty.
fn insert_lowest_fitting_num(cells: &mut Grid, idx: usize, start: u8) -> (r: bool)
    requires
        grid_ok(old(cells)@),
        idx < 81,
        1 <= start <= 10,
    ensures
        grid_ok(final(cells)@),
        forall|k: int| 0 <= k < 81 && k != idx ==> final(cells)@[k] == old(cells)@[k],
        r ==> {
            let c = slot_digit(final(cells)@[idx as int]);
            &&& final(cells)@[idx as int] is Filled
            &&& start <= c <= 9
            &&& final(cells)@ == old(cells)@.update(idx as int, Slot::Filled(c))
            &&& grid_valid(final(cells)@)
            &&& forall|e: u8|
                start <= e < c ==> !grid_valid(old(cells)@.update(idx as int, Slot::Filled(e)))
        },
        !r ==> final(cells)@ == old(cells)@.update(idx as int, Slot::Empty),
        !r ==> forall|e: u8|
            start <= e <= 9 ==> !grid_valid(old(cells)@.update(idx as int, Slot::Filled(e))),
{
    let mut c: u8 = start;
    while c <= 9
        invariant
            grid_ok(old(cells)@),
            grid_ok(cells@),
            idx < 81,
            1 <= start,
            start <= c <= 10,
            forall|k: int| 0 <= k < 81 && k != idx ==> cells@[k] == old(cells)@[k],
            forall|e: u8|
                start <= e < c ==> !grid_valid(old(cells)@.update(idx as int, Slot::Filled(e))),
        decreases 10 - c,
    {
        cells.set(idx, Slot::Filled(c));
        proof {
            assert(cells@ =~= old(cells)@.update(idx as int, Slot::Filled(c)));
        }
        if is_valid_cells(cells) {
            return true;
        }
        c = c + 1;
    }
    cells.set(idx, Slot::Empty);
    proof {
        assert(cells@ =~= old(cells)@.update(idx as int, Slot::Empty));
    }
    false
}

/// Depth-first search over the cells from `idx` on. Cells the givens fill
/// are skipped; every other cell is tried with the lowest fitting digit
/// first. On failure the working grid is restored exactly.
fn solve_from(givens: &Grid, cells: &mut Grid, idx: usize) -> (r: bool)
    requires
        grid_ok(givens@),
        grid_ok(old(cells)@),
        idx <= 81,
        givens_kept(givens@, old(cells)@),
        forall|k: int| 0 <= k < idx ==> !((#[trigger] old(cells)@[k]) is Empty),
        forall|k: int|
            idx <= k < 81 && (#[trigger] givens@[k]) is Empty ==> old(cells)@[k] is Empty,
    ensures
        grid_ok(final(cells)@),
        givens_kept(givens@, final(cells)@),
        r ==> grid_complete(final(cells)@),
        r ==> grid_valid(final(cells)@) || final(cells)@ == old(cells)@,
        !r ==> final(cells)@ == old(cells)@,
        !r ==> forall|sol: Seq<Slot>|
            #[trigger] is_solution(givens@, sol) ==> !prefix_matches(sol, old(cells)@, idx as int),
        grid_complete(givens@) ==> r,
    decreases 81 - idx,
{
    if idx == 81 {
        return true;
    }
    let given = givens[idx];
    match given {
        Slot::Filled(_) => {
            let r = solve_from(givens, cells, idx + 1);
            proof {
                if !r {
                    assert forall|sol: Seq<Slot>|
                        #[trigger] is_solution(givens@, sol) implies !prefix_matches(
                        sol,
                        old(cells)@,
                        idx as int,
                    ) by {
                        if prefix_matches(sol, old(cells)@, idx as int) {
                            assert(sol[idx as int] == givens@[idx as int]);
                            assert(old(cells)@[idx as int] == givens@[idx as int]);
                            assert(prefix_matches(sol, old(cells)@, idx as int + 1));
                        }
                    }
                }
            }
            r
        },
        Slot::Empty => {
            proof {
                assert forall|sol: Seq<Slot>|
                    #[trigger] is_solution(givens@, sol) && prefix_matches(
                        sol,
                        old(cells)@,
                        idx as int,
                    ) implies slot_digit(sol[idx as int]) >= 1 by {
                    assert(slot_ok(sol[idx as int]));
                    assert(!(sol[idx as int] is Empty));
                }
            }
            let mut start: u8 = 1;
            loop
                invariant
                    grid_ok(givens@),
                    grid_ok(old(cells)@),
                    grid_ok(cells@),
                    idx < 81,
                    1 <= start <= 10,
                    givens@[idx as int] is Empty,
                    old(cells)@[idx as int] is Empty,
                    givens_kept(givens@, cells@),
                    forall|k: int| 0 <= k < 81 && k != idx ==> cells@[k] == old(cells)@[k],
                    cells@[idx as int] is Empty,
                    forall|k: int| 0 <= k < idx ==> !((#[trigger] cells@[k]) is Empty),
                    forall|k: int|
                        idx <= k < 81 && (#[trigger] givens@[k]) is Empty ==> cells@[k] is Empty,
                    cells@ == old(cells)@,
                    forall|sol: Seq<Slot>|
                        #[trigger] is_solution(givens@, sol) && prefix_matches(
                            sol,
                            old(cells)@,
                            idx as int,
                        ) ==> slot_digit(sol[idx as int]) >= start,
                decreases 10 - start,
            {
                if !insert_lowest_fitting_num(cells, idx, start) {
                    proof {
                        assert(cells@ =~= old(cells)@);
                        assert forall|sol: Seq<Slot>|
                            #[trigger] is_solution(givens@, sol) implies !prefix_matches(
                            sol,
                            old(cells)@,
                            idx as int,
                        ) by {
                            if prefix_matches(sol, old(cells)@, idx as int) {
                                let d = slot_digit(sol[idx as int]);
                                assert(slot_ok(sol[idx as int]));
                                assert(!(sol[idx as int] is Empty));
                                assert(start <= d <= 9);
                                assert(sol[idx as int] == Slot::Filled(d));
                                assert(!grid_valid(
                                    old(cells)@.update(idx as int, Slot::Filled(d)),
                                ));
                                lemma_candidate_blocked(givens@, old(cells)@, sol, idx as int, d);
                            }
                        }
                    }
                    return false;
                }
                let placed = cells[idx];
                let c: u8 = match placed {
                    Slot::Filled(n) => n,
                    Slot::Empty => unreached(),
                };
                if solve_from(givens, cells, idx + 1) {
                    return true;
                }
                cells.set(idx, Slot::Empty);
                proof {
                    assert(cells@ =~= old(cells)@);
                    assert forall|sol: Seq<Slot>|
                        #[trigger] is_solution(givens@, sol) && prefix_matches(
                            sol,
                            old(cells)@,
                            idx as int,
                        ) implies slot_digit(sol[idx as int]) >= c + 1 by {
                        let d = slot_digit(sol[idx as int]);
                        assert(slot_ok(sol[idx as int]));
                        assert(!(sol[idx as int] is Empty));
                        assert(sol[idx as int] == Slot::Filled(d));
                        if d < c {
                            assert(!grid_valid(
                                old(cells)@.update(idx as int, Slot::Filled(d)),
                            ));
                            lemma_candidate_blocked(givens@, old(cells)@, sol, idx as int, d);
                        } else if d == c {
                            assert(prefix_matches(
                                sol,
                                old(cells)@.update(idx as int, Slot::Filled(c)),
                                idx as int + 1,
                            ));
                        }
                    }
                }
                start = c + 1;
            }
        },
    }
}

impl SudokuPuzzle {
    /// Exhaustive backtracking search. Returns a completed puzzle in which
    /// every given keeps its value, or `None` exactly when no solution
    /// exists for this assignment of givens; `None` is a normal outcome,
    /// not an error. A puzzle with no empty cell is returned as it is.
    pub fn solved(&self) -> (r: Option<SudokuPuzzle>)
        requires
            self.wf(),
        ensures
            match r {
                Some(p) => {
                    &&& p.wf()
                    &&& grid_complete(p@)
                    &&& givens_kept(self@, p@)
                    &&& grid_valid(p@) || p@ == self@
                    &&& !grid_complete(self@) ==> grid_valid(p@)
                },
                None => true,
            },
            grid_complete(self@) ==> r is Some,
            !grid_valid(self@) && !grid_complete(self@) ==> r is None,
            r is None ==> forall|sol: Seq<Slot>| !is_solution(self@, sol),
            (exists|sol: Seq<Slot>| is_solution(self@, sol)) ==> r is Some,
    {
        let source = self.grid_ref();
        let mut work: Grid = copy_cells(source);
        if solve_from(source, &mut work, 0) {
            proof {
                if !grid_valid(self@) && !grid_complete(self@) {
                    lemma_invalid_extension(self@, work@);
                    assert(work@ == self@);
                    assert(false);
                }
            }
            Some(SudokuPuzzle::of_grid(work))
        } else {
            proof {
                assert forall|sol: Seq<Slot>| !is_solution(self@, sol) by {
                    if is_solution(self@, sol) {
                        assert(prefix_matches(sol, self@, 0));
                    }
                }
            }
            None
        }
    }
}

} // verus!
