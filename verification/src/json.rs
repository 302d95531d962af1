use vstd::prelude::*;

use crate::errors::SudokuParseError;
use crate::puzzle::{Slot, SudokuPuzzle, grid_ok, slot_ok};
use crate::text::{digit_char, join_tokens, lemma_join_snoc, slot_matches};
use vstd::string::StringExecFns;

verus! {

// ---------------------------------------------------------------------------
// The JSON grid format: an array of exactly 9 arrays of exactly 9 cells,
// each cell JSON null (empty) or a JSON number equal to an integer 1..=9.
//
// The JSON reader itself is serde_json's; its result is classified, cell
// by cell, into the plain shapes below, and everything from there on is
// this library's own, verified, logic.
// ---------------------------------------------------------------------------
/// What stands at one cell position of the JSON document.
#[derive(Copy, Clone, Debug, PartialEq, Eq, Structural)]
pub enum JsonCell {
    /// JSON null.
    Null,
    /// A JSON number representable as an unsigned integer.
    Num(u64),
    /// A JSON number that is negative or not an integer.
    BadNum,
    /// Any other JSON value.
    Wrong,
}

/// What stands at one row position of the JSON document.
#[derive(Debug)]
pub enum JsonRow {
    /// An array, with its cells.
    Cells(Vec<JsonCell>),
    /// Any other JSON value.
    NotArray,
}

/// The cells of a row, where it is an array at all.
pub open spec fn row_view(r: JsonRow) -> Option<Seq<JsonCell>> {
    match r {
        JsonRow::Cells(v) => Some(v@),
        JsonRow::NotArray => None,
    }
}

/// The rows of a document, where its top level is an array at all.
pub open spec fn doc_view(d: Option<Vec<JsonRow>>) -> Option<Seq<Option<Seq<JsonCell>>>> {
    match d {
        Some(rows) => Some(rows@.map_values(|x: JsonRow| row_view(x))),
        None => None,
    }
}

/// The classified JSON document a text denotes: `None` when the text is
/// not valid JSON, `Some(None)` when its top level is not an array, and
/// otherwise the rows with their classified cells. It is a function of the
/// text alone; what it is on given characters is said nowhere, so nothing
/// is assumed of the JSON grammar itself.
pub uninterp spec fn json_doc_of(s: Seq<char>) -> Option<Option<Seq<Option<Seq<JsonCell>>>>>;

#[verifier::external_type_specification]
#[verifier::external_body]
pub struct ExSerdeError(serde_json::Error);

/// Relies on serde_json::from_str and on telling serde_json::Value's
/// variants apart (Array, Null, Number, with Number::as_u64): reads the
/// text as JSON and records, shape for shape, what stands at each row and
/// cell position. `json_doc_of` names the result, which depends on the
/// text alone.
#[verifier::external_body]
fn decode_json_doc(s: &str) -> (r: Result<Option<Vec<JsonRow>>, serde_json::Error>)
    ensures
        match r {
            Ok(d) => json_doc_of(s@) == Some(doc_view(d)),
            Err(_) => json_doc_of(s@) is None,
        },
{
    let v: serde_json::Value = serde_json::from_str(s)?;
    let serde_json::Value::Array(rows) = v else {
        return Ok(None);
    };
    Ok(Some(rows.into_iter().map(|rv| match rv {
        serde_json::Value::Array(cells) => JsonRow::Cells(cells.into_iter().map(|c| match c {
            serde_json::Value::Null => JsonCell::Null,
            serde_json::Value::Number(n) => n.as_u64().map_or(JsonCell::BadNum, JsonCell::Num),
            _ => JsonCell::Wrong,
        }).collect()),
        _ => JsonRow::NotArray,
    }).collect()))
}

/// Relies on serde_json::Error's Display implementation, through
/// ToString: renders the reader's message.
#[verifier::external_body]
fn json_error_string(e: &serde_json::Error) -> String {
    e.to_string()
}

/// What one classified JSON cell denotes.
pub open spec fn cell_slot(c: JsonCell) -> Result<Slot, SudokuParseError> {
    match c {
        JsonCell::Null => Ok(Slot::Empty),
        JsonCell::Num(n) => if 1 <= n <= 9 {
            Ok(Slot::Filled(n as u8))
        } else {
            Err(SudokuParseError::Range("number must be between 1 and 9 inclusive"))
        },
        JsonCell::BadNum => Err(
            SudokuParseError::Range("number must be between 1 and 9 inclusive"),
        ),
        JsonCell::Wrong => Err(SudokuParseError::Format("cell value must be empty or a number")),
    }
}

/// Read the cells of one row left to right, stopping at the first bad one.
pub open spec fn row_cells_spec(cells: Seq<JsonCell>) -> Result<Seq<Slot>, SudokuParseError>
    decreases cells.len(),
{
    if cells.len() == 0 {
        Ok(Seq::<Slot>::empty())
    } else {
        match cell_slot(cells[0]) {
            Err(e) => Err(e),
            Ok(s) => match row_cells_spec(cells.drop_first()) {
                Err(e) => Err(e),
                Ok(rest) => Ok(seq![s] + rest),
            },
        }
    }
}

/// One row of the document: it must be an array of exactly 9 cells.
pub open spec fn json_row_spec(row: Option<Seq<JsonCell>>) -> Result<Seq<Slot>, SudokuParseError> {
    match row {
        None => Err(SudokuParseError::Format("unable to interpret row as array")),
        Some(cells) => if cells.len() != 9 {
            Err(SudokuParseError::Structure("row must contain exactly 9 slots"))
        } else {
            row_cells_spec(cells)
        },
    }
}

/// Read the rows top to bottom, concatenating, stopping at the first bad
/// one.
pub open spec fn json_rows_spec(rs: Seq<Option<Seq<JsonCell>>>) -> Result<
    Seq<Slot>,
    SudokuParseError,
>
    decreases rs.len(),
{
    if rs.len() == 0 {
        Ok(Seq::<Slot>::empty())
    } else {
        match json_row_spec(rs[0]) {
            Err(e) => Err(e),
            Ok(row) => match json_rows_spec(rs.drop_first()) {
                Err(e) => Err(e),
                Ok(rest) => Ok(row + rest),
            },
        }
    }
}

/// The whole document: exactly 9 rows of 9 cells each.
pub open spec fn rows_to_grid_spec(rs: Seq<Option<Seq<JsonCell>>>) -> Result<
    Seq<Slot>,
    SudokuParseError,
> {
    if rs.len() != 9 {
        Err(SudokuParseError::Structure("array must contain exactly 9 rows"))
    } else {
        json_rows_spec(rs)
    }
}

/// If the first `t` cells are well-formed and cell `t` is bad, reading a
/// row stops with that cell's error.
proof fn lemma_cells_first_error(cells: Seq<JsonCell>, t: int)
    requires
        0 <= t < cells.len(),
        forall|j: int| 0 <= j < t ==> cell_slot(#[trigger] cells[j]) is Ok,
        cell_slot(cells[t]) is Err,
    ensures
        row_cells_spec(cells) == Err::<Seq<Slot>, SudokuParseError>(cell_slot(cells[t])->Err_0),
    decreases t,
{
    if t > 0 {
        lemma_cells_first_error(cells.drop_first(), t - 1);
        assert(cells.drop_first()[t - 1] == cells[t]);
    }
}

/// If every cell is well-formed, the row is their slots in order.
proof fn lemma_cells_ok(cells: Seq<JsonCell>)
    requires
        forall|j: int| 0 <= j < cells.len() ==> cell_slot(#[trigger] cells[j]) is Ok,
    ensures
        row_cells_spec(cells) == Ok::<Seq<Slot>, SudokuParseError>(
            Seq::new(cells.len() as nat, |j: int| cell_slot(cells[j])->Ok_0),
        ),
    decreases cells.len(),
{
    let want = Seq::new(cells.len() as nat, |j: int| cell_slot(cells[j])->Ok_0);
    if cells.len() == 0 {
        assert(want =~= Seq::<Slot>::empty());
    } else {
        lemma_cells_ok(cells.drop_first());
        let rest = Seq::new(
            (cells.len() - 1) as nat,
            |j: int| cell_slot(cells.drop_first()[j])->Ok_0,
        );
        assert(seq![cell_slot(cells[0])->Ok_0] + rest =~= want);
    }
}

impl Slot {
    /// Read one classified JSON cell: null is an empty slot, a number
    /// equal to an integer between 1 and 9 inclusive is a filled one, and
    /// anything else is rejected.
    pub fn from_json(cell: &JsonCell) -> (r: Result<Slot, SudokuParseError>)
        ensures
            slot_matches(r, cell_slot(*cell)),
            r matches Ok(s) ==> slot_ok(s),
    {
        match cell {
            JsonCell::Null => Ok(Slot::Empty),
            JsonCell::Num(n) => if 1 <= *n && *n <= 9 {
                Ok(Slot::Filled(*n as u8))
            } else {
                Err(SudokuParseError::Range("number must be between 1 and 9 inclusive"))
            },
            JsonCell::BadNum => Err(
                SudokuParseError::Range("number must be between 1 and 9 inclusive"),
            ),
            JsonCell::Wrong => Err(
                SudokuParseError::Format("cell value must be empty or a number"),
            ),
        }
    }
}

impl SudokuPuzzle {
    /// Build a puzzle from a classified JSON document whose top level was
    /// an array. Everything here is checked: the row count, each row's
    /// shape and length, and every cell's range.
    pub fn grid_from_rows(rows: &Vec<JsonRow>) -> (r: Result<SudokuPuzzle, SudokuParseError>)
        ensures
            crate::errors::outcome_matches(
                r,
                rows_to_grid_spec(rows@.map_values(|x: JsonRow| row_view(x))),
            ),
            r matches Ok(p) ==> p.wf(),
    {
        let ghost rs = rows@.map_values(|x: JsonRow| row_view(x));
        if rows.len() != 9 {
            return Err(SudokuParseError::Structure("array must contain exactly 9 rows"));
        }
        let mut grid: Vec<Slot> = Vec::new();
        proof {
            assert(rs.skip(0) =~= rs);
            assert(Seq::<Slot>::empty() + json_rows_spec(rs)->Ok_0 =~= json_rows_spec(rs)->Ok_0);
        }
        for i in 0..9usize
            invariant
                rs == rows@.map_values(|x: JsonRow| row_view(x)),
                rows@.len() == 9,
                rs.len() == 9,
                grid@.len() == 9 * i,
                forall|k: int| 0 <= k < grid@.len() ==> slot_ok(#[trigger] grid@[k]),
                json_rows_spec(rs) == (match json_rows_spec(rs.skip(i as int)) {
                    Ok(rest) => Ok::<Seq<Slot>, SudokuParseError>(grid@ + rest),
                    Err(e) => Err::<Seq<Slot>, SudokuParseError>(e),
                }),
        {
            proof {
                assert(rs[i as int] == row_view(rows@[i as int]));
                assert(rs.skip(i as int)[0] == rs[i as int]);
                assert(rs.skip(i as int).drop_first() =~= rs.skip(i + 1));
            }
            match &rows[i] {
                JsonRow::NotArray => {
                    proof {
                        assert(rs[i as int] is None);
                    }
                    return Err(SudokuParseError::Format("unable to interpret row as array"));
                },
                JsonRow::Cells(cells) => {
                    proof {
                        assert(rs[i as int] == Some(cells@));
                    }
                    if cells.len() != 9 {
                        return Err(
                            SudokuParseError::Structure("row must contain exactly 9 slots"),
                        );
                    }
                    let ghost g0 = grid@;
                    for j in 0..9usize
                        invariant
                            cells@.len() == 9,
                            rs == rows@.map_values(|x: JsonRow| row_view(x)),
                            rows@.len() == 9,
                            rs.len() == 9,
                            i < 9,
                            rs[i as int] == Some(cells@),
                            rs.skip(i as int)[0] == rs[i as int],
                            rs.skip(i as int).drop_first() == rs.skip(i as int + 1),
                            json_rows_spec(rs) == (match json_rows_spec(rs.skip(i as int)) {
                                Ok(rest) => Ok::<Seq<Slot>, SudokuParseError>(g0 + rest),
                                Err(e) => Err::<Seq<Slot>, SudokuParseError>(e),
                            }),
                            g0.len() <= 81,
                            grid@.len() == g0.len() + j,
                            forall|k: int| 0 <= k < g0.len() ==> slot_ok(#[trigger] g0[k]),
                            forall|k: int|
                                0 <= k < grid@.len() ==> slot_ok(#[trigger] grid@[k]),
                            forall|q: int|
                                0 <= q < j ==> cell_slot(#[trigger] cells@[q]) is Ok,
                            grid@ == g0 + Seq::new(
                                j as nat,
                                |q: int| cell_slot(cells@[q])->Ok_0,
                            ),
                    {
                        match Slot::from_json(&cells[j]) {
                            Err(e) => {
                                proof {
                                    lemma_cells_first_error(cells@, j as int);
                                    assert(json_rows_spec(rs.skip(i as int)) is Err);
                                }
                                return Err(e);
                            },
                            Ok(s) => {
                                proof {
                                    assert((g0 + Seq::new(
                                        j as nat,
                                        |q: int| cell_slot(cells@[q])->Ok_0,
                                    )).push(s) =~= g0 + Seq::new(
                                        (j + 1) as nat,
                                        |q: int| cell_slot(cells@[q])->Ok_0,
                                    ));
                                }
                                grid.push(s);
                            },
                        }
                    }
                    proof {
                        lemma_cells_ok(cells@);
                        let rowv = Seq::new(9nat, |q: int| cell_slot(cells@[q])->Ok_0);
                        assert(json_row_spec(rs[i as int]) == Ok::<Seq<Slot>, SudokuParseError>(
                            rowv,
                        ));
                        let after = json_rows_spec(rs.skip(i + 1));
                        if after is Ok {
                            let rest = after->Ok_0;
                            assert(json_rows_spec(rs.skip(i as int)) == Ok::<
                                Seq<Slot>,
                                SudokuParseError,
                            >(rowv + rest));
                            assert(g0 + (rowv + rest) =~= grid@ + rest);
                        }
                    }
                },
            }
        }
        proof {
            assert(rs.skip(9) =~= Seq::<Option<Seq<JsonCell>>>::empty());
            assert(json_rows_spec(Seq::<Option<Seq<JsonCell>>>::empty()) == Ok::<
                Seq<Slot>,
                SudokuParseError,
            >(Seq::<Slot>::empty()));
            assert(grid@ + Seq::<Slot>::empty() =~= grid@);
        }
        Ok(SudokuPuzzle::of_grid(grid))
    }

    /// Parse a puzzle from JSON text: an array of 9 arrays of 9 cells,
    /// null for an empty cell, an integer 1..=9 for a filled one. Parsing
    /// performs no constraint validation: a consistent-looking but
    /// conflicting grid is returned as it is.
    pub fn from_json(s: &str) -> (r: Result<SudokuPuzzle, SudokuParseError>)
        ensures
            match json_doc_of(s@) {
                None => r matches Err(e) && e is Json,
                Some(d) => match d {
                    None => r matches Err(e) && crate::errors::same_error(
                        e,
                        SudokuParseError::Format("unable to interpret JSON as array"),
                    ),
                    Some(rows) => crate::errors::outcome_matches(r, rows_to_grid_spec(rows)),
                },
            },
            r matches Ok(p) ==> p.wf(),
    {
        match decode_json_doc(s) {
            Err(e) => Err(SudokuParseError::Json(json_error_string(&e))),
            Ok(None) => Err(SudokuParseError::Format("unable to interpret JSON as array")),
            Ok(Some(rows)) => SudokuPuzzle::grid_from_rows(&rows),
        }
    }
}

// ---------------------------------------------------------------------------
// The serializer, and the round trip at the level of classified cells.
// ---------------------------------------------------------------------------
/// The classified cell a slot serializes to.
pub open spec fn cell_of_slot(s: Slot) -> JsonCell {
    match s {
        Slot::Empty => JsonCell::Null,
        Slot::Filled(n) => JsonCell::Num(n as u64),
    }
}

/// The classified document a grid serializes to.
pub open spec fn json_model_of_grid(g: Seq<Slot>) -> Seq<Option<Seq<JsonCell>>> {
    Seq::new(9, |i: int| Some(Seq::new(9, |j: int| cell_of_slot(g[i * 9 + j]))))
}

/// Helper: the rows from `i` on read back to the cells from `i * 9`.
proof fn lemma_json_rows_parse(g: Seq<Slot>, i: int)
    requires
        grid_ok(g),
        0 <= i <= 9,
    ensures
        json_rows_spec(json_model_of_grid(g).skip(i)) == Ok::<Seq<Slot>, SudokuParseError>(
            g.skip(i * 9),
        ),
    decreases 9 - i,
{
    let rs = json_model_of_grid(g);
    if i == 9 {
        assert(rs.skip(9) =~= Seq::<Option<Seq<JsonCell>>>::empty());
        assert(g.skip(81) =~= Seq::<Slot>::empty());
    } else {
        lemma_json_rows_parse(g, i + 1);
        let cells = Seq::new(9nat, |j: int| cell_of_slot(g[i * 9 + j]));
        assert forall|j: int| 0 <= j < 9 implies cell_slot(#[trigger] cells[j]) is Ok by {
            assert(slot_ok(g[i * 9 + j]));
        }
        lemma_cells_ok(cells);
        assert(Seq::new(9nat, |j: int| cell_slot(cells[j])->Ok_0) =~= g.subrange(
            i * 9,
            i * 9 + 9,
        ));
        assert(rs.skip(i)[0] == rs[i]);
        assert(rs.skip(i).drop_first() =~= rs.skip(i + 1));
        assert(g.subrange(i * 9, i * 9 + 9) + g.skip(i * 9 + 9) =~= g.skip(i * 9));
    }
}

/// Round trip: reading back the classified document a grid serializes to
/// gives exactly that grid.
pub proof fn lemma_json_round_trip(g: Seq<Slot>)
    requires
        grid_ok(g),
    ensures
        rows_to_grid_spec(json_model_of_grid(g)) == Ok::<Seq<Slot>, SudokuParseError>(g),
{
    lemma_json_rows_parse(g, 0);
    assert(json_model_of_grid(g).skip(0) =~= json_model_of_grid(g));
    assert(g.skip(0) =~= g);
}

/// The serialized text of one cell.
pub open spec fn json_cell_token(s: Slot) -> Seq<char> {
    match s {
        Slot::Empty => seq!['n', 'u', 'l', 'l'],
        Slot::Filled(n) => seq![digit_char(n as int)],
    }
}

/// The serialized text of row `i`: its cells joined with commas, between
/// brackets.
pub open spec fn json_row_text(g: Seq<Slot>, i: int) -> Seq<char> {
    seq!['['] + join_tokens(Seq::new(9, |j: int| json_cell_token(g[i * 9 + j]))) + seq![']']
}

/// The serialized text of a grid: its rows joined with commas, between
/// brackets.
pub open spec fn json_text_of_grid(g: Seq<Slot>) -> Seq<char> {
    seq!['['] + join_tokens(Seq::new(9, |i: int| json_row_text(g, i))) + seq![']']
}

impl SudokuPuzzle {
    /// Serialize the puzzle as JSON text: an array of 9 arrays of 9
    /// cells, null for an empty cell, the bare integer for a filled one.
    /// Serialization is total: it never fails.
    pub fn to_json(&self) -> (r: String)
        requires
            self.wf(),
        ensures
            r@ == json_text_of_grid(self@),
    {
        let cells = self.grid_ref();
        let mut out = String::new();
        proof {
            reveal_strlit("[");
            reveal_strlit("]");
            reveal_strlit(",");
            reveal_strlit("null");
        }
        out.append("[");
        let ghost rowtexts = Seq::new(9, |i: int| json_row_text(self@, i));
        for i in 0..9usize
            invariant
                cells@ == self@,
                self.wf(),
                "["@ == seq!['['],
                "]"@ == seq![']'],
                ","@ == seq![','],
                "null"@ == seq!['n', 'u', 'l', 'l'],
                rowtexts == Seq::new(9, |q: int| json_row_text(self@, q)),
                out@ == seq!['['] + join_tokens(rowtexts.take(i as int)),
        {
            let mut row = String::new();
            row.append("[");
            let ghost celltexts = Seq::new(9, |j: int| json_cell_token(self@[i * 9 + j]));
            for j in 0..9usize
                invariant
                    cells@ == self@,
                    self.wf(),
                    i < 9,
                    "["@ == seq!['['],
                    ","@ == seq![','],
                    "null"@ == seq!['n', 'u', 'l', 'l'],
                    celltexts == Seq::new(9, |q: int| json_cell_token(self@[i * 9 + q])),
                    row@ == seq!['['] + join_tokens(celltexts.take(j as int)),
            {
                if j > 0 {
                    row.append(",");
                }
                let idx = i * 9 + j;
                match cells[idx] {
                    Slot::Empty => row.append("null"),
                    Slot::Filled(n) => row.append(crate::text::digit_str(n)),
                }
                proof {
                    assert(celltexts[j as int] == json_cell_token(self@[i * 9 + j]));
                    if j == 0 {
                        assert(celltexts.take(1) =~= seq![celltexts[0]]);
                        assert(join_tokens(seq![celltexts[0]]) == celltexts[0]);
                        assert(row@ =~= seq!['['] + celltexts[0]);
                    } else {
                        lemma_join_snoc(celltexts.take(j as int), celltexts[j as int]);
                        assert(celltexts.take(j as int).push(celltexts[j as int])
                            =~= celltexts.take(j + 1));
                        assert(row@ =~= seq!['['] + join_tokens(celltexts.take(j + 1)));
                    }
                }
            }
            row.append("]");
            proof {
                assert(celltexts.take(9) =~= celltexts);
                assert(row@ =~= json_row_text(self@, i as int));
                assert(rowtexts[i as int] == json_row_text(self@, i as int));
            }
            if i > 0 {
                out.append(",");
            }
            out.append(row.as_str());
            proof {
                if i == 0 {
                    assert(rowtexts.take(1) =~= seq![rowtexts[0]]);
                    assert(join_tokens(seq![rowtexts[0]]) == rowtexts[0]);
                    assert(out@ =~= seq!['['] + rowtexts[0]);
                } else {
                    lemma_join_snoc(rowtexts.take(i as int), rowtexts[i as int]);
                    assert(rowtexts.take(i as int).push(rowtexts[i as int]) =~= rowtexts.take(
                        i + 1,
                    ));
                    assert(out@ =~= seq!['['] + join_tokens(rowtexts.take(i + 1)));
                }
            }
        }
        out.append("]");
        proof {
            assert(rowtexts.take(9) =~= rowtexts);
            assert(out@ =~= json_text_of_grid(self@));
        }
        out
    }
}

} // verus!
