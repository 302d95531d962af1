use vstd::prelude::*;

use crate::errors::SudokuParseError;
use crate::json::{json_doc_of, json_text_of_grid, rows_to_grid_spec};
use crate::puzzle::{Slot, SudokuPuzzle, grid_complete, grid_valid};
use crate::solver::is_solution;
use crate::text::push_char;
use vstd::string::{StrSliceExecFns, StringExecFns};

verus! {

// ---------------------------------------------------------------------------
// The reply protocol: one JSON object per inbound message. A solved grid
// is sent under the field `solution`; every other outcome is a string
// under the field `message`.
// ---------------------------------------------------------------------------
/// A hexadecimal digit, lower case.
pub open spec fn hex_char(d: int) -> char {
    if d == 0 {
        '0'
    } else if d == 1 {
        '1'
    } else if d == 2 {
        '2'
    } else if d == 3 {
        '3'
    } else if d == 4 {
        '4'
    } else if d == 5 {
        '5'
    } else if d == 6 {
        '6'
    } else if d == 7 {
        '7'
    } else if d == 8 {
        '8'
    } else if d == 9 {
        '9'
    } else if d == 10 {
        'a'
    } else if d == 11 {
        'b'
    } else if d == 12 {
        'c'
    } else if d == 13 {
        'd'
    } else if d == 14 {
        'e'
    } else {
        'f'
    }
}

/// How one character stands inside a JSON string: quote and backslash are
/// escaped, control characters become `\u00..`, everything else stands as
/// it is.
pub open spec fn escape_json_char(c: char) -> Seq<char> {
    if c == '"' {
        seq!['\\', '"']
    } else if c == '\\' {
        seq!['\\', '\\']
    } else if (c as u32) < 32 {
        seq!['\\', 'u', '0', '0', hex_char(c as u32 as int / 16), hex_char(c as u32 as int % 16)]
    } else {
        seq![c]
    }
}

/// A text escaped for use inside a JSON string.
pub open spec fn escape_json(s: Seq<char>) -> Seq<char>
    decreases s.len(),
{
    if s.len() == 0 {
        Seq::<char>::empty()
    } else {
        escape_json_char(s[0]) + escape_json(s.drop_first())
    }
}

/// The reply that carries a message string.
pub open spec fn message_reply_text(m: Seq<char>) -> Seq<char> {
    seq!['{', '"', 'm', 'e', 's', 's', 'a', 'g', 'e', '"', ':', '"'] + escape_json(m) + seq![
        '"',
        '}',
    ]
}

/// The reply that carries a solved grid.
pub open spec fn solution_reply_text(grid_json: Seq<char>) -> Seq<char> {
    seq!['{', '"', 's', 'o', 'l', 'u', 't', 'i', 'o', 'n', '"', ':'] + grid_json + seq!['}']
}

/// Escaping one more character appends its escape.
proof fn lemma_escape_snoc(s: Seq<char>, c: char)
    ensures
        escape_json(s.push(c)) == escape_json(s) + escape_json_char(c),
    decreases s.len(),
{
    let p = s.push(c);
    if s.len() == 0 {
        assert(p[0] == c);
        assert(p.drop_first() =~= Seq::<char>::empty());
        assert(escape_json(Seq::<char>::empty()) == Seq::<char>::empty());
        assert(escape_json(p) == escape_json_char(c) + Seq::<char>::empty());
        assert(escape_json_char(c) + Seq::<char>::empty() =~= escape_json(s)
            + escape_json_char(c));
    } else {
        lemma_escape_snoc(s.drop_first(), c);
        assert(p.drop_first() =~= s.drop_first().push(c));
        assert(escape_json(p) == escape_json_char(s[0]) + (escape_json(s.drop_first())
            + escape_json_char(c)));
        assert(escape_json_char(s[0]) + (escape_json(s.drop_first()) + escape_json_char(c))
            =~= (escape_json_char(s[0]) + escape_json(s.drop_first())) + escape_json_char(c));
    }
}

/// A hexadecimal digit character.
fn hex_char_of(d: u8) -> (r: char)
    requires
        d < 16,
    ensures
        r == hex_char(d as int),
{
    match d {
        0 => '0',
        1 => '1',
        2 => '2',
        3 => '3',
        4 => '4',
        5 => '5',
        6 => '6',
        7 => '7',
        8 => '8',
        9 => '9',
        10 => 'a',
        11 => 'b',
        12 => 'c',
        13 => 'd',
        14 => 'e',
        _ => 'f',
    }
}

/// Append `m`, escaped for a JSON string, to `out`.
fn append_escaped(out: &mut String, m: &str)
    ensures
        final(out)@ == old(out)@ + escape_json(m@),
{
    let n = m.unicode_len();
    proof {
        assert(m@.take(0) =~= Seq::<char>::empty());
        assert(old(out)@ + escape_json(Seq::<char>::empty()) =~= old(out)@);
    }
    for i in 0..n
        invariant
            n == m@.len(),
            out@ == old(out)@ + escape_json(m@.take(i as int)),
    {
        let c = m.get_char(i);
        proof {
            lemma_escape_snoc(m@.take(i as int), c);
            assert(m@.take(i as int).push(c) =~= m@.take(i + 1));
        }
        if c == '"' {
            push_char(out, '\\');
            push_char(out, '"');
            proof {
                assert(escape_json_char(c) =~= seq!['\\', '"']);
                assert(out@ =~= old(out)@ + escape_json(m@.take(i + 1)));
            }
        } else if c == '\\' {
            push_char(out, '\\');
            push_char(out, '\\');
            proof {
                assert(escape_json_char(c) =~= seq!['\\', '\\']);
                assert(out@ =~= old(out)@ + escape_json(m@.take(i + 1)));
            }
        } else {
            let v = c as u32;
            if v < 32 {
                push_char(out, '\\');
                push_char(out, 'u');
                push_char(out, '0');
                push_char(out, '0');
                push_char(out, hex_char_of((v / 16) as u8));
                push_char(out, hex_char_of((v % 16) as u8));
                proof {
                    assert(escape_json_char(c) =~= seq![
                        '\\',
                        'u',
                        '0',
                        '0',
                        hex_char(v as int / 16),
                        hex_char(v as int % 16),
                    ]);
                    assert(out@ =~= old(out)@ + escape_json(m@.take(i + 1)));
                }
            } else {
                push_char(out, c);
                proof {
                    assert(escape_json_char(c) =~= seq![c]);
                    assert(out@ =~= old(out)@ + escape_json(m@.take(i + 1)));
                }
            }
        }
    }
    proof {
        assert(m@.take(n as int) =~= m@);
    }
}

/// The JSON object `{"message": ...}` carrying `msg`, escaped.
pub fn json_message(msg: &str) -> (r: String)
    ensures
        r@ == message_reply_text(msg@),
{
    let mut out = String::new();
    proof {
        reveal_strlit("{\"message\":\"");
        reveal_strlit("\"}");
    }
    out.append("{\"message\":\"");
    proof {
        assert(out@ =~= seq!['{', '"', 'm', 'e', 's', 's', 'a', 'g', 'e', '"', ':', '"']);
    }
    append_escaped(&mut out, msg);
    out.append("\"}");
    proof {
        assert(out@ =~= message_reply_text(msg@));
    }
    out
}

/// The JSON object `{"solution": ...}` carrying the serialized grid.
pub fn json_puzzle(puzzle: &SudokuPuzzle) -> (r: String)
    requires
        puzzle.wf(),
    ensures
        r@ == solution_reply_text(json_text_of_grid(puzzle@)),
{
    let mut out = String::new();
    proof {
        reveal_strlit("{\"solution\":");
        reveal_strlit("}");
    }
    out.append("{\"solution\":");
    proof {
        assert(out@ =~= seq!['{', '"', 's', 'o', 'l', 'u', 't', 'i', 'o', 'n', '"', ':']);
    }
    let body = puzzle.to_json();
    out.append(body.as_str());
    out.append("}");
    proof {
        assert(out@ =~= solution_reply_text(json_text_of_grid(puzzle@)));
    }
    out
}

/// Handle one inbound message: parse it as a JSON grid, solve it, and
/// build exactly one reply. A parse failure replies with the failure's
/// description; an exhausted search replies "No solution found"; success
/// replies with the solved grid. An already complete grid is echoed back
/// as the solution, as the solver leaves it untouched.
pub fn respond(s: &str) -> (r: String)
    ensures
        match json_doc_of(s@) {
            None => exists|m: Seq<char>| r@ == message_reply_text(m),
            Some(d) => match d {
                None => r@ == message_reply_text("unable to interpret JSON as array"@),
                Some(rows) => match rows_to_grid_spec(rows) {
                    Err(e) => r@ == message_reply_text(e.message_view()),
                    Ok(g) => {
                        &&& grid_complete(g) ==> r@ == solution_reply_text(json_text_of_grid(g))
                        &&& (!grid_complete(g) && (exists|sol: Seq<Slot>|
                            is_solution(g, sol))) ==> (exists|sol: Seq<Slot>|
                            is_solution(g, sol) && r@ == solution_reply_text(
                                json_text_of_grid(sol),
                            ))
                        &&& (!grid_complete(g) && (forall|sol: Seq<Slot>|
                            !(#[trigger] is_solution(g, sol)))) ==> r@ == message_reply_text(
                            "No solution found"@,
                        )
                    },
                },
            },
        },
{
    match SudokuPuzzle::from_json(s) {
        Err(e) => {
            let m = e.message();
            let r = json_message(m.as_str());
            proof {
                if json_doc_of(s@) is None {
                    assert(r@ == message_reply_text(m@));
                }
            }
            r
        },
        Ok(p) => match p.solved() {
            Some(sol) => {
                let r = json_puzzle(&sol);
                proof {
                    match json_doc_of(s@) {
                        Some(Some(rows)) => {
                            match rows_to_grid_spec(rows) {
                                Ok(g) => {
                                    if grid_complete(g) {
                                        assert(sol@ =~= g);
                                    } else {
                                        assert(is_solution(g, sol@));
                                    }
                                },
                                Err(_) => {},
                            }
                        },
                        _ => {},
                    }
                }
                r
            },
            None => json_message("No solution found"),
        },
    }
}

} // verus!
