use vstd::prelude::*;

use crate::errors::SudokuParseError;
use crate::puzzle::{Grid, Slot, SudokuPuzzle, grid_ok, slot_ok};

verus! {

// ---------------------------------------------------------------------------
// The line-oriented text format, specified.
//
// A grid is 9 lines; a line is 9 comma-separated tokens; a token, once its
// surrounding whitespace is trimmed, is either the literal `_` (an empty
// cell) or a decimal numeral whose value lies in 1..=9.
// ---------------------------------------------------------------------------
/// Whitespace that may surround a token.
pub open spec fn is_ws(c: char) -> bool {
    c == ' ' || c == '\t' || c == '\r' || c == '\n'
}

/// Drop leading whitespace.
pub open spec fn trim_front(s: Seq<char>) -> Seq<char>
    decreases s.len(),
{
    if s.len() > 0 && is_ws(s[0]) {
        trim_front(s.drop_first())
    } else {
        s
    }
}

/// Drop trailing whitespace.
pub open spec fn trim_back(s: Seq<char>) -> Seq<char>
    decreases s.len(),
{
    if s.len() > 0 && is_ws(s.last()) {
        trim_back(s.drop_last())
    } else {
        s
    }
}

/// Drop surrounding whitespace.
pub open spec fn trim(s: Seq<char>) -> Seq<char> {
    trim_back(trim_front(s))
}

/// Split on a separator. The result always holds one part more than the
/// text holds separators; an empty text yields one empty part.
pub open spec fn split_on(s: Seq<char>, sep: char) -> Seq<Seq<char>>
    decreases s.len(),
{
    if s.len() == 0 {
        seq![Seq::<char>::empty()]
    } else if s[0] == sep {
        seq![Seq::<char>::empty()] + split_on(s.drop_first(), sep)
    } else {
        let rest = split_on(s.drop_first(), sep);
        seq![seq![s[0]] + rest[0]] + rest.skip(1)
    }
}

pub open spec fn is_digit(c: char) -> bool {
    48 <= c as u32 <= 57
}

pub open spec fn char_digit(c: char) -> int {
    c as u32 - 48
}

/// A non-empty run of decimal digits.
pub open spec fn all_digits(s: Seq<char>) -> bool {
    s.len() > 0 && forall|i: int| 0 <= i < s.len() ==> is_digit(#[trigger] s[i])
}

/// The value of a run of decimal digits.
pub open spec fn digits_val(s: Seq<char>) -> int
    decreases s.len(),
{
    if s.len() == 0 {
        0
    } else {
        10 * digits_val(s.drop_last()) + char_digit(s.last())
    }
}

/// What one raw (untrimmed) token denotes.
pub open spec fn classify_token(t: Seq<char>) -> Result<Slot, SudokuParseError> {
    let u = trim(t);
    if u == seq!['_'] {
        Ok(Slot::Empty)
    } else if all_digits(u) {
        if 1 <= digits_val(u) <= 9 {
            Ok(Slot::Filled(digits_val(u) as u8))
        } else {
            Err(SudokuParseError::Range("number must be between 1 and 9 inclusive"))
        }
    } else {
        Err(SudokuParseError::Token("cell token must be '_' or a number"))
    }
}

/// The slot a well-formed token denotes.
pub open spec fn token_slot(t: Seq<char>) -> Slot {
    match classify_token(t) {
        Ok(s) => s,
        Err(_) => Slot::Empty,
    }
}

/// Read a list of tokens left to right, stopping at the first bad one.
pub open spec fn row_from_tokens(toks: Seq<Seq<char>>) -> Result<Seq<Slot>, SudokuParseError>
    decreases toks.len(),
{
    if toks.len() == 0 {
        Ok(Seq::<Slot>::empty())
    } else {
        match classify_token(toks[0]) {
            Err(e) => Err(e),
            Ok(s) => match row_from_tokens(toks.drop_first()) {
                Err(e) => Err(e),
                Ok(rest) => Ok(seq![s] + rest),
            },
        }
    }
}

/// One line of the text format: exactly 9 comma-separated tokens. Token
/// errors in the first nine tokens are reported before the count is judged.
pub open spec fn parse_line_spec(s: Seq<char>) -> Result<Seq<Slot>, SudokuParseError> {
    let toks = split_on(s, ',');
    if toks.len() < 9 {
        match row_from_tokens(toks) {
            Err(e) => Err(e),
            Ok(_) => Err(SudokuParseError::Structure("not enough numbers in row")),
        }
    } else {
        match row_from_tokens(toks.take(9)) {
            Err(e) => Err(e),
            Ok(row) => if toks.len() == 9 {
                Ok(row)
            } else {
                Err(SudokuParseError::Structure("too many numbers in row"))
            },
        }
    }
}

/// Read lines top to bottom, concatenating their rows, stopping at the
/// first bad line.
pub open spec fn parse_rows_spec(ls: Seq<Seq<char>>) -> Result<Seq<Slot>, SudokuParseError>
    decreases ls.len(),
{
    if ls.len() == 0 {
        Ok(Seq::<Slot>::empty())
    } else {
        match parse_line_spec(ls[0]) {
            Err(e) => Err(e),
            Ok(row) => match parse_rows_spec(ls.drop_first()) {
                Err(e) => Err(e),
                Ok(rest) => Ok(row + rest),
            },
        }
    }
}

/// The whole text format: exactly 9 lines of 9 tokens each.
pub open spec fn parse_text_spec(ls: Seq<Seq<char>>) -> Result<Seq<Slot>, SudokuParseError> {
    if ls.len() != 9 {
        Err(SudokuParseError::Structure("input must contain exactly 9 rows"))
    } else {
        parse_rows_spec(ls)
    }
}

/// A text, taken apart at newlines; a final newline closes the last line
/// rather than opening an empty one.
pub open spec fn split_lines(t: Seq<char>) -> Seq<Seq<char>> {
    let raw = split_on(t, '\n');
    if raw.len() > 0 && raw.last().len() == 0 {
        raw.drop_last()
    } else {
        raw
    }
}

// ---------------------------------------------------------------------------
// Facts about the specification.
// ---------------------------------------------------------------------------
/// Splitting yields at least one part.
pub proof fn lemma_split_len(s: Seq<char>, sep: char)
    ensures
        split_on(s, sep).len() >= 1,
    decreases s.len(),
{
    if s.len() > 0 {
        lemma_split_len(s.drop_first(), sep);
    }
}

/// A text without its separator is a single part.
pub proof fn lemma_split_no_sep(s: Seq<char>, sep: char)
    requires
        forall|i: int| 0 <= i < s.len() ==> s[i] != sep,
    ensures
        split_on(s, sep) == seq![s],
    decreases s.len(),
{
    if s.len() == 0 {
        assert(s =~= Seq::<char>::empty());
    } else {
        lemma_split_no_sep(s.drop_first(), sep);
        assert(seq![s[0]] + s.drop_first() =~= s);
        assert(split_on(s, sep) =~= seq![s]);
    }
}

/// Prepending a separator-free prefix `a` extends the first part.
pub proof fn lemma_split_prepend(a: Seq<char>, b: Seq<char>, sep: char)
    requires
        forall|i: int| 0 <= i < a.len() ==> a[i] != sep,
    ensures
        split_on(a + b, sep) == seq![a + split_on(b, sep)[0]] + split_on(b, sep).skip(1),
    decreases a.len(),
{
    lemma_split_len(b, sep);
    if a.len() == 0 {
        assert(a + b =~= b);
        assert(a + split_on(b, sep)[0] =~= split_on(b, sep)[0]);
        assert(seq![split_on(b, sep)[0]] + split_on(b, sep).skip(1) =~= split_on(b, sep));
    } else {
        lemma_split_prepend(a.drop_first(), b, sep);
        let s = a + b;
        assert(s[0] == a[0]);
        assert(s.drop_first() =~= a.drop_first() + b);
        let rest = split_on(a.drop_first() + b, sep);
        assert(split_on(s, sep) == seq![seq![s[0]] + rest[0]] + rest.skip(1));
        assert(rest[0] == a.drop_first() + split_on(b, sep)[0]);
        assert(rest.skip(1) =~= split_on(b, sep).skip(1));
        assert(seq![a[0]] + (a.drop_first() + split_on(b, sep)[0]) =~= a + split_on(b, sep)[0]);
        assert(split_on(s, sep) =~= seq![a + split_on(b, sep)[0]] + split_on(b, sep).skip(1));
    }
}

/// A leading zero does not change a numeral's value.
proof fn lemma_val_leading_zero(s: Seq<char>)
    requires
        s.len() > 0,
        char_digit(s[0]) == 0,
    ensures
        digits_val(s) == digits_val(s.drop_first()),
    decreases s.len(),
{
    if s.len() == 1 {
        assert(s.drop_last() =~= Seq::<char>::empty());
        assert(s.drop_first() =~= Seq::<char>::empty());
        assert(digits_val(Seq::<char>::empty()) == 0);
        assert(digits_val(s) == char_digit(s[0]));
    } else {
        lemma_val_leading_zero(s.drop_last());
        assert(s.drop_last().drop_first() =~= s.drop_first().drop_last());
        assert(s.drop_first().last() == s.last());
    }
}

/// Any run of leading zeros does not change a numeral's value.
proof fn lemma_val_skip_zeros(s: Seq<char>, z: int)
    requires
        0 <= z <= s.len(),
        forall|i: int| 0 <= i < z ==> char_digit(#[trigger] s[i]) == 0,
    ensures
        digits_val(s) == digits_val(s.skip(z)),
    decreases z,
{
    if z > 0 {
        lemma_val_leading_zero(s);
        assert(s.drop_first() =~= s.skip(1));
        lemma_val_skip_zeros(s.skip(1), z - 1);
        assert(s.skip(1).skip(z - 1) =~= s.skip(z));
    } else {
        assert(s.skip(0) =~= s);
    }
}

/// A numeral that starts with a nonzero digit is at least 1; with another
/// digit after it, at least 10.
proof fn lemma_val_first_nonzero(s: Seq<char>)
    requires
        all_digits(s),
        char_digit(s[0]) != 0,
    ensures
        digits_val(s) >= 1,
        s.len() >= 2 ==> digits_val(s) >= 10,
    decreases s.len(),
{
    if s.len() == 1 {
        assert(s.drop_last() =~= Seq::<char>::empty());
        assert(digits_val(Seq::<char>::empty()) == 0);
        assert(digits_val(s) == char_digit(s[0]));
        assert(is_digit(s[0]));
    } else {
        assert(all_digits(s.drop_last())) by {
            assert(forall|i: int|
                0 <= i < s.len() - 1 ==> #[trigger] s.drop_last()[i] == s[i]);
        }
        lemma_val_first_nonzero(s.drop_last());
        assert(is_digit(s[s.len() - 1]));
        assert(char_digit(s.last()) >= 0);
    }
}

/// The value of a single digit.
proof fn lemma_val_single(c: char)
    ensures
        digits_val(seq![c]) == char_digit(c),
{
    assert(seq![c].drop_last() =~= Seq::<char>::empty());
    assert(digits_val(Seq::<char>::empty()) == 0);
    assert(seq![c].last() == c);
}

/// If the first `t` tokens are well-formed and token `t` is bad, reading a
/// row stops with that token's error.
proof fn lemma_row_first_error(toks: Seq<Seq<char>>, t: int)
    requires
        0 <= t < toks.len(),
        forall|j: int| 0 <= j < t ==> classify_token(#[trigger] toks[j]) is Ok,
        classify_token(toks[t]) is Err,
    ensures
        row_from_tokens(toks) == Err::<Seq<Slot>, SudokuParseError>(
            classify_token(toks[t])->Err_0,
        ),
    decreases t,
{
    if t > 0 {
        lemma_row_first_error(toks.drop_first(), t - 1);
        assert(toks.drop_first()[t - 1] == toks[t]);
    }
}

/// If every token is well-formed, the row is their slots in order.
proof fn lemma_row_ok(toks: Seq<Seq<char>>)
    requires
        forall|j: int| 0 <= j < toks.len() ==> classify_token(#[trigger] toks[j]) is Ok,
    ensures
        row_from_tokens(toks) == Ok::<Seq<Slot>, SudokuParseError>(
            Seq::new(toks.len() as nat, |j: int| token_slot(toks[j])),
        ),
    decreases toks.len(),
{
    let want = Seq::new(toks.len() as nat, |j: int| token_slot(toks[j]));
    if toks.len() == 0 {
        assert(want =~= Seq::<Slot>::empty());
    } else {
        lemma_row_ok(toks.drop_first());
        let rest = Seq::new((toks.len() - 1) as nat, |j: int| token_slot(toks.drop_first()[j]));
        assert(seq![token_slot(toks[0])] + rest =~= want);
    }
}

/// An executable row outcome agrees with a specified one.
pub open spec fn row_matches(
    r: Result<Vec<Slot>, SudokuParseError>,
    m: Result<Seq<Slot>, SudokuParseError>,
) -> bool {
    match (r, m) {
        (Ok(v), Ok(g)) => v@ == g,
        (Err(e), Err(f)) => crate::errors::same_error(e, f),
        _ => false,
    }
}

/// An executable slot outcome agrees with a specified one.
pub open spec fn slot_matches(
    r: Result<Slot, SudokuParseError>,
    m: Result<Slot, SudokuParseError>,
) -> bool {
    match (r, m) {
        (Ok(a), Ok(b)) => a == b,
        (Err(e), Err(f)) => crate::errors::same_error(e, f),
        _ => false,
    }
}

// ---------------------------------------------------------------------------
// The executable parser.
// ---------------------------------------------------------------------------
/// The characters of a string, as a vector.
pub(crate) fn chars_of(s: &str) -> (r: Vec<char>)
    ensures
        r@ == s@,
{
    let n = s.unicode_len();
    let mut out: Vec<char> = Vec::new();
    for i in 0..n
        invariant
            n == s@.len(),
            out@.len() == i,
            forall|j: int| 0 <= j < i ==> out@[j] == s@[j],
    {
        out.push(s.get_char(i));
    }
    proof {
        assert(out@ =~= s@);
    }
    out
}

/// First part, rest of the parts: how an unfinished first part combines
/// with the split of the remaining text.
spec fn glue(a: Seq<char>, parts: Seq<Seq<char>>) -> Seq<Seq<char>> {
    seq![a + parts[0]] + parts.skip(1)
}

/// Split a character vector at every occurrence of `sep`.
pub(crate) fn split_sep(cs: &Vec<char>, sep: char) -> (r: Vec<Vec<char>>)
    ensures
        r@.map_values(|t: Vec<char>| t@) == split_on(cs@, sep),
{
    let n = cs.len();
    let mut out: Vec<Vec<char>> = Vec::new();
    let mut cur: Vec<char> = Vec::new();
    proof {
        lemma_split_len(cs@, sep);
        assert(cs@.skip(0) =~= cs@);
        assert(glue(Seq::<char>::empty(), split_on(cs@, sep)) =~= split_on(cs@, sep));
        assert(out@.map_values(|t: Vec<char>| t@) =~= Seq::<Seq<char>>::empty());
    }
    for i in 0..n
        invariant
            n == cs@.len(),
            out@.map_values(|t: Vec<char>| t@) + glue(cur@, split_on(cs@.skip(i as int), sep))
                =~= split_on(cs@, sep),
    {
        let ghost rest = split_on(cs@.skip(i as int), sep);
        let ghost rest1 = split_on(cs@.skip(i + 1), sep);
        proof {
            lemma_split_len(cs@.skip(i as int), sep);
            lemma_split_len(cs@.skip(i + 1), sep);
            assert(cs@.skip(i as int)[0] == cs@[i as int]);
            assert(cs@.skip(i as int).drop_first() =~= cs@.skip(i + 1));
        }
        if cs[i] == sep {
            proof {
                assert(rest == seq![Seq::<char>::empty()] + rest1);
                assert(rest[0] =~= Seq::<char>::empty());
                assert(cur@ + rest[0] =~= cur@);
                assert(rest.skip(1) =~= rest1);
                assert(glue(cur@, rest) =~= seq![cur@] + rest1);
                assert(glue(Seq::<char>::empty(), rest1) =~= rest1);
            }
            out.push(cur);
            cur = Vec::new();
            proof {
                assert(out@.map_values(|t: Vec<char>| t@) + glue(cur@, rest1) =~= split_on(
                    cs@,
                    sep,
                ));
            }
        } else {
            proof {
                assert(rest == seq![seq![cs@[i as int]] + rest1[0]] + rest1.skip(1));
                assert(rest[0] == seq![cs@[i as int]] + rest1[0]);
                assert(rest.skip(1) =~= rest1.skip(1));
            }
            let ghost curv = cur@;
            cur.push(cs[i]);
            proof {
                assert(cur@ =~= curv + seq![cs@[i as int]]);
                assert(cur@ + rest1[0] =~= curv + rest[0]);
                assert(glue(cur@, rest1) =~= glue(curv, rest));
                assert(out@.map_values(|t: Vec<char>| t@) + glue(cur@, rest1) =~= split_on(
                    cs@,
                    sep,
                ));
            }
        }
    }
    proof {
        assert(cs@.skip(n as int) =~= Seq::<char>::empty());
        assert(split_on(Seq::<char>::empty(), sep) == seq![Seq::<char>::empty()]);
        assert(glue(cur@, split_on(cs@.skip(n as int), sep)) =~= seq![cur@]);
    }
    let ghost outv = out@;
    out.push(cur);
    proof {
        assert(out@ =~= outv + seq![cur]);
        assert(out@.map_values(|t: Vec<char>| t@) =~= outv.map_values(|t: Vec<char>| t@) + seq![
            cur@,
        ]);
        assert(out@.map_values(|t: Vec<char>| t@) =~= split_on(cs@, sep));
    }
    out
}

/// Is `c` whitespace that trimming removes?
fn is_ws_char(c: char) -> (r: bool)
    ensures
        r == is_ws(c),
{
    c == ' ' || c == '\t' || c == '\r' || c == '\n'
}

/// The bounds of the trimmed part of a token.
fn trim_range(tok: &Vec<char>) -> (r: (usize, usize))
    ensures
        r.0 <= r.1 <= tok@.len(),
        trim(tok@) == tok@.subrange(r.0 as int, r.1 as int),
{
    let n = tok.len();
    let mut a: usize = 0;
    proof {
        assert(tok@.subrange(0, n as int) =~= tok@);
    }
    while a < n && is_ws_char(tok[a])
        invariant
            a <= n,
            n == tok@.len(),
            trim_front(tok@) == trim_front(tok@.subrange(a as int, n as int)),
        decreases n - a,
    {
        proof {
            let sub = tok@.subrange(a as int, n as int);
            assert(sub[0] == tok@[a as int]);
            assert(sub.drop_first() =~= tok@.subrange(a + 1, n as int));
        }
        a = a + 1;
    }
    proof {
        assert(trim_front(tok@) == tok@.subrange(a as int, n as int));
    }
    let mut b: usize = n;
    while b > a && is_ws_char(tok[b - 1])
        invariant
            a <= b <= n,
            n == tok@.len(),
            trim_front(tok@) == tok@.subrange(a as int, n as int),
            trim_back(tok@.subrange(a as int, n as int)) == trim_back(
                tok@.subrange(a as int, b as int),
            ),
        decreases b,
    {
        proof {
            let sub = tok@.subrange(a as int, b as int);
            assert(sub.last() == tok@[b - 1]);
            assert(sub.drop_last() =~= tok@.subrange(a as int, b - 1));
        }
        b = b - 1;
    }
    (a, b)
}

/// The value a run of digits `tok[a..b]` denotes, if it lies in 1..=9.
fn digits_in_range(tok: &Vec<char>, a: usize, b: usize) -> (r: Option<u8>)
    requires
        a < b <= tok@.len(),
        all_digits(tok@.subrange(a as int, b as int)),
    ensures
        match r {
            Some(d) => 1 <= d <= 9 && digits_val(tok@.subrange(a as int, b as int)) == d,
            None => !(1 <= digits_val(tok@.subrange(a as int, b as int)) <= 9),
        },
{
    let ghost u = tok@.subrange(a as int, b as int);
    let mut z: usize = a;
    while z < b && tok[z] as u32 == 48
        invariant
            a <= z <= b <= tok@.len(),
            forall|j: int| a <= j < z ==> char_digit(#[trigger] tok@[j]) == 0,
        decreases b - z,
    {
        z = z + 1;
    }
    proof {
        assert forall|j: int| 0 <= j < z - a implies char_digit(#[trigger] u[j]) == 0 by {
            assert(u[j] == tok@[a + j]);
        }
        lemma_val_skip_zeros(u, z - a);
        assert(u.skip(z - a) =~= tok@.subrange(z as int, b as int));
    }
    if z == b {
        proof {
            assert(tok@.subrange(z as int, b as int) =~= Seq::<char>::empty());
            assert(digits_val(Seq::<char>::empty()) == 0);
        }
        return None;
    }
    proof {
        let w = tok@.subrange(z as int, b as int);
        assert(w[0] == tok@[z as int]);
        assert forall|j: int| 0 <= j < w.len() implies is_digit(#[trigger] w[j]) by {
            assert(w[j] == u[z - a + j]);
        }
        lemma_val_first_nonzero(w);
    }
    if b - z > 1 {
        return None;
    }
    let d = ((tok[z] as u32) - 48) as u8;
    proof {
        let w = tok@.subrange(z as int, b as int);
        assert(w =~= seq![tok@[z as int]]);
        lemma_val_single(tok@[z as int]);
        assert(u[z - a] == tok@[z as int]);
        assert(is_digit(u[z - a]));
        assert(digits_val(u) == char_digit(tok@[z as int]));
    }
    Some(d)
}

/// Decide what one raw token denotes.
fn classify_vec(tok: &Vec<char>) -> (r: Result<Slot, SudokuParseError>)
    ensures
        slot_matches(r, classify_token(tok@)),
        r matches Ok(s) ==> slot_ok(s),
{
    let (a, b) = trim_range(tok);
    let ghost u = tok@.subrange(a as int, b as int);
    if b - a == 1 && tok[a] == '_' {
        proof {
            assert(u =~= seq!['_']);
        }
        return Ok(Slot::Empty);
    }
    proof {
        if u == seq!['_'] {
            assert(u.len() == 1);
            assert(tok@[a as int] == u[0]);
            assert(false);
        }
    }
    if b == a {
        proof {
            assert(!all_digits(u));
        }
        return Err(SudokuParseError::Token("cell token must be '_' or a number"));
    }
    for i in a..b
        invariant
            a <= i <= b <= tok@.len(),
            u == tok@.subrange(a as int, b as int),
            trim(tok@) == u,
            u != seq!['_'],
            a < b,
            forall|j: int| a <= j < i ==> is_digit(#[trigger] tok@[j]),
    {
        let v = tok[i] as u32;
        if v < 48 || v > 57 {
            proof {
                assert(u[i - a] == tok@[i as int]);
                assert(!is_digit(u[i - a]));
                assert(!all_digits(u));
            }
            return Err(SudokuParseError::Token("cell token must be '_' or a number"));
        }
    }
    proof {
        assert forall|j: int| 0 <= j < u.len() implies is_digit(#[trigger] u[j]) by {
            assert(u[j] == tok@[a + j]);
        }
        assert(all_digits(u));
    }
    match digits_in_range(tok, a, b) {
        Some(d) => Ok(Slot::Filled(d)),
        None => Err(SudokuParseError::Range("number must be between 1 and 9 inclusive")),
    }
}

/// Parse one line of text: exactly 9 comma-separated tokens.
fn parse_row(line: &Vec<char>) -> (r: Result<Vec<Slot>, SudokuParseError>)
    ensures
        row_matches(r, parse_line_spec(line@)),
        r matches Ok(v) ==> v@.len() == 9 && forall|j: int|
            0 <= j < 9 ==> slot_ok(#[trigger] v@[j]),
{
    let toks = split_sep(line, ',');
    let ghost stoks = split_on(line@, ',');
    let count = toks.len();
    let limit: usize = if count < 9 {
        count
    } else {
        9
    };
    let mut slots: Vec<Slot> = Vec::new();
    for j in 0..limit
        invariant
            stoks == split_on(line@, ','),
            toks@.map_values(|t: Vec<char>| t@) == stoks,
            toks@.len() == stoks.len(),
            count == toks@.len(),
            limit <= count,
            limit <= 9,
            count < 9 ==> limit == count,
            count >= 9 ==> limit == 9,
            slots@.len() == j,
            forall|q: int| 0 <= q < j ==> classify_token(#[trigger] stoks[q]) is Ok,
            forall|q: int| 0 <= q < j ==> slots@[q] == token_slot(#[trigger] stoks[q]),
            forall|q: int| 0 <= q < j ==> slot_ok(#[trigger] slots@[q]),
    {
        proof {
            assert(toks@.map_values(|t: Vec<char>| t@)[j as int] == toks@[j as int]@);
        }
        match classify_vec(&toks[j]) {
            Ok(s) => {
                slots.push(s);
            },
            Err(e) => {
                proof {
                    if count < 9 {
                        lemma_row_first_error(stoks, j as int);
                    } else {
                        assert forall|q: int|
                            0 <= q < j implies classify_token(
                            #[trigger] stoks.take(9)[q],
                        ) is Ok by {
                            assert(stoks.take(9)[q] == stoks[q]);
                        }
                        assert(stoks.take(9)[j as int] == stoks[j as int]);
                        lemma_row_first_error(stoks.take(9), j as int);
                    }
                }
                return Err(e);
            },
        }
    }
    if count < 9 {
        proof {
            lemma_row_ok(stoks);
        }
        return Err(SudokuParseError::Structure("not enough numbers in row"));
    }
    if count > 9 {
        proof {
            assert forall|q: int| 0 <= q < 9 implies classify_token(
                #[trigger] stoks.take(9)[q],
            ) is Ok by {
                assert(stoks.take(9)[q] == stoks[q]);
            }
            lemma_row_ok(stoks.take(9));
        }
        return Err(SudokuParseError::Structure("too many numbers in row"));
    }
    proof {
        lemma_row_ok(stoks);
        assert(stoks.take(9) =~= stoks);
        assert(slots@ =~= Seq::new(9nat, |q: int| token_slot(stoks[q])));
    }
    Ok(slots)
}

/// Parse 9 lines of characters into the 81 cells of a grid.
fn parse_cells(rows: &Vec<Vec<char>>) -> (r: Result<Grid, SudokuParseError>)
    ensures
        match (r, parse_text_spec(rows@.map_values(|l: Vec<char>| l@))) {
            (Ok(g), Ok(sg)) => g@ == sg && grid_ok(g@),
            (Err(e), Err(f)) => crate::errors::same_error(e, f),
            _ => false,
        },
{
    let ghost ls = rows@.map_values(|l: Vec<char>| l@);
    if rows.len() != 9 {
        return Err(SudokuParseError::Structure("input must contain exactly 9 rows"));
    }
    let mut grid: Vec<Slot> = Vec::new();
    proof {
        assert(ls.skip(0) =~= ls);
        assert(Seq::<Slot>::empty() + parse_rows_spec(ls)->Ok_0 =~= parse_rows_spec(ls)->Ok_0);
    }
    for i in 0..9usize
        invariant
            ls == rows@.map_values(|l: Vec<char>| l@),
            rows@.len() == 9,
            ls.len() == 9,
            grid@.len() == 9 * i,
            forall|k: int| 0 <= k < grid@.len() ==> slot_ok(#[trigger] grid@[k]),
            parse_rows_spec(ls) == (match parse_rows_spec(ls.skip(i as int)) {
                Ok(rest) => Ok::<Seq<Slot>, SudokuParseError>(grid@ + rest),
                Err(e) => Err::<Seq<Slot>, SudokuParseError>(e),
            }),
    {
        proof {
            assert(ls[i as int] == rows@[i as int]@);
            assert(ls.skip(i as int)[0] == ls[i as int]);
            assert(ls.skip(i as int).drop_first() =~= ls.skip(i + 1));
        }
        match parse_row(&rows[i]) {
            Err(e) => {
                proof {
                    assert(parse_rows_spec(ls.skip(i as int)) is Err);
                }
                return Err(e);
            },
            Ok(rowv) => {
                let ghost g0 = grid@;
                for q in 0..9usize
                    invariant
                        rowv@.len() == 9,
                        g0.len() <= 81,
                        grid@ == g0 + rowv@.take(q as int),
                        forall|k: int| 0 <= k < 9 ==> slot_ok(#[trigger] rowv@[k]),
                        forall|k: int| 0 <= k < g0.len() ==> slot_ok(#[trigger] g0[k]),
                {
                    proof {
                        assert((g0 + rowv@.take(q as int)) + seq![rowv@[q as int]] =~= g0
                            + rowv@.take(q + 1));
                    }
                    grid.push(rowv[q]);
                }
                proof {
                    assert(rowv@.take(9) =~= rowv@);
                    assert(grid@ == g0 + rowv@);
                    let after = parse_rows_spec(ls.skip(i + 1));
                    if after is Ok {
                        let rest = after->Ok_0;
                        assert(parse_rows_spec(ls.skip(i as int)) == Ok::<
                            Seq<Slot>,
                            SudokuParseError,
                        >(rowv@ + rest));
                        assert(g0 + (rowv@ + rest) =~= grid@ + rest);
                    }
                    assert forall|k: int| 0 <= k < grid@.len() implies slot_ok(
                        #[trigger] grid@[k],
                    ) by {
                        if k < g0.len() {
                        } else {
                            assert(grid@[k] == rowv@[k - g0.len()]);
                        }
                    }
                }
            },
        }
    }
    proof {
        assert(ls.skip(9) =~= Seq::<Seq<char>>::empty());
        assert(parse_rows_spec(Seq::<Seq<char>>::empty()) == Ok::<Seq<Slot>, SudokuParseError>(
            Seq::<Slot>::empty(),
        ));
        assert(grid@ + Seq::<Slot>::empty() =~= grid@);
    }
    Ok(grid)
}

impl SudokuPuzzle {
    /// Parse a puzzle from 9 lines of text, each of 9 comma-separated
    /// tokens: `_` for an empty cell, a digit 1..=9 for a filled one.
    pub fn new(lines: &Vec<String>) -> (r: Result<SudokuPuzzle, SudokuParseError>)
        ensures
            crate::errors::outcome_matches(
                r,
                parse_text_spec(lines@.map_values(|l: String| l@)),
            ),
            r matches Ok(p) ==> p.wf(),
    {
        let mut rows: Vec<Vec<char>> = Vec::new();
        let n = lines.len();
        for i in 0..n
            invariant
                n == lines@.len(),
                rows@.len() == i,
                forall|q: int| 0 <= q < i ==> rows@[q]@ == lines@[q]@,
        {
            rows.push(chars_of(lines[i].as_str()));
        }
        proof {
            assert(rows@.map_values(|l: Vec<char>| l@) =~= lines@.map_values(|l: String| l@));
        }
        match parse_cells(&rows) {
            Ok(g) => Ok(SudokuPuzzle::of_grid(g)),
            Err(e) => Err(e),
        }
    }

    /// Parse a puzzle from the whole contents of a text input, split at
    /// newlines; a final newline only closes the last line.
    pub fn from_file(text: &str) -> (r: Result<SudokuPuzzle, SudokuParseError>)
        ensures
            crate::errors::outcome_matches(r, parse_text_spec(split_lines(text@))),
            r matches Ok(p) ==> p.wf(),
    {
        let cs = chars_of(text);
        let mut rows = split_sep(&cs, '\n');
        let ghost raw = split_on(text@, '\n');
        proof {
            lemma_split_len(text@, '\n');
            assert(rows@.map_values(|l: Vec<char>| l@) == raw);
            assert(rows@.len() == raw.len());
            assert(rows@[rows@.len() - 1]@ == raw.last());
        }
        if rows.len() > 0 && rows[rows.len() - 1].len() == 0 {
            let ghost rv = rows@;
            rows.pop();
            proof {
                assert(rows@ =~= rv.drop_last());
                assert(rows@.map_values(|l: Vec<char>| l@) =~= raw.drop_last());
                assert(rows@.map_values(|l: Vec<char>| l@) == split_lines(text@));
            }
        } else {
            proof {
                assert(rows@.map_values(|l: Vec<char>| l@) == split_lines(text@));
            }
        }
        match parse_cells(&rows) {
            Ok(g) => Ok(SudokuPuzzle::of_grid(g)),
            Err(e) => Err(e),
        }
    }
}

// ---------------------------------------------------------------------------
// The serializer, and the round trip between the two directions.
// ---------------------------------------------------------------------------
/// The character of a digit 1..=9.
pub open spec fn digit_char(d: int) -> char {
    if d == 1 {
        '1'
    } else if d == 2 {
        '2'
    } else if d == 3 {
        '3'
    } else if d == 4 {
        '4'
    } else if d == 5 {
        '5'
    } else if d == 6 {
        '6'
    } else if d == 7 {
        '7'
    } else if d == 8 {
        '8'
    } else {
        '9'
    }
}

/// The canonical token of a slot: `_`, or the digit itself.
pub open spec fn slot_token(s: Slot) -> Seq<char> {
    match s {
        Slot::Empty => seq!['_'],
        Slot::Filled(n) => seq![digit_char(n as int)],
    }
}

/// Tokens joined with commas.
pub open spec fn join_tokens(toks: Seq<Seq<char>>) -> Seq<char>
    decreases toks.len(),
{
    if toks.len() == 0 {
        Seq::<char>::empty()
    } else if toks.len() == 1 {
        toks[0]
    } else {
        toks[0] + seq![','] + join_tokens(toks.drop_first())
    }
}

/// The canonical tokens of row `i` of a grid.
pub open spec fn row_tokens(g: Seq<Slot>, i: int) -> Seq<Seq<char>> {
    Seq::new(9, |j: int| slot_token(g[i * 9 + j]))
}

/// The serialized text line of row `i` of a grid.
pub open spec fn line_of_row(g: Seq<Slot>, i: int) -> Seq<char> {
    join_tokens(row_tokens(g, i))
}

/// The 9 serialized lines of a grid.
pub open spec fn lines_of_grid(g: Seq<Slot>) -> Seq<Seq<char>> {
    Seq::new(9, |i: int| line_of_row(g, i))
}

/// Appending one more token appends a comma and the token.
pub(crate) proof fn lemma_join_snoc(toks: Seq<Seq<char>>, t: Seq<char>)
    requires
        toks.len() >= 1,
    ensures
        join_tokens(toks.push(t)) == join_tokens(toks) + seq![','] + t,
    decreases toks.len(),
{
    let p = toks.push(t);
    if toks.len() == 1 {
        assert(p.len() == 2);
        assert(p.drop_first() =~= seq![t]);
        assert(join_tokens(seq![t]) == t);
        assert(join_tokens(p) == p[0] + seq![','] + t);
    } else {
        lemma_join_snoc(toks.drop_first(), t);
        assert(p.drop_first() =~= toks.drop_first().push(t));
        assert(join_tokens(p) == p[0] + seq![','] + join_tokens(toks.drop_first().push(t)));
        assert(toks[0] + seq![','] + (join_tokens(toks.drop_first()) + seq![','] + t) =~= (toks[0]
            + seq![','] + join_tokens(toks.drop_first())) + seq![','] + t);
    }
}

/// A canonical token never holds a comma, a whitespace character, and is
/// never empty.
proof fn lemma_slot_token_plain(s: Slot)
    requires
        slot_ok(s),
    ensures
        slot_token(s).len() == 1,
        !is_ws(slot_token(s)[0]),
        slot_token(s)[0] != ',',
        slot_token(s)[0] != '\n',
{
}

/// Splitting undoes joining, for comma-free tokens.
proof fn lemma_split_join(toks: Seq<Seq<char>>)
    requires
        toks.len() >= 1,
        forall|j: int, k: int|
            0 <= j < toks.len() && 0 <= k < toks[j].len() ==> #[trigger] toks[j][k] != ',',
    ensures
        split_on(join_tokens(toks), ',') == toks,
    decreases toks.len(),
{
    if toks.len() == 1 {
        lemma_split_no_sep(toks[0], ',');
        assert(seq![toks[0]] =~= toks);
    } else {
        lemma_split_join(toks.drop_first());
        let tail = seq![','] + join_tokens(toks.drop_first());
        assert(join_tokens(toks) =~= toks[0] + tail);
        lemma_split_prepend(toks[0], tail, ',');
        assert(tail[0] == ',');
        assert(tail.drop_first() =~= join_tokens(toks.drop_first()));
        assert(split_on(tail, ',') == seq![Seq::<char>::empty()] + toks.drop_first());
        assert(split_on(tail, ',')[0] =~= Seq::<char>::empty());
        assert(toks[0] + split_on(tail, ',')[0] =~= toks[0]);
        assert(split_on(tail, ',').skip(1) =~= toks.drop_first());
        assert(split_on(join_tokens(toks), ',') =~= toks);
    }
}

/// A token without surrounding whitespace trims to itself.
proof fn lemma_trim_plain(t: Seq<char>)
    requires
        forall|k: int| 0 <= k < t.len() ==> !is_ws(#[trigger] t[k]),
    ensures
        trim(t) == t,
{
}

/// A canonical token parses back to its slot.
proof fn lemma_classify_slot_token(s: Slot)
    requires
        slot_ok(s),
    ensures
        classify_token(slot_token(s)) == Ok::<Slot, SudokuParseError>(s),
{
    let t = slot_token(s);
    lemma_slot_token_plain(s);
    lemma_trim_plain(t);
    match s {
        Slot::Empty => {
            assert(t =~= seq!['_']);
        },
        Slot::Filled(n) => {
            assert(t != seq!['_']);
            assert(is_digit(t[0]));
            assert(all_digits(t));
            lemma_val_single(t[0]);
            assert(t =~= seq![t[0]]);
            assert(digits_val(t) == char_digit(digit_char(n as int)));
            assert(char_digit(digit_char(n as int)) == n);
        },
    }
}

/// A serialized row parses back to its slots.
proof fn lemma_row_round_trip(g: Seq<Slot>, i: int)
    requires
        crate::puzzle::grid_ok(g),
        0 <= i < 9,
    ensures
        parse_line_spec(line_of_row(g, i)) == Ok::<Seq<Slot>, SudokuParseError>(
            g.subrange(i * 9, i * 9 + 9),
        ),
{
    let toks = row_tokens(g, i);
    assert forall|j: int, k: int|
        0 <= j < toks.len() && 0 <= k < toks[j].len() implies #[trigger] toks[j][k] != ',' by {
        lemma_slot_token_plain(g[i * 9 + j]);
    }
    lemma_split_join(toks);
    assert forall|j: int| 0 <= j < 9 implies classify_token(#[trigger] toks[j]) is Ok by {
        lemma_classify_slot_token(g[i * 9 + j]);
    }
    lemma_row_ok(toks);
    assert(toks.take(9) =~= toks);
    assert forall|j: int| 0 <= j < 9 implies token_slot(#[trigger] toks[j]) == g[i * 9 + j] by {
        lemma_classify_slot_token(g[i * 9 + j]);
    }
    assert(Seq::new(9nat, |j: int| token_slot(toks[j])) =~= g.subrange(i * 9, i * 9 + 9));
}

/// Serializing, then parsing, gives back the very grid: the text codec is
/// the exact inverse of the parser on every well-formed grid.
pub proof fn lemma_serialize_then_parse(g: Seq<Slot>)
    requires
        crate::puzzle::grid_ok(g),
    ensures
        parse_text_spec(lines_of_grid(g)) == Ok::<Seq<Slot>, SudokuParseError>(g),
{
    lemma_rows_of_grid_parse(g, 0);
    assert(lines_of_grid(g).skip(0) =~= lines_of_grid(g));
    assert(g.skip(0) =~= g);
}

/// Helper: the lines from row `i` on parse back to the cells from `i * 9`.
proof fn lemma_rows_of_grid_parse(g: Seq<Slot>, i: int)
    requires
        crate::puzzle::grid_ok(g),
        0 <= i <= 9,
    ensures
        parse_rows_spec(lines_of_grid(g).skip(i)) == Ok::<Seq<Slot>, SudokuParseError>(
            g.skip(i * 9),
        ),
    decreases 9 - i,
{
    let ls = lines_of_grid(g);
    if i == 9 {
        assert(ls.skip(9) =~= Seq::<Seq<char>>::empty());
        assert(g.skip(81) =~= Seq::<Slot>::empty());
    } else {
        lemma_rows_of_grid_parse(g, i + 1);
        lemma_row_round_trip(g, i);
        assert(ls.skip(i)[0] == line_of_row(g, i));
        assert(ls.skip(i).drop_first() =~= ls.skip(i + 1));
        assert(g.subrange(i * 9, i * 9 + 9) + g.skip(i * 9 + 9) =~= g.skip(i * 9));
    }
}

/// Inversion: a row read without error had every token well-formed, and is
/// the slots of its tokens.
proof fn lemma_row_inversion(toks: Seq<Seq<char>>)
    requires
        row_from_tokens(toks) is Ok,
    ensures
        forall|j: int| 0 <= j < toks.len() ==> classify_token(#[trigger] toks[j]) is Ok,
        row_from_tokens(toks)->Ok_0 == Seq::new(toks.len() as nat, |j: int| token_slot(toks[j])),
    decreases toks.len(),
{
    if toks.len() > 0 {
        lemma_row_inversion(toks.drop_first());
        assert forall|j: int|
            0 <= j < toks.len() implies classify_token(#[trigger] toks[j]) is Ok by {
            if j > 0 {
                assert(toks.drop_first()[j - 1] == toks[j]);
            }
        }
        lemma_row_ok(toks);
    }
}

/// Inversion: a line parsed without error has exactly 9 tokens, all of
/// them well-formed, and its slots are their slots.
proof fn lemma_line_inversion(s: Seq<char>)
    requires
        parse_line_spec(s) is Ok,
    ensures
        split_on(s, ',').len() == 9,
        forall|j: int| 0 <= j < 9 ==> classify_token(#[trigger] split_on(s, ',')[j]) is Ok,
        parse_line_spec(s)->Ok_0 == Seq::new(9nat, |j: int| token_slot(split_on(s, ',')[j])),
        parse_line_spec(s)->Ok_0.len() == 9,
{
    let toks = split_on(s, ',');
    assert(toks.len() == 9);
    assert(toks.take(9) =~= toks);
    lemma_row_inversion(toks);
}

/// Inversion: a text parsed without error had 9 lines, each parsed without
/// error, and the grid is their rows in order.
proof fn lemma_rows_inversion(ls: Seq<Seq<char>>, g: Seq<Slot>)
    requires
        parse_rows_spec(ls) == Ok::<Seq<Slot>, SudokuParseError>(g),
    ensures
        g.len() == 9 * ls.len(),
        forall|i: int| 0 <= i < ls.len() ==> parse_line_spec(#[trigger] ls[i]) is Ok,
        forall|i: int|
            0 <= i < ls.len() ==> g.subrange(9 * i, 9 * i + 9) == parse_line_spec(
                #[trigger] ls[i],
            )->Ok_0,
    decreases ls.len(),
{
    if ls.len() > 0 {
        let row0 = parse_line_spec(ls[0])->Ok_0;
        let restg = parse_rows_spec(ls.drop_first())->Ok_0;
        lemma_line_inversion(ls[0]);
        lemma_rows_inversion(ls.drop_first(), restg);
        assert(g == row0 + restg);
        assert(g.subrange(0, 9) =~= row0);
        assert forall|i: int|
            0 <= i < ls.len() implies parse_line_spec(#[trigger] ls[i]) is Ok by {
            if i > 0 {
                assert(ls.drop_first()[i - 1] == ls[i]);
            }
        }
        assert forall|i: int|
            1 <= i < ls.len() implies g.subrange(9 * i, 9 * i + 9) == parse_line_spec(
            #[trigger] ls[i],
        )->Ok_0 by {
            assert(ls.drop_first()[i - 1] == ls[i]);
            assert(g.subrange(9 * i, 9 * i + 9) =~= restg.subrange(9 * (i - 1), 9 * (i - 1) + 9));
        }
    }
}

/// Round trip the other way: a grid parsed from well-formed text, when
/// serialized again, reproduces the input token for token, up to the
/// whitespace that trimming removed. (A numeral with leading zeros is the
/// one spelling this does not reproduce; the canonical spellings `_` and
/// `1`..`9` all round trip exactly.)
pub proof fn lemma_parse_then_serialize(ls: Seq<Seq<char>>, g: Seq<Slot>)
    requires
        parse_text_spec(ls) == Ok::<Seq<Slot>, SudokuParseError>(g),
        forall|i: int, j: int|
            0 <= i < 9 && 0 <= j < 9 ==> (all_digits(trim(#[trigger] split_on(ls[i], ',')[j]))
                ==> trim(split_on(ls[i], ',')[j]).len() == 1),
    ensures
        ls.len() == 9,
        forall|i: int| 0 <= i < 9 ==> split_on(#[trigger] ls[i], ',').len() == 9,
        forall|i: int| 0 <= i < 9 ==> split_on(#[trigger] line_of_row(g, i), ',').len() == 9,
        forall|i: int, j: int|
            0 <= i < 9 && 0 <= j < 9 ==> split_on(line_of_row(g, i), ',')[j] == trim(
                #[trigger] split_on(ls[i], ',')[j],
            ),
{
    lemma_rows_inversion(ls, g);
    lemma_grid_ok_from_inversion(ls, g);
    assert forall|i: int| 0 <= i < 9 implies split_on(#[trigger] ls[i], ',').len() == 9 by {
        lemma_line_inversion(ls[i]);
    }
    assert forall|i: int|
        0 <= i < 9 implies split_on(#[trigger] line_of_row(g, i), ',').len() == 9 by {
        assert forall|a: int, b: int|
            0 <= a < row_tokens(g, i).len() && 0 <= b < row_tokens(g, i)[a].len()
            implies #[trigger] row_tokens(g, i)[a][b] != ',' by {
            lemma_slot_token_plain(g[i * 9 + a]);
        }
        lemma_split_join(row_tokens(g, i));
    }
    assert forall|i: int, j: int|
        0 <= i < 9 && 0 <= j < 9 implies split_on(line_of_row(g, i), ',')[j] == trim(
        #[trigger] split_on(ls[i], ',')[j],
    ) && split_on(line_of_row(g, i), ',').len() == 9 by {
        lemma_line_inversion(ls[i]);
        let toks = split_on(ls[i], ',');
        let u = trim(toks[j]);
        let s = g.subrange(9 * i, 9 * i + 9)[j];
        assert(s == token_slot(toks[j]));
        assert(classify_token(toks[j]) is Ok);
        assert forall|a: int, b: int|
            0 <= a < row_tokens(g, i).len() && 0 <= b < row_tokens(g, i)[a].len()
            implies #[trigger] row_tokens(g, i)[a][b] != ',' by {
            lemma_grid_ok_from_inversion(ls, g);
            lemma_slot_token_plain(g[i * 9 + a]);
        }
        lemma_split_join(row_tokens(g, i));
        assert(split_on(line_of_row(g, i), ',') == row_tokens(g, i));
        assert(row_tokens(g, i)[j] == slot_token(g[i * 9 + j]));
        assert(g[i * 9 + j] == s) by {
            assert(g.subrange(9 * i, 9 * i + 9)[j] == g[9 * i + j]);
        }
        if u == seq!['_'] {
            assert(s == Slot::Empty);
            assert(slot_token(s) =~= u);
        } else {
            assert(all_digits(u));
            assert(u.len() == 1);
            lemma_val_single(u[0]);
            assert(u =~= seq![u[0]]);
            assert(digits_val(u) == char_digit(u[0]));
            assert(s == Slot::Filled(digits_val(u) as u8));
            lemma_char_of_digit(u[0], digits_val(u));
            assert(slot_token(s) =~= u);
        }
    }
}

/// A grid parsed from text is well-formed.
proof fn lemma_grid_ok_from_inversion(ls: Seq<Seq<char>>, g: Seq<Slot>)
    requires
        parse_text_spec(ls) == Ok::<Seq<Slot>, SudokuParseError>(g),
    ensures
        crate::puzzle::grid_ok(g),
{
    lemma_rows_inversion(ls, g);
    assert forall|k: int| 0 <= k < 81 implies slot_ok(#[trigger] g[k]) by {
        let i = k / 9;
        let j = k % 9;
        lemma_line_inversion(ls[i]);
        assert(g.subrange(9 * i, 9 * i + 9)[j] == g[k]);
        assert(g[k] == token_slot(split_on(ls[i], ',')[j]));
    }
}

/// The digit character of a digit's value is the character itself.
proof fn lemma_char_of_digit(c: char, d: int)
    requires
        is_digit(c),
        char_digit(c) == d,
        1 <= d <= 9,
    ensures
        c == digit_char(d),
{
    if d == 1 {
        assert(c as u32 == 49);
        assert(c == '1');
    } else if d == 2 {
        assert(c as u32 == 50);
        assert(c == '2');
    } else if d == 3 {
        assert(c as u32 == 51);
        assert(c == '3');
    } else if d == 4 {
        assert(c as u32 == 52);
        assert(c == '4');
    } else if d == 5 {
        assert(c as u32 == 53);
        assert(c == '5');
    } else if d == 6 {
        assert(c as u32 == 54);
        assert(c == '6');
    } else if d == 7 {
        assert(c as u32 == 55);
        assert(c == '7');
    } else if d == 8 {
        assert(c as u32 == 56);
        assert(c == '8');
    } else {
        assert(c as u32 == 57);
        assert(c == '9');
    }
}

/// The text of one digit 1..=9.
pub(crate) fn digit_str(n: u8) -> (r: &'static str)
    requires
        1 <= n <= 9,
    ensures
        r@ == seq![digit_char(n as int)],
{
    proof {
        reveal_strlit("1");
        reveal_strlit("2");
        reveal_strlit("3");
        reveal_strlit("4");
        reveal_strlit("5");
        reveal_strlit("6");
        reveal_strlit("7");
        reveal_strlit("8");
        reveal_strlit("9");
    }
    match n {
        1 => "1",
        2 => "2",
        3 => "3",
        4 => "4",
        5 => "5",
        6 => "6",
        7 => "7",
        8 => "8",
        _ => "9",
    }
}

impl SudokuPuzzle {
    /// Serialize the puzzle into its 9 text lines: for each row, the 9
    /// tokens joined with commas, `_` for an empty cell, the digit for a
    /// filled one. Serialization is total: it never fails.
    pub fn to_lines(&self) -> (r: Vec<String>)
        requires
            self.wf(),
        ensures
            r@.len() == 9,
            forall|i: int| 0 <= i < 9 ==> r@[i]@ == line_of_row(self@, i),
    {
        let cells = self.grid_ref();
        let mut out: Vec<String> = Vec::new();
        for i in 0..9usize
            invariant
                cells@ == self@,
                self.wf(),
                out@.len() == i,
                forall|q: int| 0 <= q < i ==> out@[q]@ == line_of_row(self@, q),
        {
            let mut line = String::new();
            proof {
                reveal_strlit(",");
                reveal_strlit("_");
            }
            for j in 0..9usize
                invariant
                    cells@ == self@,
                    self.wf(),
                    i < 9,
                    ","@ == seq![','],
                    "_"@ == seq!['_'],
                    line@ == join_tokens(row_tokens(self@, i as int).take(j as int)),
            {
                let ghost toks = row_tokens(self@, i as int);
                if j > 0 {
                    line.append(",");
                }
                let idx = i * 9 + j;
                match cells[idx] {
                    Slot::Empty => line.append("_"),
                    Slot::Filled(n) => line.append(digit_str(n)),
                }
                proof {
                    assert(toks[j as int] == slot_token(self@[i * 9 + j]));
                    if j == 0 {
                        assert(toks.take(1) =~= seq![toks[0]]);
                        assert(join_tokens(seq![toks[0]]) == toks[0]);
                        assert(line@ =~= toks[0]);
                    } else {
                        lemma_join_snoc(toks.take(j as int), toks[j as int]);
                        assert(toks.take(j as int).push(toks[j as int]) =~= toks.take(j + 1));
                        assert(line@ =~= (join_tokens(toks.take(j as int)) + seq![','])
                            + toks[j as int]);
                        assert((join_tokens(toks.take(j as int)) + seq![',']) + toks[j as int]
                            =~= join_tokens(toks.take(j as int)) + seq![','] + toks[j as int]);
                    }
                }
            }
            proof {
                assert(row_tokens(self@, i as int).take(9) =~= row_tokens(self@, i as int));
            }
            out.push(line);
        }
        out
    }
}

/// Relies on String::push: appends exactly one character.
#[verifier::external_body]
pub(crate) fn push_char(s: &mut String, c: char)
    ensures
        final(s)@ == old(s)@.push(c),
{
    s.push(c);
}

/// The horizontal rule that frames the rendering.
pub open spec fn frame_rule() -> Seq<char> {
    Seq::new(17, |i: int| '-')
}

/// The separator line between framed rows.
pub open spec fn frame_between() -> Seq<char> {
    seq!['|'] + Seq::new(17, |i: int| if i % 2 == 0 { '-' } else { '+' }) + seq!['\n']
}

/// One framed cell: the digit, or a space for an empty cell, then the
/// right-hand bar.
pub open spec fn framed_slot(s: Slot) -> Seq<char> {
    match s {
        Slot::Empty => seq![' ', '|'],
        Slot::Filled(n) => seq![digit_char(n as int), '|'],
    }
}

/// The first `j` framed cells of row `i`.
pub open spec fn framed_cells(g: Seq<Slot>, i: int, j: int) -> Seq<char>
    decreases j,
{
    if j <= 0 {
        Seq::<char>::empty()
    } else {
        framed_cells(g, i, j - 1) + framed_slot(g[i * 9 + (j - 1)])
    }
}

/// Row `i`, framed: a bar, the nine cells, a line break.
pub open spec fn framed_row(g: Seq<Slot>, i: int) -> Seq<char> {
    seq!['|'] + framed_cells(g, i, 9) + seq!['\n']
}

/// The first `i` framed rows, separated by the between-rows line.
pub open spec fn framed_body(g: Seq<Slot>, i: int) -> Seq<char>
    decreases i,
{
    if i <= 0 {
        Seq::<char>::empty()
    } else if i == 1 {
        framed_row(g, 0)
    } else {
        framed_body(g, i - 1) + frame_between() + framed_row(g, i - 1)
    }
}

/// The whole framed rendering: a rule, the nine rows with separators
/// between them, a rule.
pub open spec fn framed_text(g: Seq<Slot>) -> Seq<char> {
    frame_rule() + seq!['\n'] + framed_body(g, 9) + frame_rule() + seq!['\n']
}

impl SudokuPuzzle {
    /// The framed, human-readable rendering of the grid, for a caller
    /// that displays it: each row between bars, a rule above and below,
    /// and a separator line between rows.
    pub fn render(&self) -> (r: String)
        requires
            self.wf(),
        ensures
            r@ == framed_text(self@),
    {
        let cells = self.grid_ref();
        let mut out = String::new();
        proof {
            reveal_strlit("-----------------");
            reveal_strlit("|-+-+-+-+-+-+-+-+-");
            assert("-----------------"@ =~= frame_rule());
            assert(seq!['|'] + Seq::new(17, |i: int| if i % 2 == 0 { '-' } else { '+' })
                =~= "|-+-+-+-+-+-+-+-+-"@);
        }
        out.append("-----------------");
        push_char(&mut out, '\n');
        proof {
            assert(out@ =~= frame_rule() + seq!['\n']);
            assert(framed_body(self@, 0) == Seq::<char>::empty());
            assert(out@ =~= frame_rule() + seq!['\n'] + framed_body(self@, 0));
        }
        for i in 0..9usize
            invariant
                cells@ == self@,
                self.wf(),
                "-----------------"@ == frame_rule(),
                seq!['|'] + Seq::new(17, |q: int| if q % 2 == 0 { '-' } else { '+' })
                    == "|-+-+-+-+-+-+-+-+-"@,
                out@ == frame_rule() + seq!['\n'] + framed_body(self@, i as int),
        {
            if i > 0 {
                out.append("|-+-+-+-+-+-+-+-+-");
                push_char(&mut out, '\n');
                proof {
                    assert(out@ =~= frame_rule() + seq!['\n'] + framed_body(self@, i as int)
                        + frame_between());
                }
            }
            push_char(&mut out, '|');
            let ghost base = out@;
            for j in 0..9usize
                invariant
                    cells@ == self@,
                    self.wf(),
                    i < 9,
                    out@ == base + framed_cells(self@, i as int, j as int),
            {
                let idx = i * 9 + j;
                match cells[idx] {
                    Slot::Empty => push_char(&mut out, ' '),
                    Slot::Filled(n) => out.append(digit_str(n)),
                }
                push_char(&mut out, '|');
                proof {
                    assert(out@ =~= base + framed_cells(self@, i as int, j + 1));
                }
            }
            push_char(&mut out, '\n');
            proof {
                if i == 0 {
                    assert(out@ =~= frame_rule() + seq!['\n'] + framed_body(self@, 1));
                } else {
                    assert(out@ =~= frame_rule() + seq!['\n'] + framed_body(self@, i + 1));
                }
            }
        }
        out.append("-----------------");
        push_char(&mut out, '\n');
        proof {
            assert(out@ =~= framed_text(self@));
        }
        out
    }
}

} // verus!
