//! Formula-set text: statements `name=expression` separated by `;`, and the
//! bracket references `[name]` that an expression makes.
use vstd::prelude::*;
use crate::text::{same_chars, slice_of, trim, trimmed_slice};

verus! {

/// Why a formula-set text was refused.
#[derive(Debug, Clone, Copy, PartialEq, Eq, Structural)]
pub enum ParseError {
    /// A statement has no `=`, or nothing but spaces before it.
    MissingAssignment,
    /// Two statements define the same name.
    DuplicateName,
}

/// One statement of a formula set: the trimmed name and the expression text.
pub struct Statement {
    pub name: Vec<char>,
    pub expression: Vec<char>,
}

impl View for Statement {
    type V = (Seq<char>, Seq<char>);

    open spec fn view(&self) -> (Seq<char>, Seq<char>) {
        (self.name@, self.expression@)
    }
}

pub open spec fn stmts_view(v: Seq<Statement>) -> Seq<(Seq<char>, Seq<char>)> {
    v.map_values(|s: Statement| s@)
}

/// The pieces between the separators, as `str::split` gives them.
pub open spec fn split_on(s: Seq<char>, sep: char) -> Seq<Seq<char>>
    decreases s.len(),
{
    if s.len() == 0 {
        seq![Seq::<char>::empty()]
    } else {
        let p = split_on(s.drop_last(), sep);
        if s.last() == sep {
            p.push(Seq::<char>::empty())
        } else {
            p.update(p.len() - 1, p.last().push(s.last()))
        }
    }
}

pub proof fn lemma_split_nonempty(s: Seq<char>, sep: char)
    ensures
        split_on(s, sep).len() >= 1,
    decreases s.len(),
{
    if s.len() > 0 {
        lemma_split_nonempty(s.drop_last(), sep);
    }
}

/// Index of the first `c` in `s`, or -1.
pub open spec fn find_char(s: Seq<char>, c: char) -> int
    decreases s.len(),
{
    if s.len() == 0 {
        -1
    } else if s[0] == c {
        0
    } else {
        let r = find_char(s.drop_first(), c);
        if r < 0 {
            -1
        } else {
            r + 1
        }
    }
}

proof fn lemma_find_char(s: Seq<char>, c: char, k: int)
    requires
        0 <= k <= s.len(),
        forall|j: int| 0 <= j < k ==> s[j] != c,
        k < s.len() ==> s[k] == c,
    ensures
        find_char(s, c) == (if k < s.len() {
            k
        } else {
            -1
        }),
    decreases k,
{
    if k > 0 {
        lemma_find_char(s.drop_first(), c, k - 1);
    }
}

/// A statement: split on the first `=`; the name is what stands before it,
/// trimmed, and must not be empty.
pub open spec fn parse_statement(piece: Seq<char>) -> Option<(Seq<char>, Seq<char>)> {
    let k = find_char(piece, '=');
    if k < 0 || trim(piece.take(k)).len() == 0 {
        None
    } else {
        Some((trim(piece.take(k)), piece.skip(k + 1)))
    }
}

pub open spec fn parse_pieces(pieces: Seq<Seq<char>>) -> Option<Seq<(Seq<char>, Seq<char>)>>
    decreases pieces.len(),
{
    if pieces.len() == 0 {
        Some(Seq::empty())
    } else {
        match parse_pieces(pieces.drop_last()) {
            None => None,
            Some(done) => match parse_statement(pieces.last()) {
                None => None,
                Some(st) => Some(done.push(st)),
            },
        }
    }
}

pub open spec fn names_distinct(st: Seq<(Seq<char>, Seq<char>)>) -> bool {
    forall|i: int, j: int| 0 <= i < j < st.len() ==> st[i].0 != st[j].0
}

/// The statements of a formula-set text, in text order.
pub open spec fn parse_formula(text: Seq<char>) -> Result<Seq<(Seq<char>, Seq<char>)>, ParseError> {
    match parse_pieces(split_on(text, ';')) {
        None => Err(ParseError::MissingAssignment),
        Some(st) => if names_distinct(st) {
            Ok(st)
        } else {
            Err(ParseError::DuplicateName)
        },
    }
}

pub proof fn lemma_parse_pieces(pieces: Seq<Seq<char>>)
    ensures
        parse_pieces(pieces) is Some <==> forall|k: int|
            0 <= k < pieces.len() ==> #[trigger] parse_statement(pieces[k]) is Some,
        parse_pieces(pieces) matches Some(st) ==> st.len() == pieces.len() && forall|k: int|
            0 <= k < pieces.len() ==> #[trigger] parse_statement(pieces[k]) == Some(st[k]),
    decreases pieces.len(),
{
    if pieces.len() > 0 {
        lemma_parse_pieces(pieces.drop_last());
        if parse_pieces(pieces) is Some {
            assert forall|k: int| 0 <= k < pieces.len() implies #[trigger] parse_statement(
                pieces[k],
            ) is Some by {
                if k < pieces.len() - 1 {
                    assert(pieces.drop_last()[k] == pieces[k]);
                }
            }
        } else if forall|k: int|
            0 <= k < pieces.len() ==> #[trigger] parse_statement(pieces[k]) is Some {
            assert forall|k: int| 0 <= k < pieces.drop_last().len() implies #[trigger] parse_statement(
                pieces.drop_last()[k],
            ) is Some by {
                assert(pieces.drop_last()[k] == pieces[k]);
            }
            assert(parse_statement(pieces[pieces.len() - 1]) is Some);
        }
        if let Some(st) = parse_pieces(pieces) {
            assert forall|k: int| 0 <= k < pieces.len() implies #[trigger] parse_statement(
                pieces[k],
            ) == Some(st[k]) by {
                if k < pieces.len() - 1 {
                    assert(pieces.drop_last()[k] == pieces[k]);
                }
            }
        }
    }
}

pub open spec fn parsed_view(r: Result<Vec<Statement>, ParseError>) -> Result<
    Seq<(Seq<char>, Seq<char>)>,
    ParseError,
> {
    match r {
        Ok(v) => Ok(stmts_view(v@)),
        Err(e) => Err(e),
    }
}

/// Parses the piece `text[lo..hi]` as one statement.
fn parse_piece(text: &Vec<char>, lo: usize, hi: usize) -> (r: Option<Statement>)
    requires
        lo <= hi <= text@.len(),
    ensures
        match r {
            None => parse_statement(text@.subrange(lo as int, hi as int)) is None,
            Some(st) => parse_statement(text@.subrange(lo as int, hi as int)) == Some(st@),
        },
{
    let ghost piece = text@.subrange(lo as int, hi as int);
    let mut k: usize = lo;
    while k < hi && text[k] != '='
        invariant
            lo <= k <= hi <= text@.len(),
            forall|j: int| lo <= j < k ==> text@[j] != '=',
        decreases hi - k,
    {
        k = k + 1;
    }
    proof {
        lemma_find_char(piece, '=', k - lo);
    }
    if k == hi {
        return None;
    }
    let name = trimmed_slice(text, lo, k);
    assert(piece.take(k - lo) =~= text@.subrange(lo as int, k as int));
    if name.len() == 0 {
        return None;
    }
    let expression = slice_of(text, k + 1, hi);
    assert(piece.skip(k - lo + 1) =~= text@.subrange(k + 1, hi as int));
    Some(Statement { name, expression })
}

/// Splits a formula-set text into its statements. Fails on the first
/// statement without `=` or with an empty name, and on a name defined twice.
pub fn parse_formula_text(text: &Vec<char>) -> (r: Result<Vec<Statement>, ParseError>)
    ensures
        parsed_view(r) == parse_formula(text@),
{
    let mut out: Vec<Statement> = Vec::new();
    let mut failed = false;
    let mut start: usize = 0;
    let mut i: usize = 0;
    let ghost mut done: Seq<Seq<char>> = Seq::empty();
    assert(text@.take(0) =~= Seq::<char>::empty());
    assert(text@.subrange(0, 0) =~= Seq::<char>::empty());
    while i < text.len()
        invariant
            0 <= start <= i <= text@.len(),
            split_on(text@.take(i as int), ';') == done.push(text@.subrange(start as int, i as int)),
            failed <==> parse_pieces(done) is None,
            !failed ==> parse_pieces(done) == Some(stmts_view(out@)),
        decreases text@.len() - i,
    {
        assert(text@.take(i + 1).drop_last() =~= text@.take(i as int));
        if text[i] == ';' {
            if !failed {
                match parse_piece(text, start, i) {
                    None => {
                        failed = true;
                    },
                    Some(st) => {
                        let ghost prev = out@;
                        out.push(st);
                        assert(stmts_view(out@) =~= stmts_view(prev).push(out@.last()@));
                    },
                }
            }
            proof {
                assert(done.push(text@.subrange(start as int, i as int)).drop_last() =~= done);
                done = done.push(text@.subrange(start as int, i as int));
            }
            start = i + 1;
            assert(text@.subrange(start as int, i + 1) =~= Seq::<char>::empty());
        } else {
            assert(text@.subrange(start as int, i + 1) =~= text@.subrange(start as int, i as int).push(text@[i as int]));
        }
        i = i + 1;
    }
    assert(text@.take(i as int) =~= text@);
    let ghost pieces = done.push(text@.subrange(start as int, i as int));
    assert(pieces.drop_last() =~= done);
    if !failed {
        match parse_piece(text, start, i) {
            None => {
                failed = true;
            },
            Some(st) => {
                let ghost prev = out@;
                out.push(st);
                assert(stmts_view(out@) =~= stmts_view(prev).push(out@.last()@));
            },
        }
    }
    if failed {
        return Err(ParseError::MissingAssignment);
    }
    assert(parse_pieces(pieces) == Some(stmts_view(out@)));
    assert(pieces == split_on(text@, ';'));
    // every name once
    let mut a: usize = 0;
    while a < out.len()
        invariant
            0 <= a <= out@.len(),
            parse_pieces(split_on(text@, ';')) == Some(stmts_view(out@)),
            forall|x: int, y: int| 0 <= x < y < out@.len() && x < a ==> out@[x].name@ != out@[y].name@,
        decreases out@.len() - a,
    {
        let mut b: usize = a + 1;
        while b < out.len()
            invariant
                0 <= a < b <= out@.len(),
                parse_pieces(split_on(text@, ';')) == Some(stmts_view(out@)),
                forall|x: int, y: int| 0 <= x < y < out@.len() && x < a ==> out@[x].name@ != out@[y].name@,
                forall|y: int| a < y < b ==> out@[a as int].name@ != out@[y].name@,
            decreases out@.len() - b,
        {
            if same_chars(&out[a].name, &out[b].name) {
                assert(!names_distinct(stmts_view(out@))) by {
                    assert(stmts_view(out@)[a as int].0 == stmts_view(out@)[b as int].0);
                }
                return Err(ParseError::DuplicateName);
            }
            b = b + 1;
        }
        a = a + 1;
    }
    assert(names_distinct(stmts_view(out@)));
    Ok(out)
}

} // verus!
