use vstd::prelude::*;
use vstd::string::StrSliceExecFns;

use crate::ast::Expr;
use crate::ast::SpecExpr;
use crate::ast::exprs_model;
use crate::ast::lemma_exprs_model;

verus! {

/// A parse error, each variant one way the grammar can fail.
#[derive(Debug, PartialEq, Eq, Structural, Clone, Copy)]
pub enum ParseError {
    UnexpectedChar,
    UnexpectedEnd,
    ExpectedCloseParen,
    ExpectedDot,
    ExpectedWord,
}

/// A whitespace character of the surface syntax.
pub open spec fn spec_is_ws(c: char) -> bool {
    c == ' ' || c == '\n' || c == '\r' || c == '\t'
}

/// A word character: ASCII letter, digit, or underscore.
pub open spec fn spec_word_char(c: char) -> bool {
    (97 <= c as u32 && c as u32 <= 122) || (65 <= c as u32 && c as u32 <= 90) || (48 <= c as u32
        && c as u32 <= 57) || c == '_'
}

/// The position after any whitespace run starting at `pos`.
pub open spec fn spec_skip_ws(s: Seq<char>, pos: int) -> int
    decreases s.len() - pos,
{
    if 0 <= pos < s.len() && spec_is_ws(s[pos]) {
        spec_skip_ws(s, pos + 1)
    } else {
        pos
    }
}

/// Skipping whitespace only moves forward, and never past the end.
pub proof fn lemma_skip_ws_bounds(s: Seq<char>, pos: int)
    ensures
        pos <= spec_skip_ws(s, pos),
        pos <= s.len() ==> spec_skip_ws(s, pos) <= s.len(),
        0 <= pos && spec_skip_ws(s, pos) < s.len() ==> !spec_is_ws(s[spec_skip_ws(s, pos)]),
    decreases s.len() - pos,
{
    if 0 <= pos < s.len() && spec_is_ws(s[pos]) {
        lemma_skip_ws_bounds(s, pos + 1);
    }
}

/// The position just past the word starting at `pos`.
pub open spec fn spec_word_end(s: Seq<char>, pos: int) -> int
    decreases s.len() - pos,
{
    if 0 <= pos < s.len() && spec_word_char(s[pos]) {
        spec_word_end(s, pos + 1)
    } else {
        pos
    }
}

/// A word run only moves forward, never past the end, and stops at the
/// first non-word character.
pub proof fn lemma_word_end_bounds(s: Seq<char>, pos: int)
    ensures
        pos <= spec_word_end(s, pos),
        pos <= s.len() ==> spec_word_end(s, pos) <= s.len(),
        0 <= pos && spec_word_end(s, pos) < s.len() ==> !spec_word_char(
            s[spec_word_end(s, pos)],
        ),
        forall|j: int| pos <= j < spec_word_end(s, pos) ==> spec_word_char(s[j]),
    decreases s.len() - pos,
{
    if 0 <= pos < s.len() && spec_word_char(s[pos]) {
        lemma_word_end_bounds(s, pos + 1);
    }
}

/// Read one word at `pos`: its characters and the position after them.
/// Fails if no word character stands at `pos`.
pub open spec fn spec_parse_word(s: Seq<char>, pos: int) -> (Result<Seq<char>, ParseError>, int) {
    let e = spec_word_end(s, pos);
    if e == pos {
        (Err(ParseError::ExpectedWord), pos)
    } else {
        (Ok(s.subrange(pos, e)), e)
    }
}

/// The whitespace-separated words from `pos` on, gathered into `acc`;
/// stops before the first character that no word starts with.
pub open spec fn spec_parse_words_rest(s: Seq<char>, pos: int, acc: Seq<Seq<char>>) -> (
    Seq<Seq<char>>,
    int,
)
    decreases s.len() - pos, 1int,
{
    let p = spec_skip_ws(s, pos);
    if 0 <= pos && p < s.len() && spec_word_char(s[p]) {
        proof {
            lemma_skip_ws_bounds(s, pos);
            lemma_word_end_bounds(s, p);
        }
        let e = spec_word_end(s, p);
        spec_parse_words_rest(s, e, acc.push(s.subrange(p, e)))
    } else {
        (acc, p)
    }
}

/// One or more words (a lambda's parameter list).
pub open spec fn spec_parse_words(s: Seq<char>, pos: int) -> (
    Result<Seq<Seq<char>>, ParseError>,
    int,
) {
    let r = spec_parse_words_rest(s, pos, Seq::empty());
    if r.0.len() == 0 {
        (Err(ParseError::ExpectedWord), r.1)
    } else {
        (Ok(r.0), r.1)
    }
}

/// One expression starting at `pos`: a lambda (`L` word+ `.`
/// expression), a definition (word `=` expression), or an application
/// chain of atoms headed by a word or a parenthesized document.
pub open spec fn spec_parse_expression(s: Seq<char>, pos: int) -> (
    Result<SpecExpr, ParseError>,
    int,
)
    decreases s.len() - pos, 2int,
{
    let p = spec_skip_ws(s, pos);
    proof {
        lemma_skip_ws_bounds(s, pos);
    }
    if pos < 0 {
        (Err(ParseError::UnexpectedEnd), p)
    } else if p >= s.len() {
        (Err(ParseError::UnexpectedEnd), p)
    } else if s[p] == '(' {
        let r = spec_parse_document(s, p + 1);
        match r.0 {
            Err(err) => (Err(err), r.1),
            Ok(e) => {
                let q = spec_skip_ws(s, r.1);
                if q < s.len() && s[q] == ')' {
                    if q >= p {
                        // a parenthesized atom may head an application
                        spec_parse_apply(s, q + 1, e)
                    } else {
                        // unreachable: parsing only moves forward
                        (Ok(e), q + 1)
                    }
                } else if q < s.len() {
                    (Err(ParseError::ExpectedCloseParen), q + 1)
                } else {
                    (Err(ParseError::ExpectedCloseParen), q)
                }
            },
        }
    } else if s[p] == 'L' {
        let p2 = spec_skip_ws(s, p + 1);
        proof {
            lemma_skip_ws_bounds(s, p + 1);
        }
        let rw = spec_parse_words(s, p2);
        match rw.0 {
            Err(err) => (Err(err), rw.1),
            Ok(params) => {
                let q = spec_skip_ws(s, rw.1);
                if q < s.len() && s[q] == '.' {
                    if q + 1 > pos {
                        let rb = spec_parse_expression(s, q + 1);
                        match rb.0 {
                            Err(err) => (Err(err), rb.1),
                            Ok(body) => (
                                Ok(SpecExpr::Lambda(params, Box::new(body))),
                                rb.1,
                            ),
                        }
                    } else {
                        // unreachable: the `L` alone stands before q + 1
                        (Err(ParseError::ExpectedDot), q + 1)
                    }
                } else if q < s.len() {
                    (Err(ParseError::ExpectedDot), q + 1)
                } else {
                    (Err(ParseError::ExpectedDot), q)
                }
            },
        }
    } else if spec_word_char(s[p]) {
        let e = spec_word_end(s, p);
        proof {
            lemma_word_end_bounds(s, p);
        }
        let first = s.subrange(p, e);
        let q = spec_skip_ws(s, e);
        proof {
            lemma_skip_ws_bounds(s, e);
        }
        if q < s.len() && s[q] == '=' {
            let rr = spec_parse_expression(s, q + 1);
            match rr.0 {
                Err(err) => (Err(err), rr.1),
                Ok(rhs) => (Ok(SpecExpr::Define(first, Box::new(rhs))), rr.1),
            }
        } else {
            spec_parse_apply(s, q, SpecExpr::Var(first))
        }
    } else {
        (Err(ParseError::UnexpectedChar), p)
    }
}

/// One atom: a word (as a variable) or a parenthesized document.
pub open spec fn spec_parse_atom(s: Seq<char>, pos: int) -> (Result<SpecExpr, ParseError>, int)
    decreases s.len() - pos, 2int,
{
    if 0 <= pos && pos < s.len() && s[pos] == '(' {
        let r = spec_parse_document(s, pos + 1);
        match r.0 {
            Err(err) => (Err(err), r.1),
            Ok(e) => {
                let q = spec_skip_ws(s, r.1);
                if q < s.len() && s[q] == ')' {
                    (Ok(e), q + 1)
                } else if q < s.len() {
                    (Err(ParseError::ExpectedCloseParen), q + 1)
                } else {
                    (Err(ParseError::ExpectedCloseParen), q)
                }
            },
        }
    } else if 0 <= pos && pos < s.len() && spec_word_char(s[pos]) {
        let e = spec_word_end(s, pos);
        proof {
            lemma_word_end_bounds(s, pos);
        }
        (Ok(SpecExpr::Var(s.subrange(pos, e))), e)
    } else {
        (Err(ParseError::UnexpectedChar), pos)
    }
}

/// The application chain after a first atom: as long as a word or `(`
/// follows, parse one more atom and apply `acc` to it — juxtaposition
/// associates to the left.
pub open spec fn spec_parse_apply(s: Seq<char>, pos: int, acc: SpecExpr) -> (
    Result<SpecExpr, ParseError>,
    int,
)
    decreases s.len() - pos, 3int,
{
    let p = spec_skip_ws(s, pos);
    proof {
        lemma_skip_ws_bounds(s, pos);
    }
    if 0 <= pos && p < s.len() && (spec_word_char(s[p]) || s[p] == '(') {
        let r = spec_parse_atom(s, p);
        match r.0 {
            Err(err) => (Err(err), r.1),
            Ok(right) => {
                if r.1 > p && r.1 <= s.len() {
                    spec_parse_apply(s, r.1, SpecExpr::Apply(Box::new(acc), Box::new(right)))
                } else {
                    // unreachable: a parsed atom always advances
                    (Ok(SpecExpr::Apply(Box::new(acc), Box::new(right))), r.1)
                }
            },
        }
    } else {
        (Ok(acc), p)
    }
}

/// The expressions of a document from `pos` on, separated by `;`,
/// gathered into `acc`.
pub open spec fn spec_parse_document_rest(s: Seq<char>, pos: int, acc: Seq<SpecExpr>) -> (
    Result<Seq<SpecExpr>, ParseError>,
    int,
)
    decreases s.len() - pos, 4int,
{
    let p = spec_skip_ws(s, pos);
    proof {
        lemma_skip_ws_bounds(s, pos);
    }
    if pos < 0 || p >= s.len() {
        (Ok(acc), p)
    } else {
        let r = spec_parse_expression(s, p);
        match r.0 {
            Err(err) => (Err(err), r.1),
            Ok(e) => {
                let q = spec_skip_ws(s, r.1);
                if q < s.len() && s[q] == ';' {
                    if r.1 > p {
                        proof {
                            lemma_skip_ws_bounds(s, r.1);
                        }
                        spec_parse_document_rest(s, q + 1, acc.push(e))
                    } else {
                        // unreachable: a parsed expression always advances
                        (Ok(acc.push(e)), q + 1)
                    }
                } else {
                    (Ok(acc.push(e)), q)
                }
            },
        }
    }
}

/// A whole program: a document that must consume the entire input;
/// leftover text is an error.
pub open spec fn spec_parse(s: Seq<char>) -> (Result<SpecExpr, ParseError>, int) {
    let r = spec_parse_document(s, 0);
    match r.0 {
        Err(err) => (Err(err), r.1),
        Ok(e) => {
            if r.1 >= s.len() {
                (Ok(e), r.1)
            } else {
                (Err(ParseError::UnexpectedChar), r.1)
            }
        },
    }
}

/// A whole document: expressions separated by `;`.  One expression is
/// itself; zero or several become a `Sequence`.
pub open spec fn spec_parse_document(s: Seq<char>, pos: int) -> (Result<SpecExpr, ParseError>, int)
    decreases s.len() - pos, 5int,
{
    let r = spec_parse_document_rest(s, pos, Seq::empty());
    match r.0 {
        Err(err) => (Err(err), r.1),
        Ok(list) => {
            if list.len() == 1 {
                (Ok(list[0]), r.1)
            } else {
                (Ok(SpecExpr::Sequence(list)), r.1)
            }
        },
    }
}

/// Parsing an expression never moves backwards nor past the end, and a
/// successful parse consumes at least one character.
pub proof fn lemma_parse_expression_bounds(s: Seq<char>, pos: int)
    requires
        0 <= pos <= s.len(),
    ensures
        ({
            let r = spec_parse_expression(s, pos);
            pos <= r.1 <= s.len() && (r.0 is Ok ==> r.1 > pos)
        }),
    decreases s.len() - pos, 2int,
{
    let p = spec_skip_ws(s, pos);
    lemma_skip_ws_bounds(s, pos);
    if p < s.len() {
        if s[p] == '(' {
            lemma_parse_document_bounds(s, p + 1);
            let r = spec_parse_document(s, p + 1);
            if r.0 is Ok {
                lemma_skip_ws_bounds(s, r.1);
                let q = spec_skip_ws(s, r.1);
                if q < s.len() && s[q] == ')' && q >= p {
                    lemma_parse_apply_bounds(s, q + 1, r.0->Ok_0);
                }
            }
        } else if s[p] == 'L' {
            lemma_skip_ws_bounds(s, p + 1);
            let p2 = spec_skip_ws(s, p + 1);
            lemma_parse_words_rest_bounds(s, p2, Seq::empty());
            let rw = spec_parse_words(s, p2);
            if rw.0 is Ok {
                lemma_skip_ws_bounds(s, rw.1);
                let q = spec_skip_ws(s, rw.1);
                if q < s.len() && s[q] == '.' {
                    lemma_parse_expression_bounds(s, q + 1);
                }
            }
        } else if spec_word_char(s[p]) {
            lemma_word_end_bounds(s, p);
            let e = spec_word_end(s, p);
            lemma_skip_ws_bounds(s, e);
            let q = spec_skip_ws(s, e);
            if q < s.len() && s[q] == '=' {
                lemma_parse_expression_bounds(s, q + 1);
            } else {
                lemma_parse_apply_bounds(s, q, SpecExpr::Var(s.subrange(p, e)));
            }
        }
    }
}

/// As `lemma_parse_expression_bounds`, for one atom.
pub proof fn lemma_parse_atom_bounds(s: Seq<char>, pos: int)
    requires
        0 <= pos <= s.len(),
    ensures
        ({
            let r = spec_parse_atom(s, pos);
            pos <= r.1 <= s.len() && (r.0 is Ok ==> r.1 > pos)
        }),
    decreases s.len() - pos, 2int,
{
    if pos < s.len() && s[pos] == '(' {
        lemma_parse_document_bounds(s, pos + 1);
        let r = spec_parse_document(s, pos + 1);
        if r.0 is Ok {
            lemma_skip_ws_bounds(s, r.1);
        }
    } else if pos < s.len() && spec_word_char(s[pos]) {
        lemma_word_end_bounds(s, pos);
    }
}

/// As `lemma_parse_expression_bounds`, for an application chain.
pub proof fn lemma_parse_apply_bounds(s: Seq<char>, pos: int, acc: SpecExpr)
    requires
        0 <= pos <= s.len(),
    ensures
        ({
            let r = spec_parse_apply(s, pos, acc);
            pos <= r.1 <= s.len()
        }),
    decreases s.len() - pos, 3int,
{
    let p = spec_skip_ws(s, pos);
    lemma_skip_ws_bounds(s, pos);
    if p < s.len() && (spec_word_char(s[p]) || s[p] == '(') {
        lemma_parse_atom_bounds(s, p);
        let r = spec_parse_atom(s, p);
        if r.0 is Ok {
            lemma_parse_apply_bounds(
                s,
                r.1,
                SpecExpr::Apply(Box::new(acc), Box::new(r.0->Ok_0)),
            );
        }
    }
}

/// As `lemma_parse_expression_bounds`, for a parameter list.
pub proof fn lemma_parse_words_rest_bounds(s: Seq<char>, pos: int, acc: Seq<Seq<char>>)
    requires
        0 <= pos <= s.len(),
    ensures
        ({
            let r = spec_parse_words_rest(s, pos, acc);
            pos <= r.1 <= s.len()
        }),
    decreases s.len() - pos, 1int,
{
    let p = spec_skip_ws(s, pos);
    lemma_skip_ws_bounds(s, pos);
    if p < s.len() && spec_word_char(s[p]) {
        lemma_word_end_bounds(s, p);
        let e = spec_word_end(s, p);
        lemma_parse_words_rest_bounds(s, e, acc.push(s.subrange(p, e)));
    }
}

/// As `lemma_parse_expression_bounds`, for a document's item walk.
pub proof fn lemma_parse_document_rest_bounds(s: Seq<char>, pos: int, acc: Seq<SpecExpr>)
    requires
        0 <= pos <= s.len(),
    ensures
        ({
            let r = spec_parse_document_rest(s, pos, acc);
            pos <= r.1 <= s.len()
        }),
    decreases s.len() - pos, 4int,
{
    let p = spec_skip_ws(s, pos);
    lemma_skip_ws_bounds(s, pos);
    if p < s.len() {
        lemma_parse_expression_bounds(s, p);
        let r = spec_parse_expression(s, p);
        if r.0 is Ok {
            lemma_skip_ws_bounds(s, r.1);
            let q = spec_skip_ws(s, r.1);
            if q < s.len() && s[q] == ';' {
                lemma_parse_document_rest_bounds(s, q + 1, acc.push(r.0->Ok_0));
            }
        }
    }
}

/// As `lemma_parse_expression_bounds`, for a whole document.
pub proof fn lemma_parse_document_bounds(s: Seq<char>, pos: int)
    requires
        0 <= pos <= s.len(),
    ensures
        ({
            let r = spec_parse_document(s, pos);
            pos <= r.1 <= s.len()
        }),
    decreases s.len() - pos, 5int,
{
    lemma_parse_document_rest_bounds(s, pos, Seq::empty());
}

/// A recursive-descent parser over the characters of one source text.
pub struct Parser {
    pub input: String,
    pub pos: usize,
}

/// Is `ch` a word character (ASCII letter, digit, or underscore)?
pub fn is_word_char(ch: char) -> (r: bool)
    ensures
        r == spec_word_char(ch),
{
    let u = ch as u32;
    (97 <= u && u <= 122) || (65 <= u && u <= 90) || (48 <= u && u <= 57) || ch == '_'
}

impl Parser {
    /// The position never passes the end of the input.
    pub open spec fn wf(&self) -> bool {
        self.pos <= self.input@.len()
    }

    /// A parser at the start of `input`.
    pub fn new(input: &str) -> (p: Parser)
        ensures
            p.input@ == input@,
            p.pos == 0,
            p.wf(),
    {
        Parser { input: input.to_owned(), pos: 0 }
    }

    /// The character under the cursor, if any.
    fn peek(&self) -> (r: Option<char>)
        requires
            self.wf(),
        ensures
            self.input@.len() <= usize::MAX,
            r == (if self.pos < self.input@.len() {
                Some(self.input@[self.pos as int])
            } else {
                Option::<char>::None
            }),
    {
        if self.pos < self.input.as_str().unicode_len() {
            Some(self.input.as_str().get_char(self.pos))
        } else {
            None
        }
    }

    /// Read and consume one character.
    fn next(&mut self) -> (r: Option<char>)
        requires
            old(self).wf(),
        ensures
            final(self).input == old(self).input,
            final(self).wf(),
            ({
                if old(self).pos < old(self).input@.len() {
                    r == Some(old(self).input@[old(self).pos as int]) && final(self).pos == old(
                        self,
                    ).pos + 1
                } else {
                    r == Option::<char>::None && final(self).pos == old(self).pos
                }
            }),
    {
        let c = self.peek();
        match c {
            Some(ch) => {
                self.pos = self.pos + 1;
                Some(ch)
            },
            None => None,
        }
    }

    /// Does a whitespace character stand under the cursor?
    fn at_ws(&self) -> (r: bool)
        requires
            self.wf(),
        ensures
            self.input@.len() <= usize::MAX,
            r == (self.pos < self.input@.len() && spec_is_ws(self.input@[self.pos as int])),
    {
        match self.peek() {
            Some(c) => c == ' ' || c == '\n' || c == '\r' || c == '\t',
            None => false,
        }
    }

    /// Does a word character stand under the cursor?
    fn at_word_char(&self) -> (r: bool)
        requires
            self.wf(),
        ensures
            self.input@.len() <= usize::MAX,
            r == (self.pos < self.input@.len() && spec_word_char(
                self.input@[self.pos as int],
            )),
    {
        match self.peek() {
            Some(c) => is_word_char(c),
            None => false,
        }
    }

    /// Move the cursor past any whitespace.
    #[verifier::loop_isolation(false)]
    fn skip_whitespace(&mut self)
        requires
            old(self).wf(),
        ensures
            final(self).input == old(self).input,
            final(self).wf(),
            final(self).pos == spec_skip_ws(old(self).input@, old(self).pos as int),
            final(self).pos >= old(self).pos,
    {
        while self.at_ws()
            invariant
                self.wf(),
                self.input == old(self).input,
                self.pos >= old(self).pos,
                spec_skip_ws(self.input@, self.pos as int) == spec_skip_ws(
                    old(self).input@,
                    old(self).pos as int,
                ),
            decreases self.input@.len() - self.pos,
        {
            self.pos = self.pos + 1;
        }
    }

    /// Read one word.
    #[verifier::loop_isolation(false)]
    fn parse_word(&mut self) -> (r: Result<String, ParseError>)
        requires
            old(self).wf(),
        ensures
            final(self).input == old(self).input,
            final(self).wf(),
            final(self).pos >= old(self).pos,
            ({
                let sp = spec_parse_word(old(self).input@, old(self).pos as int);
                final(self).pos == sp.1 && match r {
                    Ok(w) => sp.0 == Ok::<Seq<char>, ParseError>(w@),
                    Err(err) => sp.0 == Err::<Seq<char>, ParseError>(err),
                }
            }),
    {
        let start = self.pos;
        while self.at_word_char()
            invariant
                self.wf(),
                self.input == old(self).input,
                start <= self.pos,
                spec_word_end(self.input@, self.pos as int) == spec_word_end(
                    self.input@,
                    start as int,
                ),
            decreases self.input@.len() - self.pos,
        {
            self.pos = self.pos + 1;
        }
        if self.pos == start {
            Err(ParseError::ExpectedWord)
        } else {
            let w = self.input.as_str().substring_char(start, self.pos).to_owned();
            Ok(w)
        }
    }

    /// Read one or more whitespace-separated words.
    #[verifier::loop_isolation(false)]
    fn parse_words(&mut self) -> (r: Result<Vec<String>, ParseError>)
        requires
            old(self).wf(),
        ensures
            final(self).input@ == old(self).input@,
            final(self).wf(),
            final(self).pos >= old(self).pos,
            ({
                let sp = spec_parse_words(old(self).input@, old(self).pos as int);
                final(self).pos == sp.1 && match r {
                    Ok(ws) => sp.0 == Ok::<Seq<Seq<char>>, ParseError>(ws.deep_view()),
                    Err(err) => sp.0 == Err::<Seq<Seq<char>>, ParseError>(err),
                }
            }),
    {
        let ghost s = self.input@;
        let ghost pos0 = self.pos as int;
        let mut words: Vec<String> = Vec::new();
        proof {
            assert(words.deep_view() =~= Seq::<Seq<char>>::empty());
        }
        let mut done = false;
        while !done
            invariant
                self.wf(),
                self.input@ == s,
                self.pos >= pos0,
                !done ==> spec_parse_words_rest(s, self.pos as int, words.deep_view())
                    == spec_parse_words_rest(s, pos0, Seq::empty()),
                done ==> spec_parse_words_rest(s, pos0, Seq::empty()) == (
                    words.deep_view(),
                    self.pos as int,
                ),
            decreases s.len() - self.pos + (if done { 0int } else { 1int }),
        {
            let ghost pos_head = self.pos as int;
            let ghost acc0 = words.deep_view();
            self.skip_whitespace();
            proof {
                lemma_skip_ws_bounds(s, pos_head);
            }
            if !self.at_word_char() {
                proof {
                    assert(spec_parse_words_rest(s, pos_head, acc0) == (
                        acc0,
                        self.pos as int,
                    ));
                }
                done = true;
            } else {
                let w = match self.parse_word() {
                    Ok(w) => w,
                    Err(err) => {
                        proof {
                            lemma_word_end_bounds(s, self.pos as int);
                            assert(false);
                        }
                        return Err(err);
                    },
                };
                words.push(w);
                proof {
                    assert(words.deep_view() =~= acc0.push(words.deep_view()[
                        words.deep_view().len() - 1
                    ]));
                    lemma_word_end_bounds(s, spec_skip_ws(s, pos_head));
                }
            }
        }
        if words.len() == 0 {
            Err(ParseError::ExpectedWord)
        } else {
            Ok(words)
        }
    }

    /// Parse one expression of the grammar.
    #[verifier::loop_isolation(false)]
    fn parse_expression(&mut self) -> (r: Result<Expr, ParseError>)
        requires
            old(self).wf(),
        ensures
            final(self).input@ == old(self).input@,
            final(self).wf(),
            final(self).pos >= old(self).pos,
            ({
                let sp = spec_parse_expression(old(self).input@, old(self).pos as int);
                final(self).pos == sp.1 && match r {
                    Ok(e) => sp.0 == Ok::<SpecExpr, ParseError>(e@),
                    Err(err) => sp.0 == Err::<SpecExpr, ParseError>(err),
                }
            }),
        decreases old(self).input@.len() - old(self).pos, 2int,
    {
        let ghost s = self.input@;
        let ghost pos0 = self.pos as int;
        self.skip_whitespace();
        proof {
            lemma_skip_ws_bounds(s, pos0);
        }
        let ghost p = self.pos as int;
        let c = match self.peek() {
            Some(c) => c,
            None => {
                return Err(ParseError::UnexpectedEnd);
            },
        };
        let mut expr: Expr;
        if c == '(' {
            self.pos = self.pos + 1;
            let e = match self.parse_document() {
                Ok(e) => e,
                Err(err) => {
                    return Err(err);
                },
            };
            proof {
                lemma_parse_document_bounds(s, p + 1);
            }
            self.skip_whitespace();
            match self.next() {
                Some(ch2) => {
                    if ch2 == ')' {
                        expr = e;
                    } else {
                        return Err(ParseError::ExpectedCloseParen);
                    }
                },
                None => {
                    return Err(ParseError::ExpectedCloseParen);
                },
            }
            proof {
                assert(spec_parse_expression(s, pos0) == spec_parse_apply(
                    s,
                    self.pos as int,
                    expr@,
                ));
            }
        } else if c == 'L' {
            self.pos = self.pos + 1;
            self.skip_whitespace();
            proof {
                lemma_skip_ws_bounds(s, p + 1);
            }
            let params = match self.parse_words() {
                Ok(ws) => ws,
                Err(err) => {
                    return Err(err);
                },
            };
            proof {
                lemma_parse_words_rest_bounds(s, spec_skip_ws(s, p + 1), Seq::empty());
            }
            self.skip_whitespace();
            match self.next() {
                Some(ch2) => {
                    if ch2 == '.' {
                        let body = match self.parse_expression() {
                            Ok(b) => b,
                            Err(err) => {
                                return Err(err);
                            },
                        };
                        return Ok(Expr::Lambda(params, Box::new(body)));
                    } else {
                        return Err(ParseError::ExpectedDot);
                    }
                },
                None => {
                    return Err(ParseError::ExpectedDot);
                },
            }
        } else if is_word_char(c) {
            let first = match self.parse_word() {
                Ok(w) => w,
                Err(err) => {
                    proof {
                        lemma_word_end_bounds(s, p);
                        assert(false);
                    }
                    return Err(err);
                },
            };
            proof {
                lemma_word_end_bounds(s, p);
            }
            self.skip_whitespace();
            proof {
                lemma_skip_ws_bounds(s, spec_word_end(s, p));
            }
            let is_define = match self.peek() {
                Some(ch2) => ch2 == '=',
                None => false,
            };
            if is_define {
                self.pos = self.pos + 1;
                let rhs = match self.parse_expression() {
                    Ok(e) => e,
                    Err(err) => {
                        return Err(err);
                    },
                };
                return Ok(Expr::Define(first, Box::new(rhs)));
            }
            expr = Expr::Var(first);
            proof {
                assert(spec_parse_expression(s, pos0) == spec_parse_apply(
                    s,
                    self.pos as int,
                    expr@,
                ));
            }
        } else {
            return Err(ParseError::UnexpectedChar);
        }
        // the application loop: left-associative over atoms
        let mut done = false;
        while !done
            invariant
                self.wf(),
                self.input@ == s,
                self.pos > pos0,
                !done ==> spec_parse_apply(s, self.pos as int, expr@) == spec_parse_expression(
                    s,
                    pos0,
                ),
                done ==> spec_parse_expression(s, pos0) == (
                    Ok::<SpecExpr, ParseError>(expr@),
                    self.pos as int,
                ),
            decreases s.len() - self.pos + (if done { 0int } else { 1int }),
        {
            let ghost pos_head = self.pos as int;
            let ghost acc0 = expr@;
            self.skip_whitespace();
            proof {
                lemma_skip_ws_bounds(s, pos_head);
            }
            let cont = match self.peek() {
                Some(ch2) => is_word_char(ch2) || ch2 == '(',
                None => false,
            };
            if !cont {
                proof {
                    assert(spec_parse_apply(s, pos_head, acc0) == (
                        Ok::<SpecExpr, ParseError>(acc0),
                        self.pos as int,
                    ));
                }
                done = true;
            } else {
                let ghost ph = self.pos as int;
                let right = match self.parse_atom() {
                    Ok(e) => e,
                    Err(err) => {
                        return Err(err);
                    },
                };
                proof {
                    lemma_parse_atom_bounds(s, ph);
                }
                expr = Expr::Apply(Box::new(expr), Box::new(right));
            }
        }
        Ok(expr)
    }

    /// Parse one atom: a word, or a parenthesized document.
    #[verifier::loop_isolation(false)]
    fn parse_atom(&mut self) -> (r: Result<Expr, ParseError>)
        requires
            old(self).wf(),
        ensures
            final(self).input@ == old(self).input@,
            final(self).wf(),
            final(self).pos >= old(self).pos,
            ({
                let sp = spec_parse_atom(old(self).input@, old(self).pos as int);
                final(self).pos == sp.1 && match r {
                    Ok(e) => sp.0 == Ok::<SpecExpr, ParseError>(e@),
                    Err(err) => sp.0 == Err::<SpecExpr, ParseError>(err),
                }
            }),
        decreases old(self).input@.len() - old(self).pos, 2int,
    {
        let ghost s = self.input@;
        let ghost p = self.pos as int;
        let c = match self.peek() {
            Some(c) => c,
            None => {
                return Err(ParseError::UnexpectedChar);
            },
        };
        if c == '(' {
            self.pos = self.pos + 1;
            let e = match self.parse_document() {
                Ok(e) => e,
                Err(err) => {
                    return Err(err);
                },
            };
            proof {
                lemma_parse_document_bounds(s, p + 1);
            }
            self.skip_whitespace();
            match self.next() {
                Some(ch2) => {
                    if ch2 == ')' {
                        Ok(e)
                    } else {
                        Err(ParseError::ExpectedCloseParen)
                    }
                },
                None => Err(ParseError::ExpectedCloseParen),
            }
        } else if is_word_char(c) {
            let w = match self.parse_word() {
                Ok(w) => w,
                Err(err) => {
                    proof {
                        lemma_word_end_bounds(s, p);
                        assert(false);
                    }
                    return Err(err);
                },
            };
            Ok(Expr::Var(w))
        } else {
            Err(ParseError::UnexpectedChar)
        }
    }

    /// Parse a whole document: expressions separated by `;`.
    #[verifier::loop_isolation(false)]
    fn parse_document(&mut self) -> (r: Result<Expr, ParseError>)
        requires
            old(self).wf(),
        ensures
            final(self).input@ == old(self).input@,
            final(self).wf(),
            final(self).pos >= old(self).pos,
            ({
                let sp = spec_parse_document(old(self).input@, old(self).pos as int);
                final(self).pos == sp.1 && match r {
                    Ok(e) => sp.0 == Ok::<SpecExpr, ParseError>(e@),
                    Err(err) => sp.0 == Err::<SpecExpr, ParseError>(err),
                }
            }),
        decreases old(self).input@.len() - old(self).pos, 4int,
    {
        let ghost s = self.input@;
        let ghost pos0 = self.pos as int;
        let mut exprs: Vec<Expr> = Vec::new();
        proof {
            lemma_exprs_model(exprs@);
            assert(exprs_model(exprs@) =~= Seq::<SpecExpr>::empty());
        }
        let mut done = false;
        while !done
            invariant
                self.wf(),
                self.input@ == s,
                self.pos >= pos0,
                !done ==> spec_parse_document_rest(s, self.pos as int, exprs_model(exprs@))
                    == spec_parse_document_rest(s, pos0, Seq::empty()),
                done ==> spec_parse_document_rest(s, pos0, Seq::empty()) == (
                    Ok::<Seq<SpecExpr>, ParseError>(exprs_model(exprs@)),
                    self.pos as int,
                ),
            decreases s.len() - self.pos + (if done { 0int } else { 1int }),
        {
            let ghost pos_head = self.pos as int;
            let ghost acc0 = exprs_model(exprs@);
            self.skip_whitespace();
            proof {
                lemma_skip_ws_bounds(s, pos_head);
            }
            if self.pos >= self.input.as_str().unicode_len() {
                proof {
                    assert(spec_parse_document_rest(s, pos_head, acc0) == (
                        Ok::<Seq<SpecExpr>, ParseError>(acc0),
                        self.pos as int,
                    ));
                }
                done = true;
            } else {
                let ghost ph = self.pos as int;
                let e = match self.parse_expression() {
                    Ok(e) => e,
                    Err(err) => {
                        return Err(err);
                    },
                };
                proof {
                    lemma_parse_expression_bounds(s, ph);
                }
                let ghost exprs0 = exprs@;
                exprs.push(e);
                proof {
                    lemma_exprs_model(exprs0);
                    lemma_exprs_model(exprs@);
                    assert(exprs_model(exprs@) =~= acc0.push(exprs_model(exprs@)[
                        exprs_model(exprs@).len() - 1
                    ]));
                }
                self.skip_whitespace();
                proof {
                    lemma_skip_ws_bounds(s, spec_parse_expression(s, ph).1);
                }
                let is_semi = match self.peek() {
                    Some(ch2) => ch2 == ';',
                    None => false,
                };
                if is_semi {
                    self.pos = self.pos + 1;
                } else {
                    proof {
                        assert(spec_parse_document_rest(s, pos_head, acc0) == (
                            Ok::<Seq<SpecExpr>, ParseError>(exprs_model(exprs@)),
                            self.pos as int,
                        ));
                    }
                    done = true;
                }
            }
        }
        proof {
            lemma_exprs_model(exprs@);
        }
        if exprs.len() == 1 {
            let e = exprs.remove(0);
            Ok(e)
        } else {
            Ok(Expr::Sequence(exprs))
        }
    }

    /// Parse the whole input, from its start: the document must consume
    /// everything, and leftover text is an error.  The result is exactly
    /// what `spec_parse` says of the input text.
    pub fn parse(&mut self) -> (r: Result<Expr, ParseError>)
        requires
            old(self).pos == 0,
        ensures
            final(self).input@ == old(self).input@,
            final(self).wf(),
            ({
                let sp = spec_parse(old(self).input@);
                final(self).pos == sp.1 && match r {
                    Ok(e) => sp.0 == Ok::<SpecExpr, ParseError>(e@),
                    Err(err) => sp.0 == Err::<SpecExpr, ParseError>(err),
                }
            }),
    {
        match self.parse_document() {
            Err(err) => Err(err),
            Ok(e) => {
                if self.pos < self.input.as_str().unicode_len() {
                    Err(ParseError::UnexpectedChar)
                } else {
                    Ok(e)
                }
            },
        }
    }
}

} // verus!
