use vstd::prelude::*;
use vstd::string::StrSliceExecFns;

use crate::parser::lemma_word_end_bounds;
use crate::parser::spec_is_ws;
use crate::parser::spec_word_char;
use crate::parser::spec_word_end;
use crate::text::str_eq;

verus! {

/// A token of the surface syntax.
#[derive(Debug, PartialEq)]
pub enum Token {
    Word(String),
    Lambda,
    Dot,
    Equal,
    Semicolon,
    LParen,
    RParen,
}

/// The model of a token.
#[verifier::ext_equal]
pub enum SpecToken {
    Word(Seq<char>),
    Lambda,
    Dot,
    Equal,
    Semicolon,
    LParen,
    RParen,
}

impl View for Token {
    type V = SpecToken;

    open spec fn view(&self) -> SpecToken {
        match self {
            Token::Word(w) => SpecToken::Word(w@),
            Token::Lambda => SpecToken::Lambda,
            Token::Dot => SpecToken::Dot,
            Token::Equal => SpecToken::Equal,
            Token::Semicolon => SpecToken::Semicolon,
            Token::LParen => SpecToken::LParen,
            Token::RParen => SpecToken::RParen,
        }
    }
}

/// A tokenizer error: the character no token starts with.
#[derive(Debug, PartialEq)]
pub enum TokenizeError {
    UnexpectedChar(char),
}

/// The models of a token list, in order.
pub open spec fn tokens_model(toks: Seq<Token>) -> Seq<SpecToken>
    decreases toks,
{
    if toks.len() == 0 {
        Seq::empty()
    } else {
        seq![toks[0]@] + tokens_model(toks.drop_first())
    }
}

/// `tokens_model` maps the list elementwise.
pub broadcast proof fn lemma_tokens_model(toks: Seq<Token>)
    ensures
        (#[trigger] tokens_model(toks)).len() == toks.len(),
        forall|i: int| 0 <= i < toks.len() ==> tokens_model(toks)[i] == toks[i]@,
    decreases toks,
{
    if toks.len() > 0 {
        lemma_tokens_model(toks.drop_first());
    }
}

/// The tokens of `s` from `pos` on, appended to `acc`: whitespace is
/// skipped, the five punctuation marks are single tokens, a word is a
/// `Word` token — except the lone word `L`, the lambda keyword.
pub open spec fn spec_tokenize(s: Seq<char>, pos: int, acc: Seq<SpecToken>) -> Result<
    Seq<SpecToken>,
    TokenizeError,
>
    decreases s.len() - pos,
{
    if pos < 0 || pos >= s.len() {
        Ok(acc)
    } else {
        let c = s[pos];
        if spec_is_ws(c) {
            spec_tokenize(s, pos + 1, acc)
        } else if c == '(' {
            spec_tokenize(s, pos + 1, acc.push(SpecToken::LParen))
        } else if c == ')' {
            spec_tokenize(s, pos + 1, acc.push(SpecToken::RParen))
        } else if c == ';' {
            spec_tokenize(s, pos + 1, acc.push(SpecToken::Semicolon))
        } else if c == '=' {
            spec_tokenize(s, pos + 1, acc.push(SpecToken::Equal))
        } else if c == '.' {
            spec_tokenize(s, pos + 1, acc.push(SpecToken::Dot))
        } else if spec_word_char(c) {
            proof {
                lemma_word_end_bounds(s, pos);
            }
            let e = spec_word_end(s, pos);
            let w = s.subrange(pos, e);
            let tok = if w == seq!['L'] {
                SpecToken::Lambda
            } else {
                SpecToken::Word(w)
            };
            spec_tokenize(s, e, acc.push(tok))
        } else {
            Err(TokenizeError::UnexpectedChar(c))
        }
    }
}

/// Split `input` into tokens; the result is exactly what `spec_tokenize`
/// says of the input's characters.
#[verifier::loop_isolation(false)]
pub fn tokenize(input: &str) -> (r: Result<Vec<Token>, TokenizeError>)
    ensures
        ({
            let st = spec_tokenize(input@, 0, Seq::empty());
            match r {
                Ok(toks) => st == Ok::<Seq<SpecToken>, TokenizeError>(tokens_model(toks@)),
                Err(err) => st == Err::<Seq<SpecToken>, TokenizeError>(err),
            }
        }),
{
    let ghost s = input@;
    let len = input.unicode_len();
    let mut tokens: Vec<Token> = Vec::new();
    let mut pos: usize = 0;
    proof {
        broadcast use lemma_tokens_model;

        assert(tokens_model(tokens@) =~= Seq::<SpecToken>::empty());
    }
    while pos < len
        invariant
            len == s.len(),
            pos <= len,
            spec_tokenize(s, pos as int, tokens_model(tokens@)) == spec_tokenize(
                s,
                0,
                Seq::empty(),
            ),
        decreases len - pos,
    {
        let ghost acc0 = tokens_model(tokens@);
        let ghost toks0 = tokens@;
        let c = input.get_char(pos);
        if c == ' ' || c == '\n' || c == '\r' || c == '\t' {
            pos = pos + 1;
        } else if c == '(' {
            tokens.push(Token::LParen);
            pos = pos + 1;
        } else if c == ')' {
            tokens.push(Token::RParen);
            pos = pos + 1;
        } else if c == ';' {
            tokens.push(Token::Semicolon);
            pos = pos + 1;
        } else if c == '=' {
            tokens.push(Token::Equal);
            pos = pos + 1;
        } else if c == '.' {
            tokens.push(Token::Dot);
            pos = pos + 1;
        } else if crate::parser::is_word_char(c) {
            let start = pos;
            while pos < len && crate::parser::is_word_char(input.get_char(pos))
                invariant
                    len == s.len(),
                    start <= pos <= len,
                    spec_word_end(s, pos as int) == spec_word_end(s, start as int),
                decreases len - pos,
            {
                pos = pos + 1;
            }
            proof {
                lemma_word_end_bounds(s, start as int);
            }
            let w = input.substring_char(start, pos).to_owned();
            if str_eq(w.as_str(), "L") {
                proof {
                    reveal_strlit("L");
                    assert(w@ =~= seq!['L']);
                }
                tokens.push(Token::Lambda);
            } else {
                proof {
                    reveal_strlit("L");
                    assert(("L")@ =~= seq!['L']);
                    assert(w@ != seq!['L']);
                }
                tokens.push(Token::Word(w));
            }
        } else {
            return Err(TokenizeError::UnexpectedChar(c));
        }
        proof {
            broadcast use lemma_tokens_model;

            if tokens@.len() > toks0.len() {
                assert(tokens_model(tokens@) =~= acc0.push(tokens@[tokens@.len() - 1]@));
            } else {
                assert(tokens_model(tokens@) =~= acc0);
            }
        }
    }
    Ok(tokens)
}

} // verus!
