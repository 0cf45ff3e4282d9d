//! Turns input text into terminals: `id`, `+`, `*`, `(`, `)` and `$`.
use vstd::prelude::*;
use std::collections::VecDeque;
use crate::grammar::Token;

verus! {

/// Why a text is not a well-formed token sequence.
#[derive(Clone, Copy, Debug, PartialEq, Eq, Structural)]
pub enum LexError {
    /// A character outside the alphabet.
    IllegalChar,
    /// An `i` that is not followed by `d`.
    BadId,
    /// The last token is not `$` (or there is none).
    NotEnded,
    /// A `$` stands before the last token.
    PrematureEnd,
}

/// The terminal of a one-character lexeme.
pub open spec fn single(c: char) -> Option<Token> {
    if c == '+' {
        Some(Token::Add)
    } else if c == '*' {
        Some(Token::Mul)
    } else if c == '(' {
        Some(Token::Open)
    } else if c == ')' {
        Some(Token::Close)
    } else if c == '$' {
        Some(Token::End)
    } else {
        None
    }
}

/// Scans characters into terminals, stopping at the first bad lexeme.
pub open spec fn scan(cs: Seq<char>) -> Result<Seq<Token>, LexError>
    decreases cs.len(),
{
    if cs.len() == 0 {
        Ok(seq![])
    } else if cs[0] == 'i' {
        if cs.len() >= 2 && cs[1] == 'd' {
            match scan(cs.subrange(2, cs.len() as int)) {
                Ok(ts) => Ok(seq![Token::Id] + ts),
                Err(e) => Err(e),
            }
        } else {
            Err(LexError::BadId)
        }
    } else {
        match single(cs[0]) {
            Some(t) => match scan(cs.subrange(1, cs.len() as int)) {
                Ok(ts) => Ok(seq![t] + ts),
                Err(e) => Err(e),
            },
            None => Err(LexError::IllegalChar),
        }
    }
}

/// A token sequence ends in `$` and holds no other `$`.
pub open spec fn properly_ended(ts: Seq<Token>) -> bool {
    ts.len() > 0 && ts.last() == Token::End && forall|i: int|
        0 <= i < ts.len() - 1 ==> ts[i] != Token::End
}

/// The tokens of a text, or why it has none.
pub open spec fn lex(cs: Seq<char>) -> Result<Seq<Token>, LexError> {
    match scan(cs) {
        Err(e) => Err(e),
        Ok(ts) => if ts.len() == 0 || ts.last() != Token::End {
            Err(LexError::NotEnded)
        } else if !properly_ended(ts) {
            Err(LexError::PrematureEnd)
        } else {
            Ok(ts)
        },
    }
}

/// Puts already scanned tokens in front of what the rest scans to.
pub open spec fn prefixed(done: Seq<Token>, rest: Result<Seq<Token>, LexError>) -> Result<
    Seq<Token>,
    LexError,
> {
    match rest {
        Ok(ts) => Ok(done + ts),
        Err(e) => Err(e),
    }
}

fn single_token(c: char) -> (r: Option<Token>)
    ensures
        r == single(c),
{
    if c == '+' {
        Some(Token::Add)
    } else if c == '*' {
        Some(Token::Mul)
    } else if c == '(' {
        Some(Token::Open)
    } else if c == ')' {
        Some(Token::Close)
    } else if c == '$' {
        Some(Token::End)
    } else {
        None
    }
}

/// Tokenizes `s`; a token sequence is returned only if it ends in `$`
/// and holds no earlier `$`.
pub fn tokenize(s: &str) -> (r: Result<VecDeque<Token>, LexError>)
    ensures
        match r {
            Ok(ts) => lex(s@) == Ok::<Seq<Token>, LexError>(ts@),
            Err(e) => lex(s@) == Err::<Seq<Token>, LexError>(e),
        },
        r is Ok ==> properly_ended(r->Ok_0@),
{
    let n = s.unicode_len();
    let mut tokens: VecDeque<Token> = VecDeque::new();
    let mut i: usize = 0;
    assert(s@.subrange(0, n as int) =~= s@);
    proof {
        match scan(s@) {
            Ok(ts) => {
                assert(seq![] + ts =~= ts);
            },
            Err(e) => {},
        }
    }
    while i < n
        invariant
            n == s@.len(),
            i <= n,
            scan(s@) == prefixed(tokens@, scan(s@.subrange(i as int, n as int))),
        decreases n - i,
    {
        let c = s.get_char(i);
        let ghost rest = s@.subrange(i as int, n as int);
        if c == 'i' {
            if i + 1 < n && s.get_char(i + 1) == 'd' {
                assert(rest.subrange(2, rest.len() as int) =~= s@.subrange(i + 2, n as int));
                assert(tokens@.push(Token::Id) =~= tokens@ + seq![Token::Id]);
                proof {
                    match scan(rest.subrange(2, rest.len() as int)) {
                        Ok(ts) => {
                            assert(tokens@ + (seq![Token::Id] + ts) =~= tokens@.push(Token::Id)
                                + ts);
                        },
                        Err(e) => {},
                    }
                }
                tokens.push_back(Token::Id);
                i += 2;
            } else {
                return Err(LexError::BadId);
            }
        } else {
            match single_token(c) {
                Some(t) => {
                    assert(rest.subrange(1, rest.len() as int) =~= s@.subrange(i + 1, n as int));
                    proof {
                        match scan(rest.subrange(1, rest.len() as int)) {
                            Ok(ts) => {
                                assert(tokens@ + (seq![t] + ts) =~= tokens@.push(t) + ts);
                            },
                            Err(e) => {},
                        }
                    }
                    tokens.push_back(t);
                    i += 1;
                },
                None => {
                    return Err(LexError::IllegalChar);
                },
            }
        }
    }
    assert(tokens@ + seq![] =~= tokens@);
    let len = tokens.len();
    if len == 0 || tokens[len - 1] != Token::End {
        return Err(LexError::NotEnded);
    }
    let mut j: usize = 0;
    while j < len - 1
        invariant
            len == tokens@.len(),
            len > 0,
            j <= len - 1,
            scan(s@) == Ok::<Seq<Token>, LexError>(tokens@),
            tokens@.last() == Token::End,
            forall|k: int| 0 <= k < j ==> tokens@[k] != Token::End,
        decreases len - 1 - j,
    {
        if tokens[j] == Token::End {
            assert(!properly_ended(tokens@));
            return Err(LexError::PrematureEnd);
        }
        j += 1;
    }
    Ok(tokens)
}

} // verus!

verus! {

/// Scanning never yields more tokens than there are characters.
pub proof fn lemma_scan_len(cs: Seq<char>)
    ensures
        scan(cs) is Ok ==> scan(cs)->Ok_0.len() <= cs.len(),
    decreases cs.len(),
{
    if cs.len() > 0 {
        if cs[0] == 'i' && cs.len() >= 2 {
            lemma_scan_len(cs.subrange(2, cs.len() as int));
        }
        lemma_scan_len(cs.subrange(1, cs.len() as int));
    }
}

} // verus!
