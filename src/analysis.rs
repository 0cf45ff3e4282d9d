//! Text in, trace and verdict out.
use vstd::prelude::*;
use crate::automaton::{Fault, ParserStep, Verdict, parse, renders_all, run};
use crate::lexer::{LexError, lemma_scan_len, lex, tokenize};
use crate::invariants::theorem_no_fault;

verus! {

/// Why a text yields no trace.
#[derive(Clone, Copy, Debug, PartialEq, Eq, Structural)]
pub enum Failure {
    /// The text is not a well-formed token sequence.
    Lex(LexError),
    /// The automaton broke down.
    Fault(Fault),
}

/// Tokenizes `text` and runs the automaton on the tokens. Every
/// well-formed token sequence ends in a verdict, so the only failures are
/// lexical ones.
pub fn analyze(text: &str) -> (r: Result<(Vec<ParserStep>, Verdict), Failure>)
    requires
        text@.len() <= usize::MAX / 16,
    ensures
        match lex(text@) {
            Err(e) => r == Err::<(Vec<ParserStep>, Verdict), Failure>(Failure::Lex(e)),
            Ok(ts) => match (r, parse(ts)) {
                (Ok((ps, v)), Ok((rs, w))) => v == w && renders_all(ps@, rs),
                _ => false,
            },
        },
{
    proof { lemma_scan_len(text@); }
    match tokenize(text) {
        Err(e) => Err(Failure::Lex(e)),
        Ok(tokens) => {
            proof { theorem_no_fault(tokens@); }
            match run(tokens) {
                Ok(out) => Ok(out),
                Err(f) => Err(Failure::Fault(f)),
            }
        },
    }
}

} // verus!
