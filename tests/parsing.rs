use std::collections::VecDeque;

use srparse::analysis::{analyze, Failure};
use srparse::automaton::{run, Fault, ParserStep, Verdict};
use srparse::grammar::{action, goto, Action, Nonterminal, Symbol, Token};
use srparse::lexer::{tokenize, LexError};
use srparse::render::{format_states, format_symbols, format_tokvec};

fn trace_of(text: &str) -> (Vec<ParserStep>, Verdict) {
    match analyze(text) {
        Ok(out) => out,
        Err(e) => panic!("no trace for {text}: {e:?}"),
    }
}

fn row(p: &ParserStep) -> (usize, String, String, String, String) {
    (p.step, p.states.clone(), p.output.clone(), p.input.clone(), p.action.clone())
}

#[test]
fn tostr_prints_each_terminal() {
    assert_eq!(Token::Id.tostr(), "id");
    assert_eq!(Token::Add.tostr(), "+");
    assert_eq!(Token::Mul.tostr(), "*");
    assert_eq!(Token::Open.tostr(), "(");
    assert_eq!(Token::Close.tostr(), ")");
    assert_eq!(Token::End.tostr(), "$");
}

#[test]
fn symbol_labels() {
    assert_eq!(Symbol::Non(Nonterminal::Expr).label(), "E");
    assert_eq!(Symbol::Non(Nonterminal::Term).label(), "T");
    assert_eq!(Symbol::Non(Nonterminal::Factor).label(), "F");
    assert_eq!(Symbol::Tok(Token::Open).label(), "(");
}

#[test]
fn format_tokvec_concatenates() {
    let q: VecDeque<Token> = vec![Token::Id, Token::Add, Token::Open, Token::Close, Token::End].into();
    assert_eq!(format_tokvec(&q), "id+()$");
    assert_eq!(format_tokvec(&VecDeque::new()), "");
}

#[test]
fn format_states_prefixes_each_state() {
    assert_eq!(format_states(&vec![0, 4, 11]), "s0s4s11");
    assert_eq!(format_states(&vec![255, 100, 9]), "s255s100s9");
    assert_eq!(format_states(&vec![]), "");
}

#[test]
fn format_symbols_joins_with_spaces() {
    let s = vec![
        Symbol::Non(Nonterminal::Expr),
        Symbol::Tok(Token::Add),
        Symbol::Non(Nonterminal::Term),
    ];
    assert_eq!(format_symbols(&s), "E + T");
    assert_eq!(format_symbols(&vec![Symbol::Tok(Token::Id)]), "id");
    assert_eq!(format_symbols(&vec![]), "");
}

#[test]
fn goto_table_entries() {
    assert_eq!(goto(0, Nonterminal::Expr), Some(1));
    assert_eq!(goto(0, Nonterminal::Term), Some(2));
    assert_eq!(goto(0, Nonterminal::Factor), Some(3));
    assert_eq!(goto(4, Nonterminal::Expr), Some(8));
    assert_eq!(goto(6, Nonterminal::Term), Some(9));
    assert_eq!(goto(7, Nonterminal::Factor), Some(10));
    assert_eq!(goto(6, Nonterminal::Expr), None);
    assert_eq!(goto(1, Nonterminal::Factor), None);
}

#[test]
fn action_table_entries() {
    assert_eq!(action(0, Token::Id), Action::Shift(5));
    assert_eq!(action(7, Token::Open), Action::Shift(4));
    assert_eq!(action(1, Token::End), Action::Accept);
    assert_eq!(action(9, Token::Mul), Action::Shift(7));
    assert_eq!(action(9, Token::End), Action::Reduce(1));
    assert_eq!(action(11, Token::Mul), Action::Reduce(5));
    assert_eq!(action(6, Token::End), Action::Error);
    assert_eq!(action(12, Token::Id), Action::Error);
}

#[test]
fn tokenize_maps_lexemes() {
    let t = tokenize("(id+id)*id$").unwrap();
    let want = vec![
        Token::Open, Token::Id, Token::Add, Token::Id, Token::Close, Token::Mul, Token::Id, Token::End,
    ];
    assert_eq!(t.into_iter().collect::<Vec<_>>(), want);
}

#[test]
fn tokenize_errors() {
    assert_eq!(tokenize("x$").unwrap_err(), LexError::IllegalChar);
    assert_eq!(tokenize("i+$").unwrap_err(), LexError::BadId);
    assert_eq!(tokenize("id+i").unwrap_err(), LexError::BadId);
    assert_eq!(tokenize("id+id").unwrap_err(), LexError::NotEnded);
    assert_eq!(tokenize("").unwrap_err(), LexError::NotEnded);
    assert_eq!(tokenize("id$id$").unwrap_err(), LexError::PrematureEnd);
    assert_eq!(tokenize("ix").unwrap_err(), LexError::BadId);
}

#[test]
fn single_identifier_trace() {
    let (t, v) = trace_of("id$");
    assert_eq!(v, Verdict::Accepted);
    let rows: Vec<_> = t.iter().map(row).collect();
    let want = vec![
        (1, "s0", "", "id$", "s5"),
        (2, "s0s5", "id", "$", "r6g3"),
        (3, "s0s3", "F", "$", "r4g2"),
        (4, "s0s2", "T", "$", "r2g1"),
        (5, "s0s1", "E", "$", "accept"),
    ];
    let want: Vec<_> = want
        .into_iter()
        .map(|(a, b, c, d, e)| (a, b.to_string(), c.to_string(), d.to_string(), e.to_string()))
        .collect();
    assert_eq!(rows, want);
}

#[test]
fn sum_of_product_is_accepted() {
    let (t, v) = trace_of("id+id*id$");
    assert_eq!(v, Verdict::Accepted);
    let last = t.last().unwrap();
    assert_eq!(last.action, "accept");
    assert_eq!(last.output, "E");
    assert_eq!(last.states, "s0s1");
    assert_eq!(t.len(), 14);
}

#[test]
fn parenthesized_product_is_accepted() {
    let (t, v) = trace_of("(id+id)*id$");
    assert_eq!(v, Verdict::Accepted);
    assert_eq!(t.last().unwrap().output, "E");
}

#[test]
fn dangling_plus_is_rejected() {
    let (t, v) = trace_of("id+$");
    assert_eq!(v, Verdict::Rejected);
    let last = t.last().unwrap();
    assert_eq!(last.action, "error");
    assert_eq!(last.states, "s0s1s6");
    assert_eq!(last.input, "$");
}

#[test]
fn unexpected_close_is_rejected() {
    let (t, v) = trace_of("id+)$");
    assert_eq!(v, Verdict::Rejected);
    assert_eq!(t.last().unwrap().action, "error");
    assert_eq!(t.last().unwrap().input, ")$");
}

#[test]
fn unbalanced_parentheses_are_rejected() {
    assert_eq!(trace_of("(id$").1, Verdict::Rejected);
    assert_eq!(trace_of("id)$").1, Verdict::Rejected);
    assert_eq!(trace_of("((id)$").1, Verdict::Rejected);
    assert_eq!(trace_of("id*$").1, Verdict::Rejected);
    assert_eq!(trace_of("id)(id$").1, Verdict::Rejected);
    assert_eq!(trace_of("$").1, Verdict::Rejected);
}

#[test]
fn nested_sentences_are_accepted() {
    for text in ["((id))$", "id*id*id+id$", "(id+(id*id))*(id+id)$"] {
        let (t, v) = trace_of(text);
        assert_eq!(v, Verdict::Accepted, "{text}");
        assert_eq!(t.last().unwrap().output, "E");
        assert_eq!(t.last().unwrap().states, "s0s1");
    }
}

#[test]
fn lexical_errors_give_no_trace() {
    assert_eq!(analyze("x$").unwrap_err(), Failure::Lex(LexError::IllegalChar));
    assert_eq!(analyze("id+id").unwrap_err(), Failure::Lex(LexError::NotEnded));
}

#[test]
fn tokens_without_end_run_out() {
    let q: VecDeque<Token> = vec![Token::Id].into();
    assert_eq!(run(q).unwrap_err(), Fault::OutOfTokens);
}

#[test]
fn reruns_give_identical_traces() {
    let a = trace_of("(id*id+id)*(id)$");
    let b = trace_of("(id*id+id)*(id)$");
    assert_eq!(a.1, b.1);
    assert_eq!(a.0.iter().map(row).collect::<Vec<_>>(), b.0.iter().map(row).collect::<Vec<_>>());
}

#[test]
fn steps_are_numbered_and_bounded() {
    let text = "((id+id)*id+id)*id$";
    let (t, _) = trace_of(text);
    let n = tokenize(text).unwrap().len();
    assert!(t.len() <= 10 * n + 5);
    for (i, p) in t.iter().enumerate() {
        assert_eq!(p.step, i + 1);
    }
}

#[test]
fn stacks_differ_by_the_bottom_state() {
    let (t, _) = trace_of("(id+id)*id$");
    for p in &t {
        let states = p.states.matches('s').count();
        let symbols = if p.output.is_empty() { 0 } else { p.output.split(' ').count() };
        assert_eq!(states, symbols + 1);
    }
}
