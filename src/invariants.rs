//! Properties of every run of the automaton.
use vstd::prelude::*;
use crate::grammar::{Nonterminal, Symbol, Token, action_table, goto_table, rule_arity, rule_lhs, Action};
use crate::automaton::{Config, Move, measure, parse, run_from, step_of, initial, lemma_step_lowers};

verus! {

/// State `b` can stand directly above state `a` on the state stack.
#[verifier::opaque]
pub open spec fn edge(a: u8, b: u8) -> bool {
    match b {
        1 => a == 0,
        2 => a == 0 || a == 4,
        3 => a == 0 || a == 4 || a == 6,
        4 | 5 => a == 0 || a == 4 || a == 6 || a == 7,
        6 => a == 1 || a == 8,
        7 => a == 2 || a == 9,
        8 => a == 4,
        9 => a == 6,
        10 => a == 7,
        11 => a == 8,
        _ => false,
    }
}

/// The symbol by which every transition into a state is made.
#[verifier::opaque]
pub open spec fn entry_symbol(s: u8) -> Symbol {
    match s {
        1 | 8 => Symbol::Non(Nonterminal::Expr),
        2 | 9 => Symbol::Non(Nonterminal::Term),
        3 | 10 => Symbol::Non(Nonterminal::Factor),
        4 => Symbol::Tok(Token::Open),
        5 => Symbol::Tok(Token::Id),
        6 => Symbol::Tok(Token::Add),
        7 => Symbol::Tok(Token::Mul),
        _ => Symbol::Tok(Token::Close),
    }
}

/// A configuration the automaton can reach: state 0 at the bottom, each
/// state above a state it can follow, and each symbol the entry symbol of
/// the state above it, so the state stack is one longer than the symbol
/// stack.
pub open spec fn viable(c: Config) -> bool {
    &&& c.states.len() >= 1
    &&& c.states[0] == 0
    &&& c.states.len() == c.symbols.len() + 1
    &&& forall|i: int|
        0 <= i < c.symbols.len() ==> #[trigger] edge(c.states[i], c.states[i + 1])
    &&& forall|i: int|
        0 <= i < c.symbols.len() ==> #[trigger] c.symbols[i] == entry_symbol(c.states[i + 1])
}

/// The input still ends with `$`.
pub open spec fn input_ends(c: Config) -> bool {
    c.input.len() > 0 && c.input.last() == Token::End
}

proof fn lemma_edge_at(c: Config, i: int)
    requires
        viable(c),
        1 <= i < c.states.len(),
    ensures
        edge(c.states[i - 1], c.states[i]),
        c.symbols[i - 1] == entry_symbol(c.states[i]),
{
    assert(edge(c.states[i - 1], c.states[i - 1 + 1]));
    assert(c.symbols[i - 1] == entry_symbol(c.states[i - 1 + 1]));
}

/// A reduction prescribed in a viable configuration pops fewer states than
/// the stack holds, and the goto table has an entry for the exposed state,
/// which the entered state can follow.
proof fn lemma_reduce_exposed(c: Config, r: u8)
    requires
        viable(c),
        c.input.len() > 0,
        action_table(c.states.last(), c.input[0]) == Action::Reduce(r),
    ensures
        c.states.len() > rule_arity(r),
        goto_table(c.states[c.states.len() - rule_arity(r) - 1], rule_lhs(r)) is Some,
        edge(
            c.states[c.states.len() - rule_arity(r) - 1],
            goto_table(c.states[c.states.len() - rule_arity(r) - 1], rule_lhs(r))->Some_0,
        ),
        entry_symbol(goto_table(c.states[c.states.len() - rule_arity(r) - 1], rule_lhs(r))->Some_0)
            == Symbol::Non(rule_lhs(r)),
{
    reveal(edge);
    reveal(entry_symbol);
    let l = c.states.len() as int;
    let top = c.states[l - 1];
    assert(top != 0);
    lemma_edge_at(c, l - 1);
    if rule_arity(r) == 3 {
        let a = c.states[l - 2];
        assert(a != 0);
        lemma_edge_at(c, l - 2);
        let b = c.states[l - 3];
        assert(b != 0);
        lemma_edge_at(c, l - 3);
    }
}

/// Cutting both stacks back keeps a configuration viable.
proof fn lemma_prefix_viable(c: Config, m: int, input: Seq<Token>)
    requires
        viable(c),
        1 <= m <= c.states.len(),
    ensures
        viable(
            Config {
                states: c.states.subrange(0, m),
                symbols: c.symbols.subrange(0, m - 1),
                input,
            },
        ),
{
    let p = Config { states: c.states.subrange(0, m), symbols: c.symbols.subrange(0, m - 1), input };
    assert forall|i: int| 0 <= i < p.symbols.len() implies #[trigger] edge(
        p.states[i],
        p.states[i + 1],
    ) && p.symbols[i] == entry_symbol(p.states[i + 1]) by {
        lemma_edge_at(c, i + 1);
    }
}

/// Pushing a state that can follow the top, with its entry symbol, keeps
/// a configuration viable.
proof fn lemma_push_viable(c: Config, s: u8, input: Seq<Token>)
    requires
        viable(c),
        edge(c.states.last(), s),
    ensures
        viable(
            Config {
                states: c.states.push(s),
                symbols: c.symbols.push(entry_symbol(s)),
                input,
            },
        ),
{
    let p = Config { states: c.states.push(s), symbols: c.symbols.push(entry_symbol(s)), input };
    assert forall|i: int| 0 <= i < p.symbols.len() implies #[trigger] edge(
        p.states[i],
        p.states[i + 1],
    ) && p.symbols[i] == entry_symbol(p.states[i + 1]) by {
        if i < c.symbols.len() {
            lemma_edge_at(c, i + 1);
        }
    }
}

proof fn lemma_shift_viable(c: Config, n: u8)
    requires
        viable(c),
        c.input.len() > 0,
        action_table(c.states.last(), c.input[0]) == Action::Shift(n),
    ensures
        viable(step_of(c)->Go_1),
{
    reveal(edge);
    reveal(entry_symbol);
    assert(edge(c.states.last(), n));
    assert(entry_symbol(n) == Symbol::Tok(c.input[0]));
    lemma_push_viable(c, n, c.input.drop_first());
}

proof fn lemma_reduce_viable(c: Config, r: u8)
    requires
        viable(c),
        c.input.len() > 0,
        action_table(c.states.last(), c.input[0]) == Action::Reduce(r),
    ensures
        step_of(c) is Go,
        viable(step_of(c)->Go_1),
{
    lemma_reduce_exposed(c, r);
    let l = c.states.len() as int;
    let k = rule_arity(r) as int;
    let g = goto_table(c.states[l - k - 1], rule_lhs(r))->Some_0;
    let kept = Config {
        states: c.states.subrange(0, l - k),
        symbols: c.symbols.subrange(0, l - 1 - k),
        input: c.input,
    };
    lemma_prefix_viable(c, l - k, c.input);
    assert(kept.states.last() == c.states[l - k - 1]);
    lemma_push_viable(kept, g, c.input);
}

/// From a viable configuration with input left, a step never faults, and
/// a step that goes on reaches a viable configuration.
pub proof fn lemma_step_viable(c: Config)
    requires
        viable(c),
        c.input.len() > 0,
    ensures
        !(step_of(c) is Stop),
        step_of(c) is Go ==> viable(step_of(c)->Go_1),
{
    match action_table(c.states.last(), c.input[0]) {
        Action::Shift(n) => lemma_shift_viable(c, n),
        Action::Reduce(r) => lemma_reduce_viable(c, r),
        _ => {},
    }
}

/// A run from a viable configuration whose input ends with `$` never
/// faults, and every record it makes starts from a viable configuration.
pub proof fn lemma_run_viable(c: Config, n: nat)
    requires
        viable(c),
        input_ends(c),
    ensures
        run_from(c, n) is Ok,
        forall|i: int|
            0 <= i < run_from(c, n)->Ok_0.0.len() ==> viable(
                #[trigger] run_from(c, n)->Ok_0.0[i].config,
            ),
    decreases measure(c),
{
    lemma_step_viable(c);
    lemma_step_lowers(c);
    match step_of(c) {
        Move::Go(t, nc) => {
            assert(!(c.input[0] == Token::End && action_table(c.states.last(), c.input[0]) is Shift));
            if action_table(c.states.last(), c.input[0]) is Shift {
                assert(nc.input.last() == c.input.last());
            }
            lemma_run_viable(nc, n + 1);
            let rs = run_from(nc, n + 1)->Ok_0.0;
            let all = run_from(c, n)->Ok_0.0;
            assert forall|i: int| 0 <= i < all.len() implies viable(#[trigger] all[i].config) by {
                if i > 0 {
                    assert(all[i] == rs[i - 1]);
                }
            }
        },
        _ => {},
    }
}

/// Every run makes at most one record more than the measure it starts
/// from.
pub proof fn lemma_run_length(c: Config, n: nat)
    ensures
        run_from(c, n) is Ok ==> run_from(c, n)->Ok_0.0.len() <= measure(c) + 1,
    decreases measure(c),
{
    lemma_step_lowers(c);
    match step_of(c) {
        Move::Go(t, nc) => {
            lemma_run_length(nc, n + 1);
        },
        _ => {},
    }
}

/// A token sequence that ends with `$` is never the cause of a fault: the
/// run ends in a verdict, accepting or rejecting.
pub proof fn theorem_no_fault(tokens: Seq<Token>)
    requires
        tokens.len() > 0,
        tokens.last() == Token::End,
    ensures
        parse(tokens) is Ok,
{
    lemma_run_viable(initial(tokens), 1);
}

/// A run takes at most ten steps per token and five more: it cannot loop.
pub proof fn theorem_step_bound(tokens: Seq<Token>)
    ensures
        parse(tokens) is Ok ==> parse(tokens)->Ok_0.0.len() <= 10 * tokens.len() + 5,
{
    lemma_run_length(initial(tokens), 1);
}

/// Before every step of a run, and so after every step, the state stack
/// holds exactly one entry more than the symbol stack: the bottom state,
/// which no symbol matches.
pub proof fn theorem_stack_lengths(tokens: Seq<Token>)
    requires
        tokens.len() > 0,
        tokens.last() == Token::End,
    ensures
        forall|i: int|
            0 <= i < parse(tokens)->Ok_0.0.len() ==> {
                let c = #[trigger] parse(tokens)->Ok_0.0[i].config;
                c.states.len() == c.symbols.len() + 1
            },
{
    lemma_run_viable(initial(tokens), 1);
}

/// Running twice on the same tokens yields the same records, step for
/// step, and the same verdict.
pub proof fn theorem_deterministic(a: Seq<Token>, b: Seq<Token>)
    requires
        a == b,
    ensures
        parse(a) == parse(b),
{
}

} // verus!
