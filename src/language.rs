//! The language of the grammar: the automaton accepts a token sequence
//! exactly when it is a sentence followed by `$`.
use vstd::prelude::*;
use crate::grammar::{Nonterminal, Symbol, Token, action_table, goto_table, rule_arity, rule_lhs, Action};
use crate::automaton::{Config, Move, Taken, Verdict, parse, run_from, step_of, initial, measure, lemma_step_lowers};
use crate::invariants::{viable, edge, entry_symbol, lemma_step_viable, theorem_no_fault};
use crate::lexer::properly_ended;

verus! {

/// Token sequences derived from E: E -> E + T | T.
pub open spec fn is_expr(w: Seq<Token>) -> bool
    decreases w.len(), 2nat,
{
    is_term(w) || exists|k: int|
        0 < k < w.len() - 1 && #[trigger] w[k] == Token::Add && is_expr(w.subrange(0, k))
            && is_term(w.subrange(k + 1, w.len() as int))
}

/// Token sequences derived from T: T -> T * F | F.
pub open spec fn is_term(w: Seq<Token>) -> bool
    decreases w.len(), 1nat,
{
    is_factor(w) || exists|k: int|
        0 < k < w.len() - 1 && #[trigger] w[k] == Token::Mul && is_term(w.subrange(0, k))
            && is_factor(w.subrange(k + 1, w.len() as int))
}

/// Token sequences derived from F: F -> ( E ) | id.
pub open spec fn is_factor(w: Seq<Token>) -> bool
    decreases w.len(), 0nat,
{
    w == seq![Token::Id] || (w.len() >= 2 && w[0] == Token::Open && w.last() == Token::Close
        && is_expr(w.subrange(1, w.len() - 1)))
}

/// The configuration reached after `m` steps that all go on, if they do.
pub open spec fn advance(c: Config, m: nat) -> Option<Config>
    decreases m,
{
    if m == 0 {
        Some(c)
    } else {
        match step_of(c) {
            Move::Go(_, next) => advance(next, (m - 1) as nat),
            _ => None,
        }
    }
}

proof fn lemma_advance_one(c: Config)
    requires
        step_of(c) is Go,
    ensures
        advance(c, 1) == Some(step_of(c)->Go_1),
{
    assert(advance(step_of(c)->Go_1, 0) == Some(step_of(c)->Go_1));
}

proof fn lemma_advance_join(c: Config, a: nat, b: nat)
    requires
        advance(c, a) is Some,
    ensures
        advance(c, a + b) == advance(advance(c, a)->Some_0, b),
    decreases a,
{
    if a > 0 {
        lemma_advance_join(step_of(c)->Go_1, (a - 1) as nat, b);
        assert((a + b - 1) as nat == (a - 1) as nat + b);
    }
}

/// Steps that all go on do not change how the run ends, nor its last
/// record's configuration.
proof fn lemma_advance_run(c: Config, m: nat, n: nat)
    requires
        advance(c, m) is Some,
        run_from(advance(c, m)->Some_0, n + m) is Ok,
    ensures
        run_from(c, n) is Ok,
        run_from(c, n)->Ok_0.1 == run_from(advance(c, m)->Some_0, n + m)->Ok_0.1,
        run_from(c, n)->Ok_0.0.last().config == run_from(advance(c, m)->Some_0, n + m)->Ok_0.0.last().config,
        run_from(c, n)->Ok_0.0.len() > 0,
    decreases m,
{
    if m == 0 {
        assert(run_from(c, n)->Ok_0.0.len() > 0) by {
            match step_of(c) {
                Move::Go(_, next) => {},
                _ => {},
            }
        }
    } else {
        let next = step_of(c)->Go_1;
        assert((n + 1) + (m - 1) as nat == n + m);
        lemma_advance_run(next, (m - 1) as nat, n + 1);
    }
}

/// Two runs of steps, one after the other.
proof fn lemma_then(c: Config, a: nat, c1: Config, b: nat, c2: Config)
    requires
        advance(c, a) == Some(c1),
        advance(c1, b) == Some(c2),
    ensures
        advance(c, a + b) == Some(c2),
{
    lemma_advance_join(c, a, b);
}

/// A reduction on top of a context: the `k` states and symbols above the
/// context give way to the rule's nonterminal and the goto state.
proof fn lemma_reduce_on(
    st: Seq<u8>,
    sy: Seq<Symbol>,
    ts: Seq<u8>,
    tsy: Seq<Symbol>,
    input: Seq<Token>,
    r: u8,
)
    requires
        st.len() >= 1,
        st.len() == sy.len() + 1,
        ts.len() == rule_arity(r),
        tsy.len() == rule_arity(r),
        input.len() > 0,
        action_table((st + ts).last(), input[0]) == Action::Reduce(r),
        goto_table(st.last(), rule_lhs(r)) is Some,
    ensures
        advance(Config { states: st + ts, symbols: sy + tsy, input }, 1) == Some(
            Config {
                states: st.push(goto_table(st.last(), rule_lhs(r))->Some_0),
                symbols: sy.push(Symbol::Non(rule_lhs(r))),
                input,
            },
        ),
{
    let c = Config { states: st + ts, symbols: sy + tsy, input };
    let k = rule_arity(r) as int;
    assert(c.states.subrange(0, c.states.len() - k) =~= st);
    assert(c.symbols.subrange(0, c.symbols.len() - k) =~= sy);
    lemma_advance_one(c);
}

/// A shift on top of a context.
proof fn lemma_shift_on(c: Config, n: u8)
    requires
        c.input.len() > 0,
        c.states.len() >= 1,
        action_table(c.states.last(), c.input[0]) == Action::Shift(n),
    ensures
        advance(c, 1) == Some(
            Config {
                states: c.states.push(n),
                symbols: c.symbols.push(Symbol::Tok(c.input[0])),
                input: c.input.drop_first(),
            },
        ),
{
    lemma_advance_one(c);
}

pub open spec fn follows_factor(t: Token) -> bool {
    t == Token::Add || t == Token::Mul || t == Token::Close || t == Token::End
}

pub open spec fn follows_expr(t: Token) -> bool {
    t == Token::Add || t == Token::Close || t == Token::End
}

/// Above a state that expects a factor, the automaton reads a derivation
/// of F and enters the goto state for F, whatever lies below.
proof fn lemma_factor(st: Seq<u8>, sy: Seq<Symbol>, w: Seq<Token>, r: Seq<Token>) -> (m: nat)
    requires
        st.len() >= 1,
        st.len() == sy.len() + 1,
        st.last() == 0 || st.last() == 4 || st.last() == 6 || st.last() == 7,
        is_factor(w),
        r.len() > 0,
        follows_factor(r[0]),
    ensures
        advance(Config { states: st, symbols: sy, input: w + r }, m) == Some(
            Config {
                states: st.push(goto_table(st.last(), Nonterminal::Factor)->Some_0),
                symbols: sy.push(Symbol::Non(Nonterminal::Factor)),
                input: r,
            },
        ),
    decreases w.len(), 0nat,
{
    let c0 = Config { states: st, symbols: sy, input: w + r };
    let done = Config {
        states: st.push(goto_table(st.last(), Nonterminal::Factor)->Some_0),
        symbols: sy.push(Symbol::Non(Nonterminal::Factor)),
        input: r,
    };
    if w == seq![Token::Id] {
        lemma_shift_on(c0, 5);
        assert((w + r).drop_first() =~= r);
        let c1 = Config { states: st.push(5), symbols: sy.push(Symbol::Tok(Token::Id)), input: r };
        assert(st + seq![5u8] =~= st.push(5));
        assert(sy + seq![Symbol::Tok(Token::Id)] =~= sy.push(Symbol::Tok(Token::Id)));
        lemma_reduce_on(st, sy, seq![5u8], seq![Symbol::Tok(Token::Id)], r, 6);
        lemma_then(c0, 1, c1, 1, done);
        2
    } else {
        let e = w.subrange(1, w.len() - 1);
        let r1 = seq![Token::Close] + r;
        assert(w =~= seq![Token::Open] + e + seq![Token::Close]);
        assert((w + r)[0] == Token::Open);
        lemma_shift_on(c0, 4);
        assert((w + r).drop_first() =~= e + r1);
        let s1 = st.push(4);
        let y1 = sy.push(Symbol::Tok(Token::Open));
        let c1 = Config { states: s1, symbols: y1, input: e + r1 };
        let m1 = lemma_expr(s1, y1, e, r1);
        let s2 = s1.push(8);
        let y2 = y1.push(Symbol::Non(Nonterminal::Expr));
        let c2 = Config { states: s2, symbols: y2, input: r1 };
        lemma_then(c0, 1, c1, m1, c2);
        lemma_shift_on(c2, 11);
        assert(r1.drop_first() =~= r);
        let s3 = s2.push(11);
        let y3 = y2.push(Symbol::Tok(Token::Close));
        let c3 = Config { states: s3, symbols: y3, input: r };
        lemma_then(c0, 1 + m1, c2, 1, c3);
        let ts = seq![4u8, 8u8, 11u8];
        let tsy = seq![Symbol::Tok(Token::Open), Symbol::Non(Nonterminal::Expr), Symbol::Tok(Token::Close)];
        assert(st + ts =~= s3);
        assert(sy + tsy =~= y3);
        lemma_reduce_on(st, sy, ts, tsy, r, 5);
        lemma_then(c0, 1 + m1 + 1, c3, 1, done);
        1 + m1 + 1 + 1
    }
}

/// Above a state that expects a term, the automaton reads a derivation of
/// T and enters the goto state for T.
proof fn lemma_term(st: Seq<u8>, sy: Seq<Symbol>, w: Seq<Token>, r: Seq<Token>) -> (m: nat)
    requires
        st.len() >= 1,
        st.len() == sy.len() + 1,
        st.last() == 0 || st.last() == 4 || st.last() == 6,
        is_term(w),
        r.len() > 0,
        follows_factor(r[0]),
    ensures
        advance(Config { states: st, symbols: sy, input: w + r }, m) == Some(
            Config {
                states: st.push(goto_table(st.last(), Nonterminal::Term)->Some_0),
                symbols: sy.push(Symbol::Non(Nonterminal::Term)),
                input: r,
            },
        ),
    decreases w.len(), 1nat,
{
    let c0 = Config { states: st, symbols: sy, input: w + r };
    let done = Config {
        states: st.push(goto_table(st.last(), Nonterminal::Term)->Some_0),
        symbols: sy.push(Symbol::Non(Nonterminal::Term)),
        input: r,
    };
    if is_factor(w) {
        let m1 = lemma_factor(st, sy, w, r);
        let c1 = Config { states: st.push(3), symbols: sy.push(Symbol::Non(Nonterminal::Factor)), input: r };
        assert(st + seq![3u8] =~= st.push(3));
        assert(sy + seq![Symbol::Non(Nonterminal::Factor)] =~= sy.push(Symbol::Non(Nonterminal::Factor)));
        lemma_reduce_on(st, sy, seq![3u8], seq![Symbol::Non(Nonterminal::Factor)], r, 4);
        lemma_then(c0, m1, c1, 1, done);
        m1 + 1
    } else {
        let k = choose|k: int|
            0 < k < w.len() - 1 && #[trigger] w[k] == Token::Mul && is_term(w.subrange(0, k))
                && is_factor(w.subrange(k + 1, w.len() as int));
        let w1 = w.subrange(0, k);
        let w2 = w.subrange(k + 1, w.len() as int);
        let r1 = seq![Token::Mul] + (w2 + r);
        assert(w + r =~= w1 + r1);
        let m1 = lemma_term(st, sy, w1, r1);
        let g = goto_table(st.last(), Nonterminal::Term)->Some_0;
        let s1 = st.push(g);
        let y1 = sy.push(Symbol::Non(Nonterminal::Term));
        let c1 = Config { states: s1, symbols: y1, input: r1 };
        lemma_shift_on(c1, 7);
        assert(r1.drop_first() =~= w2 + r);
        let s2 = s1.push(7);
        let y2 = y1.push(Symbol::Tok(Token::Mul));
        let c2 = Config { states: s2, symbols: y2, input: w2 + r };
        lemma_then(c0, m1, c1, 1, c2);
        let m2 = lemma_factor(s2, y2, w2, r);
        let s3 = s2.push(10);
        let y3 = y2.push(Symbol::Non(Nonterminal::Factor));
        let c3 = Config { states: s3, symbols: y3, input: r };
        lemma_then(c0, m1 + 1, c2, m2, c3);
        let ts = seq![g, 7u8, 10u8];
        let tsy = seq![Symbol::Non(Nonterminal::Term), Symbol::Tok(Token::Mul), Symbol::Non(Nonterminal::Factor)];
        assert(st + ts =~= s3);
        assert(sy + tsy =~= y3);
        lemma_reduce_on(st, sy, ts, tsy, r, 3);
        lemma_then(c0, m1 + 1 + m2, c3, 1, done);
        m1 + 1 + m2 + 1
    }
}

/// Above a state that expects an expression, the automaton reads a
/// derivation of E and enters the goto state for E.
proof fn lemma_expr(st: Seq<u8>, sy: Seq<Symbol>, w: Seq<Token>, r: Seq<Token>) -> (m: nat)
    requires
        st.len() >= 1,
        st.len() == sy.len() + 1,
        st.last() == 0 || st.last() == 4,
        is_expr(w),
        r.len() > 0,
        follows_expr(r[0]),
    ensures
        advance(Config { states: st, symbols: sy, input: w + r }, m) == Some(
            Config {
                states: st.push(goto_table(st.last(), Nonterminal::Expr)->Some_0),
                symbols: sy.push(Symbol::Non(Nonterminal::Expr)),
                input: r,
            },
        ),
    decreases w.len(), 2nat,
{
    let c0 = Config { states: st, symbols: sy, input: w + r };
    let done = Config {
        states: st.push(goto_table(st.last(), Nonterminal::Expr)->Some_0),
        symbols: sy.push(Symbol::Non(Nonterminal::Expr)),
        input: r,
    };
    if is_term(w) {
        let m1 = lemma_term(st, sy, w, r);
        let c1 = Config { states: st.push(2), symbols: sy.push(Symbol::Non(Nonterminal::Term)), input: r };
        assert(st + seq![2u8] =~= st.push(2));
        assert(sy + seq![Symbol::Non(Nonterminal::Term)] =~= sy.push(Symbol::Non(Nonterminal::Term)));
        lemma_reduce_on(st, sy, seq![2u8], seq![Symbol::Non(Nonterminal::Term)], r, 2);
        lemma_then(c0, m1, c1, 1, done);
        m1 + 1
    } else {
        let k = choose|k: int|
            0 < k < w.len() - 1 && #[trigger] w[k] == Token::Add && is_expr(w.subrange(0, k))
                && is_term(w.subrange(k + 1, w.len() as int));
        let w1 = w.subrange(0, k);
        let w2 = w.subrange(k + 1, w.len() as int);
        let r1 = seq![Token::Add] + (w2 + r);
        assert(w + r =~= w1 + r1);
        let m1 = lemma_expr(st, sy, w1, r1);
        let g = goto_table(st.last(), Nonterminal::Expr)->Some_0;
        let s1 = st.push(g);
        let y1 = sy.push(Symbol::Non(Nonterminal::Expr));
        let c1 = Config { states: s1, symbols: y1, input: r1 };
        lemma_shift_on(c1, 6);
        assert(r1.drop_first() =~= w2 + r);
        let s2 = s1.push(6);
        let y2 = y1.push(Symbol::Tok(Token::Add));
        let c2 = Config { states: s2, symbols: y2, input: w2 + r };
        lemma_then(c0, m1, c1, 1, c2);
        let m2 = lemma_term(s2, y2, w2, r);
        let s3 = s2.push(9);
        let y3 = y2.push(Symbol::Non(Nonterminal::Term));
        let c3 = Config { states: s3, symbols: y3, input: r };
        lemma_then(c0, m1 + 1, c2, m2, c3);
        let ts = seq![g, 6u8, 9u8];
        let tsy = seq![Symbol::Non(Nonterminal::Expr), Symbol::Tok(Token::Add), Symbol::Non(Nonterminal::Term)];
        assert(st + ts =~= s3);
        assert(sy + tsy =~= y3);
        lemma_reduce_on(st, sy, ts, tsy, r, 1);
        lemma_then(c0, m1 + 1 + m2, c3, 1, done);
        m1 + 1 + m2 + 1
    }
}

/// Every sentence of the grammar followed by `$` is accepted, and when it
/// is, the symbol stack holds exactly one entry, E.
pub proof fn theorem_accepts_sentences(w: Seq<Token>)
    requires
        is_expr(w),
    ensures
        parse(w.push(Token::End)) is Ok,
        parse(w.push(Token::End))->Ok_0.1 == Verdict::Accepted,
        parse(w.push(Token::End))->Ok_0.0.last().config.symbols == seq![
            Symbol::Non(Nonterminal::Expr),
        ],
{
    let c0 = initial(w.push(Token::End));
    assert(w + seq![Token::End] =~= w.push(Token::End));
    let m = lemma_expr(seq![0u8], seq![], w, seq![Token::End]);
    let c2 = Config {
        states: seq![0u8].push(1),
        symbols: seq![].push(Symbol::Non(Nonterminal::Expr)),
        input: seq![Token::End],
    };
    assert(step_of(c2) == Move::Halt(Taken::Accepted, Verdict::Accepted));
    lemma_advance_run(c0, m, 1);
    assert(seq![].push(Symbol::Non(Nonterminal::Expr)) =~= seq![Symbol::Non(Nonterminal::Expr)]);
}

/// A stretch of input that a symbol-stack entry stands for.
pub open spec fn derives(sym: Symbol, seg: Seq<Token>) -> bool {
    match sym {
        Symbol::Tok(t) => seg == seq![t],
        Symbol::Non(Nonterminal::Expr) => is_expr(seg),
        Symbol::Non(Nonterminal::Term) => is_term(seg),
        Symbol::Non(Nonterminal::Factor) => is_factor(seg),
    }
}

/// Stretches of input written one after another.
pub open spec fn flat(segs: Seq<Seq<Token>>) -> Seq<Token>
    decreases segs.len(),
{
    if segs.len() == 0 {
        seq![]
    } else {
        flat(segs.drop_last()) + segs.last()
    }
}

/// The symbol stack stands for the input read so far: one stretch per
/// entry, each derived from its entry, which with the rest of the input
/// make up `tokens`.
pub open spec fn accounts(c: Config, segs: Seq<Seq<Token>>, tokens: Seq<Token>) -> bool {
    &&& segs.len() == c.symbols.len()
    &&& forall|i: int| 0 <= i < segs.len() ==> derives(#[trigger] c.symbols[i], segs[i])
    &&& flat(segs) + c.input == tokens
}

proof fn lemma_sentence_nonempty(w: Seq<Token>)
    ensures
        is_expr(w) ==> w.len() > 0,
        is_term(w) ==> w.len() > 0,
        is_factor(w) ==> w.len() > 0,
{
    if is_term(w) && !is_factor(w) {
        let k = choose|k: int|
            0 < k < w.len() - 1 && #[trigger] w[k] == Token::Mul && is_term(w.subrange(0, k))
                && is_factor(w.subrange(k + 1, w.len() as int));
    }
    if is_expr(w) && !is_term(w) {
        let k = choose|k: int|
            0 < k < w.len() - 1 && #[trigger] w[k] == Token::Add && is_expr(w.subrange(0, k))
                && is_term(w.subrange(k + 1, w.len() as int));
    }
}

proof fn lemma_join_expr(a: Seq<Token>, b: Seq<Token>)
    requires
        is_expr(a),
        is_term(b),
    ensures
        is_expr(a + seq![Token::Add] + b),
{
    lemma_sentence_nonempty(a);
    lemma_sentence_nonempty(b);
    let w = a + seq![Token::Add] + b;
    let k = a.len() as int;
    assert(w.subrange(0, k) =~= a);
    assert(w.subrange(k + 1, w.len() as int) =~= b);
    assert(w[k] == Token::Add);
}

proof fn lemma_join_term(a: Seq<Token>, b: Seq<Token>)
    requires
        is_term(a),
        is_factor(b),
    ensures
        is_term(a + seq![Token::Mul] + b),
{
    lemma_sentence_nonempty(a);
    lemma_sentence_nonempty(b);
    let w = a + seq![Token::Mul] + b;
    let k = a.len() as int;
    assert(w.subrange(0, k) =~= a);
    assert(w.subrange(k + 1, w.len() as int) =~= b);
    assert(w[k] == Token::Mul);
}

proof fn lemma_join_factor(e: Seq<Token>)
    requires
        is_expr(e),
    ensures
        is_factor(seq![Token::Open] + e + seq![Token::Close]),
{
    let w = seq![Token::Open] + e + seq![Token::Close];
    assert(w.subrange(1, w.len() - 1) =~= e);
}

/// A step keeps the symbol stack accounting for the input read.
proof fn lemma_step_accounts(c: Config, segs: Seq<Seq<Token>>, tokens: Seq<Token>) -> (next_segs:
    Seq<Seq<Token>>)
    requires
        viable(c),
        c.input.len() > 0,
        accounts(c, segs, tokens),
        step_of(c) is Go,
    ensures
        accounts(step_of(c)->Go_1, next_segs, tokens),
{
    let nc = step_of(c)->Go_1;
    let l = c.states.len() as int;
    let ns = segs.len() as int;
    match action_table(c.states.last(), c.input[0]) {
        Action::Shift(n) => {
            let t = c.input[0];
            let out = segs.push(seq![t]);
            assert(out.drop_last() =~= segs);
            assert(flat(out) + nc.input =~= flat(segs) + c.input);
            assert forall|i: int| 0 <= i < out.len() implies derives(#[trigger] nc.symbols[i], out[i]) by {
                if i < ns {
                    assert(derives(c.symbols[i], segs[i]));
                }
            }
            out
        },
        Action::Reduce(r) => {
            reveal(edge);
            reveal(entry_symbol);
            let k = rule_arity(r) as int;
            lemma_step_viable(c);
            assert(edge(c.states[l - 2], c.states[l - 2 + 1]));
            assert(c.symbols[l - 2] == entry_symbol(c.states[l - 2 + 1]));
            let top = if k == 1 {
                segs[ns - 1]
            } else {
                assert(edge(c.states[l - 3], c.states[l - 3 + 1]));
                assert(c.symbols[l - 3] == entry_symbol(c.states[l - 3 + 1]));
                assert(edge(c.states[l - 4], c.states[l - 4 + 1]));
                assert(c.symbols[l - 4] == entry_symbol(c.states[l - 4 + 1]));
                segs[ns - 3] + segs[ns - 2] + segs[ns - 1]
            };
            let kept = segs.subrange(0, ns - k);
            let out = kept.push(top);
            assert(derives(c.symbols[ns - 1], segs[ns - 1]));
            if k == 3 {
                assert(derives(c.symbols[ns - 2], segs[ns - 2]));
                assert(derives(c.symbols[ns - 3], segs[ns - 3]));
            }
            if r == 1 {
                lemma_join_expr(segs[ns - 3], segs[ns - 1]);
            } else if r == 3 {
                lemma_join_term(segs[ns - 3], segs[ns - 1]);
            } else if r == 5 {
                lemma_join_factor(segs[ns - 2]);
            }
            assert(derives(Symbol::Non(rule_lhs(r)), top));
            assert(out.drop_last() =~= kept);
            if k == 1 {
                assert(segs.drop_last() =~= kept);
            } else {
                let d1 = segs.drop_last();
                let d2 = d1.drop_last();
                let d3 = d2.drop_last();
                assert(d3 =~= kept);
                assert(d1.last() == segs[ns - 2]);
                assert(d2.last() == segs[ns - 3]);
                assert(flat(d2) == flat(d3) + d2.last());
                assert(flat(d1) == flat(d2) + d1.last());
                assert(flat(segs) == flat(d1) + segs.last());
                assert(flat(kept) + top =~= flat(kept) + segs[ns - 3] + segs[ns - 2] + segs[ns - 1]);
            }
            assert(flat(out) == flat(kept) + top);
            assert(flat(out) =~= flat(segs));
            assert forall|i: int| 0 <= i < out.len() implies derives(#[trigger] nc.symbols[i], out[i]) by {
                if i < ns - k {
                    assert(derives(c.symbols[i], segs[i]));
                }
            }
            out
        },
        _ => segs,
    }
}

/// Along a run, the last record shows the verdict's action, and an
/// accepting run has read a sentence when it meets `$`.
proof fn lemma_run_sound(c: Config, n: nat, segs: Seq<Seq<Token>>, tokens: Seq<Token>)
    requires
        viable(c),
        accounts(c, segs, tokens),
    ensures
        run_from(c, n) is Ok ==> ({
            let (rs, v) = run_from(c, n)->Ok_0;
            let f = rs.last().config;
            &&& rs.len() > 0
            &&& v == Verdict::Accepted ==> rs.last().taken == Taken::Accepted
            &&& v == Verdict::Rejected ==> rs.last().taken == Taken::Rejected
            &&& v == Verdict::Accepted ==> f.input.len() > 0 && f.input[0] == Token::End
                && f.input.len() <= tokens.len()
                && tokens.subrange(tokens.len() - f.input.len(), tokens.len() as int) == f.input
                && is_expr(tokens.subrange(0, tokens.len() - f.input.len()))
        }),
    decreases measure(c),
{
    lemma_step_lowers(c);
    if c.input.len() == 0 {
        return;
    }
    lemma_step_viable(c);
    match step_of(c) {
        Move::Go(t, nc) => {
            let ns = lemma_step_accounts(c, segs, tokens);
            lemma_run_sound(nc, n + 1, ns, tokens);
        },
        Move::Halt(t, v) => {
            if v == Verdict::Accepted {
                reveal(edge);
                reveal(entry_symbol);
                let l = c.states.len() as int;
                assert(c.states[l - 1] == 1);
                assert(edge(c.states[l - 2], c.states[l - 2 + 1]));
                if l > 2 {
                    assert(edge(c.states[l - 3], c.states[l - 3 + 1]));
                }
                assert(c.symbols[0] == entry_symbol(c.states[0int + 1]));
                assert(derives(c.symbols[0], segs[0]));
                assert(segs.drop_last() =~= Seq::<Seq<Token>>::empty());
                assert(flat(segs.drop_last()) =~= Seq::<Token>::empty());
                assert(flat(segs) =~= segs[0]);
                assert(tokens.subrange(tokens.len() - c.input.len(), tokens.len() as int) =~= c.input);
                assert(tokens.subrange(0, tokens.len() - c.input.len()) =~= segs[0]);
            }
        },
        Move::Stop(f) => {},
    }
}

/// Opening parentheses minus closing ones.
pub open spec fn depth(w: Seq<Token>) -> int
    decreases w.len(),
{
    if w.len() == 0 {
        0
    } else {
        depth(w.drop_last()) + if w.last() == Token::Open {
            1int
        } else if w.last() == Token::Close {
            -1int
        } else {
            0int
        }
    }
}

proof fn lemma_depth_one(t: Token)
    ensures
        depth(seq![t]) == if t == Token::Open {
            1int
        } else if t == Token::Close {
            -1int
        } else {
            0int
        },
{
    assert(seq![t].drop_last() =~= Seq::<Token>::empty());
    assert(depth(Seq::<Token>::empty()) == 0);
}

proof fn lemma_depth_concat(a: Seq<Token>, b: Seq<Token>)
    ensures
        depth(a + b) == depth(a) + depth(b),
    decreases b.len(),
{
    if b.len() > 0 {
        lemma_depth_concat(a, b.drop_last());
        assert((a + b).drop_last() =~= a + b.drop_last());
    } else {
        assert(a + b =~= a);
    }
}

/// Sentences of each nonterminal have balanced parentheses and end with
/// `id` or `)`.
proof fn lemma_sentence_shape(w: Seq<Token>)
    ensures
        is_factor(w) ==> depth(w) == 0 && (w.last() == Token::Id || w.last() == Token::Close),
        is_term(w) ==> depth(w) == 0 && (w.last() == Token::Id || w.last() == Token::Close),
        is_expr(w) ==> depth(w) == 0 && (w.last() == Token::Id || w.last() == Token::Close),
    decreases w.len(),
{
    if is_factor(w) {
        if w == seq![Token::Id] {
            lemma_depth_one(Token::Id);
        } else {
            let e = w.subrange(1, w.len() - 1);
            lemma_sentence_shape(e);
            assert(w =~= seq![Token::Open] + e + seq![Token::Close]);
            lemma_depth_concat(seq![Token::Open] + e, seq![Token::Close]);
            lemma_depth_concat(seq![Token::Open], e);
            lemma_depth_one(Token::Open);
            lemma_depth_one(Token::Close);
        }
    }
    if is_term(w) && !is_factor(w) {
        let k = choose|k: int|
            0 < k < w.len() - 1 && #[trigger] w[k] == Token::Mul && is_term(w.subrange(0, k))
                && is_factor(w.subrange(k + 1, w.len() as int));
        let a = w.subrange(0, k);
        let b = w.subrange(k + 1, w.len() as int);
        lemma_sentence_shape(a);
        lemma_sentence_shape(b);
        assert(w =~= a + seq![Token::Mul] + b);
        lemma_depth_concat(a + seq![Token::Mul], b);
        lemma_depth_concat(a, seq![Token::Mul]);
        lemma_depth_one(Token::Mul);
        lemma_sentence_nonempty(b);
        assert(w.last() == b.last());
    }
    if is_expr(w) && !is_term(w) {
        let k = choose|k: int|
            0 < k < w.len() - 1 && #[trigger] w[k] == Token::Add && is_expr(w.subrange(0, k))
                && is_term(w.subrange(k + 1, w.len() as int));
        let a = w.subrange(0, k);
        let b = w.subrange(k + 1, w.len() as int);
        lemma_sentence_shape(a);
        lemma_sentence_shape(b);
        assert(w =~= a + seq![Token::Add] + b);
        lemma_depth_concat(a + seq![Token::Add], b);
        lemma_depth_concat(a, seq![Token::Add]);
        lemma_depth_one(Token::Add);
        lemma_sentence_nonempty(b);
        assert(w.last() == b.last());
    }
}

/// Balanced parentheses: as many `(` as `)`, and no prefix closes more
/// than it has opened.
pub open spec fn balanced(w: Seq<Token>) -> bool {
    depth(w) == 0 && forall|j: int| 0 <= j <= w.len() ==> #[trigger] depth(w.subrange(0, j)) >= 0
}

proof fn lemma_split_prefixes(a: Seq<Token>, op: Token, b: Seq<Token>)
    requires
        op == Token::Add || op == Token::Mul,
        balanced(a),
        balanced(b),
    ensures
        balanced(a + seq![op] + b),
{
    let w = a + seq![op] + b;
    lemma_depth_one(op);
    lemma_depth_concat(a + seq![op], b);
    lemma_depth_concat(a, seq![op]);
    assert forall|j: int| 0 <= j <= w.len() implies #[trigger] depth(w.subrange(0, j)) >= 0 by {
        if j <= a.len() {
            assert(w.subrange(0, j) =~= a.subrange(0, j));
        } else {
            let bj = b.subrange(0, j - a.len() - 1);
            assert(w.subrange(0, j) =~= a + seq![op] + bj);
            lemma_depth_concat(a + seq![op], bj);
        }
    }
}

/// Sentences of each nonterminal have balanced parentheses.
proof fn lemma_sentence_balanced(w: Seq<Token>)
    ensures
        is_factor(w) ==> balanced(w),
        is_term(w) ==> balanced(w),
        is_expr(w) ==> balanced(w),
    decreases w.len(),
{
    lemma_sentence_shape(w);
    if is_factor(w) {
        if w == seq![Token::Id] {
            lemma_depth_one(Token::Id);
            assert forall|j: int| 0 <= j <= w.len() implies #[trigger] depth(w.subrange(0, j)) >= 0 by {
                if j == 0 {
                    assert(w.subrange(0, j) =~= Seq::<Token>::empty());
                } else {
                    assert(w.subrange(0, j) =~= w);
                }
            }
        } else {
            let e = w.subrange(1, w.len() - 1);
            lemma_sentence_balanced(e);
            lemma_depth_one(Token::Open);
            assert forall|j: int| 0 <= j <= w.len() implies #[trigger] depth(w.subrange(0, j)) >= 0 by {
                if j == 0 {
                    assert(w.subrange(0, j) =~= Seq::<Token>::empty());
                } else if j < w.len() {
                    let ej = e.subrange(0, j - 1);
                    assert(w.subrange(0, j) =~= seq![Token::Open] + ej);
                    lemma_depth_concat(seq![Token::Open], ej);
                } else {
                    assert(w.subrange(0, j) =~= w);
                }
            }
        }
    }
    if is_term(w) && !is_factor(w) {
        let k = choose|k: int|
            0 < k < w.len() - 1 && #[trigger] w[k] == Token::Mul && is_term(w.subrange(0, k))
                && is_factor(w.subrange(k + 1, w.len() as int));
        let a = w.subrange(0, k);
        let b = w.subrange(k + 1, w.len() as int);
        lemma_sentence_balanced(a);
        lemma_sentence_balanced(b);
        assert(w =~= a + seq![Token::Mul] + b);
        lemma_split_prefixes(a, Token::Mul, b);
    }
    if is_expr(w) && !is_term(w) {
        let k = choose|k: int|
            0 < k < w.len() - 1 && #[trigger] w[k] == Token::Add && is_expr(w.subrange(0, k))
                && is_term(w.subrange(k + 1, w.len() as int));
        let a = w.subrange(0, k);
        let b = w.subrange(k + 1, w.len() as int);
        lemma_sentence_balanced(a);
        lemma_sentence_balanced(b);
        assert(w =~= a + seq![Token::Add] + b);
        lemma_split_prefixes(a, Token::Add, b);
    }
}

/// A token sequence that ends in `$`, with no earlier `$`, is accepted only
/// if what stands before the `$` is a sentence of the grammar.
pub proof fn theorem_accepts_only_sentences(tokens: Seq<Token>)
    requires
        properly_ended(tokens),
        parse(tokens) is Ok,
        parse(tokens)->Ok_0.1 == Verdict::Accepted,
    ensures
        is_expr(tokens.drop_last()),
{
    let c0 = initial(tokens);
    assert(flat(seq![]) + tokens =~= tokens);
    reveal(edge);
    reveal(entry_symbol);
    assert(viable(c0));
    lemma_run_sound(c0, 1, seq![], tokens);
    let f = parse(tokens)->Ok_0.0.last().config;
    let j = tokens.len() - f.input.len();
    assert(tokens[j] == f.input[0]) by {
        assert(tokens.subrange(j, tokens.len() as int)[0] == tokens[j]);
    }
    assert(j == tokens.len() - 1);
    assert(tokens.subrange(0, j) =~= tokens.drop_last());
}

/// A token sequence that ends in `$`, with no earlier `$`, whose tokens
/// before the `$` are empty, have unbalanced parentheses, or end with `+`
/// or `*`, is rejected through the error action, never through a fault.
pub proof fn theorem_rejects_malformed(tokens: Seq<Token>)
    requires
        properly_ended(tokens),
        ({
            let w = tokens.drop_last();
            w.len() == 0 || !balanced(w) || w.last() == Token::Add || w.last() == Token::Mul
        }),
    ensures
        parse(tokens) is Ok,
        parse(tokens)->Ok_0.1 == Verdict::Rejected,
        parse(tokens)->Ok_0.0.last().taken == Taken::Rejected,
{
    theorem_no_fault(tokens);
    lemma_sentence_nonempty(tokens.drop_last());
    lemma_sentence_shape(tokens.drop_last());
    lemma_sentence_balanced(tokens.drop_last());
    if parse(tokens)->Ok_0.1 == Verdict::Accepted {
        theorem_accepts_only_sentences(tokens);
    }
    let c0 = initial(tokens);
    assert(flat(seq![]) + tokens =~= tokens);
    reveal(edge);
    reveal(entry_symbol);
    assert(viable(c0));
    lemma_run_sound(c0, 1, seq![], tokens);
}

} // verus!
