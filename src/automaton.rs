//! The shift-reduce automaton: a model of one step and of a whole run, and
//! the executable run that produces the trace.
use vstd::prelude::*;
use std::collections::VecDeque;
use crate::grammar::{
    Action, Symbol, Token, action, action_table, arity, goto, goto_table, lhs,
    rule_arity, rule_lhs,
};
use crate::render::{
    decimal, format_states, format_symbols, format_tokvec, push_decimal, states_text,
    symbols_text, tokens_text,
};

verus! {

/// A run's internal failure: the tables or the input led the automaton to a
/// place where it cannot go on. Distinct from rejecting the input.
#[derive(Clone, Copy, Debug, PartialEq, Eq, Structural)]
pub enum Fault {
    /// A step began with nothing left to read.
    OutOfTokens,
    /// A step began with no state, or a reduction would pop the whole stack.
    OutOfStates,
    /// The goto table has no entry for the exposed state and the nonterminal.
    NoGoto,
}

/// The verdict that ends a run.
#[derive(Clone, Copy, Debug, PartialEq, Eq, Structural)]
pub enum Verdict {
    Accepted,
    Rejected,
}

/// What a step did.
#[derive(Clone, Copy, Debug, PartialEq, Eq, Structural)]
pub enum Taken {
    /// Shifted, entering the state.
    Shifted(u8),
    /// Reduced by the rule, then entered the goto state.
    Reduced(u8, u8),
    Accepted,
    Rejected,
}

/// The automaton between steps: both stacks, bottom first, and what is left
/// of the input.
pub struct Config {
    pub states: Seq<u8>,
    pub symbols: Seq<Symbol>,
    pub input: Seq<Token>,
}

/// A step record before rendering: the step number, the configuration the
/// step started from, and what it did.
pub struct Record {
    pub step: nat,
    pub config: Config,
    pub taken: Taken,
}

/// The outcome of one step.
pub enum Move {
    Go(Taken, Config),
    Halt(Taken, Verdict),
    Stop(Fault),
}

/// Where every run starts.
pub open spec fn initial(tokens: Seq<Token>) -> Config {
    Config { states: seq![0u8], symbols: seq![], input: tokens }
}

/// One step of the automaton.
pub open spec fn step_of(c: Config) -> Move {
    if c.input.len() == 0 {
        Move::Stop(Fault::OutOfTokens)
    } else if c.states.len() == 0 {
        Move::Stop(Fault::OutOfStates)
    } else {
        match action_table(c.states.last(), c.input[0]) {
            Action::Shift(n) => Move::Go(
                Taken::Shifted(n),
                Config {
                    states: c.states.push(n),
                    symbols: c.symbols.push(Symbol::Tok(c.input[0])),
                    input: c.input.drop_first(),
                },
            ),
            Action::Reduce(r) => {
                let k = rule_arity(r);
                if c.states.len() <= k || c.symbols.len() < k {
                    Move::Stop(Fault::OutOfStates)
                } else {
                    let kept = c.states.subrange(0, c.states.len() - k);
                    match goto_table(kept.last(), rule_lhs(r)) {
                        Some(g) => Move::Go(
                            Taken::Reduced(r, g),
                            Config {
                                states: kept.push(g),
                                symbols: c.symbols.subrange(0, c.symbols.len() - k).push(
                                    Symbol::Non(rule_lhs(r)),
                                ),
                                input: c.input,
                            },
                        ),
                        None => Move::Stop(Fault::NoGoto),
                    }
                }
            },
            Action::Accept => Move::Halt(Taken::Accepted, Verdict::Accepted),
            Action::Error => Move::Halt(Taken::Rejected, Verdict::Rejected),
        }
    }
}

/// How far a state stands from the end of a chain of unit reductions
/// (F -> id, T -> F, E -> T).
pub open spec fn weight(s: u8) -> nat {
    if s == 5 {
        3
    } else if s == 3 || s == 10 {
        2
    } else if s == 2 || s == 9 {
        1
    } else {
        0
    }
}

/// A quantity that every step lowers.
pub open spec fn measure(c: Config) -> nat {
    10 * c.input.len() + 4 * c.states.len() + if c.states.len() > 0 {
        weight(c.states.last())
    } else {
        0
    }
}

/// Every step that goes on lowers the measure.
pub proof fn lemma_step_lowers(c: Config)
    ensures
        step_of(c) is Go ==> measure(step_of(c)->Go_1) < measure(c),
{
}

/// The records and verdict of a run from `c` whose first step is numbered
/// `n`, or the fault that aborts it.
pub open spec fn run_from(c: Config, n: nat) -> Result<(Seq<Record>, Verdict), Fault>
    decreases measure(c) via run_from_decreases
{
    match step_of(c) {
        Move::Stop(f) => Err(f),
        Move::Halt(t, v) => Ok((seq![Record { step: n, config: c, taken: t }], v)),
        Move::Go(t, next) => match run_from(next, n + 1) {
            Ok((rs, v)) => Ok((seq![Record { step: n, config: c, taken: t }] + rs, v)),
            Err(f) => Err(f),
        },
    }
}

#[via_fn]
proof fn run_from_decreases(c: Config, n: nat) {
    lemma_step_lowers(c);
}

/// The whole run on a token sequence.
pub open spec fn parse(tokens: Seq<Token>) -> Result<(Seq<Record>, Verdict), Fault> {
    run_from(initial(tokens), 1)
}

/// The label of an action taken: `s5`, `r2g1`, `accept`, `error`.
pub open spec fn taken_text(t: Taken) -> Seq<char> {
    match t {
        Taken::Shifted(n) => seq!['s'] + decimal(n as nat),
        Taken::Reduced(r, g) => seq!['r'] + decimal(r as nat) + seq!['g'] + decimal(g as nat),
        Taken::Accepted => seq!['a', 'c', 'c', 'e', 'p', 't'],
        Taken::Rejected => seq!['e', 'r', 'r', 'o', 'r'],
    }
}

/// One row of the trace, as text.
#[derive(Debug)]
pub struct ParserStep {
    pub step: usize,
    pub states: String,
    pub output: String,
    pub input: String,
    pub action: String,
}

impl ParserStep {
    pub fn new(step: usize, states: String, output: String, input: String, action: String) -> (r:
        Self)
        ensures
            r.step == step,
            r.states@ == states@,
            r.output@ == output@,
            r.input@ == input@,
            r.action@ == action@,
    {
        ParserStep { step, states, output, input, action }
    }
}

/// A row is the rendering of a record.
pub open spec fn renders(p: ParserStep, r: Record) -> bool {
    &&& p.step == r.step
    &&& p.states@ == states_text(r.config.states)
    &&& p.output@ == symbols_text(r.config.symbols)
    &&& p.input@ == tokens_text(r.config.input)
    &&& p.action@ == taken_text(r.taken)
}

/// Rows that render records one for one.
pub open spec fn renders_all(ps: Seq<ParserStep>, rs: Seq<Record>) -> bool {
    ps.len() == rs.len() && forall|i: int| 0 <= i < ps.len() ==> renders(#[trigger] ps[i], rs[i])
}

/// An executable run's result agrees with the model's.
pub open spec fn agrees(
    r: Result<(Vec<ParserStep>, Verdict), Fault>,
    m: Result<(Seq<Record>, Verdict), Fault>,
) -> bool {
    match (r, m) {
        (Ok((ps, v)), Ok((rs, w))) => v == w && renders_all(ps@, rs),
        (Err(f), Err(g)) => f == g,
        _ => false,
    }
}

/// Records already made in front of what the rest of a run makes.
pub open spec fn after(done: Seq<Record>, rest: Result<(Seq<Record>, Verdict), Fault>) -> Result<
    (Seq<Record>, Verdict),
    Fault,
> {
    match rest {
        Ok((rs, v)) => Ok((done + rs, v)),
        Err(f) => Err(f),
    }
}

fn shift_label(n: u8) -> (r: String)
    ensures
        r@ == taken_text(Taken::Shifted(n)),
{
    let mut s = String::from_str("s");
    proof { reveal_strlit("s"); }
    push_decimal(&mut s, n);
    s
}

fn reduce_label(rule: u8, g: u8) -> (r: String)
    ensures
        r@ == taken_text(Taken::Reduced(rule, g)),
{
    let mut s = String::from_str("r");
    proof { reveal_strlit("r"); reveal_strlit("g"); }
    push_decimal(&mut s, rule);
    s.append("g");
    push_decimal(&mut s, g);
    s
}

/// Moves the front token onto the symbol stack and enters state `next`.
pub fn shift(states: &mut Vec<u8>, symbols: &mut Vec<Symbol>, input: &mut VecDeque<Token>, next: u8)
    requires
        old(input)@.len() > 0,
    ensures
        final(states)@ == old(states)@.push(next),
        final(symbols)@ == old(symbols)@.push(Symbol::Tok(old(input)@[0])),
        final(input)@ == old(input)@.drop_first(),
{
    let t = input.pop_front().unwrap();
    states.push(next);
    symbols.push(Symbol::Tok(t));
}

/// Pops the right-hand side of `rule` off both stacks, pushes its
/// nonterminal and enters the goto state, which is returned.
pub fn reduce(states: &mut Vec<u8>, symbols: &mut Vec<Symbol>, rule: u8) -> (r: Result<u8, Fault>)
    ensures
        ({
            let k = rule_arity(rule);
            let n = old(states)@.len();
            let m = old(symbols)@.len();
            if n <= k || m < k {
                r == Err::<u8, Fault>(Fault::OutOfStates) && final(states)@ == old(states)@
                    && final(symbols)@ == old(symbols)@
            } else {
                match goto_table(old(states)@[n - k - 1], rule_lhs(rule)) {
                    Some(g) => r == Ok::<u8, Fault>(g) && final(states)@ == old(states)@.subrange(
                        0,
                        n - k,
                    ).push(g) && final(symbols)@ == old(symbols)@.subrange(0, m - k).push(
                        Symbol::Non(rule_lhs(rule)),
                    ),
                    None => r == Err::<u8, Fault>(Fault::NoGoto),
                }
            }
        }),
{
    let k = arity(rule);
    if states.len() <= k || symbols.len() < k {
        return Err(Fault::OutOfStates);
    }
    let exposed = states[states.len() - k - 1];
    let nt = lhs(rule);
    match goto(exposed, nt) {
        Some(g) => {
            let ns = states.len() - k;
            let nm = symbols.len() - k;
            states.truncate(ns);
            symbols.truncate(nm);
            states.push(g);
            symbols.push(Symbol::Non(nt));
            Ok(g)
        },
        None => Err(Fault::NoGoto),
    }
}

/// Runs the automaton over `tokens` to a verdict, recording each step
/// before its action is applied; faults abort the run with no trace.
pub fn run(tokens: VecDeque<Token>) -> (r: Result<(Vec<ParserStep>, Verdict), Fault>)
    requires
        tokens@.len() <= usize::MAX / 16,
    ensures
        agrees(r, parse(tokens@)),
{
    let ghost init = initial(tokens@);
    let mut states: Vec<u8> = vec![0u8];
    let mut symbols: Vec<Symbol> = Vec::new();
    let mut input = tokens;
    let mut trace: Vec<ParserStep> = Vec::new();
    let mut step: usize = 1;
    let ghost done: Seq<Record> = seq![];
    assert(states@ =~= seq![0u8]);
    assert(done + seq![] =~= seq![]);
    proof {
        match parse(tokens@) {
            Ok((rs, v)) => { assert(done + rs =~= rs); },
            Err(f) => {},
        }
    }
    loop
        invariant
            after(done, run_from(Config { states: states@, symbols: symbols@, input: input@ }, step as nat))
                == run_from(init, 1),
            init == initial(tokens@),
            renders_all(trace@, done),
            step + measure(Config { states: states@, symbols: symbols@, input: input@ })
                <= measure(init) + 1,
            measure(init) == 10 * tokens@.len() + 4,
            tokens@.len() <= usize::MAX / 16,
        decreases measure(Config { states: states@, symbols: symbols@, input: input@ }),
    {
        let ghost c = Config { states: states@, symbols: symbols@, input: input@ };
        if input.len() == 0 {
            return Err(Fault::OutOfTokens);
        }
        if states.len() == 0 {
            return Err(Fault::OutOfStates);
        }
        let css = format_states(&states);
        let cop = format_symbols(&symbols);
        let cip = format_tokvec(&input);
        let ghost rec_n = step as nat;
        let top = states[states.len() - 1];
        let look = input[0];
        proof { lemma_step_lowers(c); }
        match action(top, look) {
            Action::Shift(n) => {
                shift(&mut states, &mut symbols, &mut input, n);
                let t = Taken::Shifted(n);
                trace.push(ParserStep::new(step, css, cop, cip, shift_label(n)));
                proof {
                    let rec = Record { step: rec_n, config: c, taken: t };
                    let nc = Config { states: states@, symbols: symbols@, input: input@ };
                    assert(step_of(c) == Move::Go(t, nc));
                    match run_from(nc, rec_n + 1) {
                        Ok((rs, v)) => { assert(done + (seq![rec] + rs) =~= done.push(rec) + rs); },
                        Err(f) => {},
                    }
                    done = done.push(rec);
                }
            },
            Action::Reduce(rule) => {
                match reduce(&mut states, &mut symbols, rule) {
                    Ok(g) => {
                        let t = Taken::Reduced(rule, g);
                        trace.push(ParserStep::new(step, css, cop, cip, reduce_label(rule, g)));
                        proof {
                            let rec = Record { step: rec_n, config: c, taken: t };
                            let nc = Config { states: states@, symbols: symbols@, input: input@ };
                            assert(c.states.subrange(0, c.states.len() - rule_arity(rule)).last() == c.states[c.states.len() - rule_arity(rule) - 1]);
                            assert(step_of(c) == Move::Go(t, nc));
                            match run_from(nc, rec_n + 1) {
                                Ok((rs, v)) => { assert(done + (seq![rec] + rs) =~= done.push(rec) + rs); },
                                Err(f) => {},
                            }
                            done = done.push(rec);
                        }
                    },
                    Err(f) => {
                        proof {
                            if c.states.len() > rule_arity(rule) && c.symbols.len() >= rule_arity(rule) {
                                assert(c.states.subrange(0, c.states.len() - rule_arity(rule)).last() == c.states[c.states.len() - rule_arity(rule) - 1]);
                            }
                        }
                        return Err(f);
                    },
                }
            },
            Action::Accept => {
                let label = String::from_str("accept");
                proof {
                    reveal_strlit("accept");
                    assert(label@ =~= taken_text(Taken::Accepted));
                }
                trace.push(ParserStep::new(step, css, cop, cip, label));
                proof {
                    let rec = Record { step: rec_n, config: c, taken: Taken::Accepted };
                    assert(step_of(c) == Move::Halt(Taken::Accepted, Verdict::Accepted));
                    assert(done + seq![rec] =~= done.push(rec));
                    done = done.push(rec);
                    assert(renders(trace@.last(), rec));
                }
                return Ok((trace, Verdict::Accepted));
            },
            Action::Error => {
                let label = String::from_str("error");
                proof {
                    reveal_strlit("error");
                    assert(label@ =~= taken_text(Taken::Rejected));
                }
                trace.push(ParserStep::new(step, css, cop, cip, label));
                proof {
                    let rec = Record { step: rec_n, config: c, taken: Taken::Rejected };
                    assert(step_of(c) == Move::Halt(Taken::Rejected, Verdict::Rejected));
                    assert(done + seq![rec] =~= done.push(rec));
                    done = done.push(rec);
                    assert(renders(trace@.last(), rec));
                }
                return Ok((trace, Verdict::Rejected));
            },
        }
        step += 1;
    }
}

} // verus!
