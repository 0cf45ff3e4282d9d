//! Terminals, nonterminals and the fixed action and goto tables of the
//! grammar E -> E + T | T,  T -> T * F | F,  F -> ( E ) | id.
use vstd::prelude::*;

verus! {

/// A terminal of the grammar.
#[derive(Clone, Copy, Debug, PartialEq, Eq, Structural)]
pub enum Token {
    Id,
    Add,
    Mul,
    Open,
    Close,
    End,
}

/// A nonterminal of the grammar.
#[derive(Clone, Copy, Debug, PartialEq, Eq, Structural)]
pub enum Nonterminal {
    Expr,
    Term,
    Factor,
}

/// An entry of the symbol stack: what was shifted or produced.
#[derive(Clone, Copy, Debug, PartialEq, Eq, Structural)]
pub enum Symbol {
    Tok(Token),
    Non(Nonterminal),
}

/// What the action table prescribes for a state and a lookahead.
/// A reduction names its rule: 1 E -> E+T, 2 E -> T, 3 T -> T*F,
/// 4 T -> F, 5 F -> (E), 6 F -> id.
#[derive(Clone, Copy, Debug, PartialEq, Eq, Structural)]
pub enum Action {
    Shift(u8),
    Reduce(u8),
    Accept,
    Error,
}

/// The printed form of a terminal.
pub open spec fn token_text(t: Token) -> Seq<char> {
    match t {
        Token::Id => seq!['i', 'd'],
        Token::Add => seq!['+'],
        Token::Mul => seq!['*'],
        Token::Open => seq!['('],
        Token::Close => seq![')'],
        Token::End => seq!['$'],
    }
}

/// The printed form of a nonterminal.
pub open spec fn nonterminal_text(n: Nonterminal) -> Seq<char> {
    match n {
        Nonterminal::Expr => seq!['E'],
        Nonterminal::Term => seq!['T'],
        Nonterminal::Factor => seq!['F'],
    }
}

/// The printed form of a symbol-stack entry.
pub open spec fn symbol_text(s: Symbol) -> Seq<char> {
    match s {
        Symbol::Tok(t) => token_text(t),
        Symbol::Non(n) => nonterminal_text(n),
    }
}

impl Token {
    pub fn tostr(&self) -> (r: &'static str)
        ensures
            r@ == token_text(*self),
    {
        proof {
            reveal_strlit("id");
            reveal_strlit("+");
            reveal_strlit("*");
            reveal_strlit("(");
            reveal_strlit(")");
            reveal_strlit("$");
        }
        match self {
            Token::Id => "id",
            Token::Add => "+",
            Token::Mul => "*",
            Token::Open => "(",
            Token::Close => ")",
            Token::End => "$",
        }
    }
}

impl Symbol {
    pub fn label(&self) -> (r: &'static str)
        ensures
            r@ == symbol_text(*self),
    {
        proof {
            reveal_strlit("E");
            reveal_strlit("T");
            reveal_strlit("F");
        }
        match self {
            Symbol::Tok(t) => t.tostr(),
            Symbol::Non(Nonterminal::Expr) => "E",
            Symbol::Non(Nonterminal::Term) => "T",
            Symbol::Non(Nonterminal::Factor) => "F",
        }
    }
}

/// Number of right-hand-side symbols of a rule.
pub open spec fn rule_arity(rule: u8) -> nat {
    if rule == 1 || rule == 3 || rule == 5 {
        3
    } else {
        1
    }
}

/// The nonterminal a rule produces.
pub open spec fn rule_lhs(rule: u8) -> Nonterminal {
    if rule <= 2 {
        Nonterminal::Expr
    } else if rule <= 4 {
        Nonterminal::Term
    } else {
        Nonterminal::Factor
    }
}

/// The action table, one branch per state; every pair it does not list is
/// an error.
pub open spec fn action_table(state: u8, look: Token) -> Action {
    match state {
        0 | 4 | 6 | 7 => match look {
            Token::Id => Action::Shift(5),
            Token::Open => Action::Shift(4),
            _ => Action::Error,
        },
        1 => match look {
            Token::Add => Action::Shift(6),
            Token::End => Action::Accept,
            _ => Action::Error,
        },
        2 => match look {
            Token::Add | Token::End | Token::Close => Action::Reduce(2),
            Token::Mul => Action::Shift(7),
            _ => Action::Error,
        },
        3 => match look {
            Token::Add | Token::End | Token::Close | Token::Mul => Action::Reduce(4),
            _ => Action::Error,
        },
        5 => match look {
            Token::Add | Token::End | Token::Close | Token::Mul => Action::Reduce(6),
            _ => Action::Error,
        },
        8 => match look {
            Token::Add => Action::Shift(6),
            Token::Close => Action::Shift(11),
            _ => Action::Error,
        },
        9 => match look {
            Token::Add | Token::Close | Token::End => Action::Reduce(1),
            Token::Mul => Action::Shift(7),
            _ => Action::Error,
        },
        10 => match look {
            Token::Add | Token::End | Token::Close | Token::Mul => Action::Reduce(3),
            _ => Action::Error,
        },
        11 => match look {
            Token::Add | Token::End | Token::Close | Token::Mul => Action::Reduce(5),
            _ => Action::Error,
        },
        _ => Action::Error,
    }
}

/// The goto table: the state entered after a reduction, keyed on the state
/// exposed by the pops and the produced nonterminal.
pub open spec fn goto_table(state: u8, sym: Nonterminal) -> Option<u8> {
    match (state, sym) {
        (0, Nonterminal::Expr) => Some(1),
        (0, Nonterminal::Term) => Some(2),
        (0, Nonterminal::Factor) => Some(3),
        (4, Nonterminal::Expr) => Some(8),
        (4, Nonterminal::Term) => Some(2),
        (4, Nonterminal::Factor) => Some(3),
        (6, Nonterminal::Term) => Some(9),
        (6, Nonterminal::Factor) => Some(3),
        (7, Nonterminal::Factor) => Some(10),
        _ => None,
    }
}

/// Looks up the action table.
pub fn action(state: u8, look: Token) -> (r: Action)
    ensures
        r == action_table(state, look),
{
    match state {
        0 | 4 | 6 | 7 => match look {
            Token::Id => Action::Shift(5),
            Token::Open => Action::Shift(4),
            _ => Action::Error,
        },
        1 => match look {
            Token::Add => Action::Shift(6),
            Token::End => Action::Accept,
            _ => Action::Error,
        },
        2 => match look {
            Token::Add | Token::End | Token::Close => Action::Reduce(2),
            Token::Mul => Action::Shift(7),
            _ => Action::Error,
        },
        3 => match look {
            Token::Add | Token::End | Token::Close | Token::Mul => Action::Reduce(4),
            _ => Action::Error,
        },
        5 => match look {
            Token::Add | Token::End | Token::Close | Token::Mul => Action::Reduce(6),
            _ => Action::Error,
        },
        8 => match look {
            Token::Add => Action::Shift(6),
            Token::Close => Action::Shift(11),
            _ => Action::Error,
        },
        9 => match look {
            Token::Add | Token::Close | Token::End => Action::Reduce(1),
            Token::Mul => Action::Shift(7),
            _ => Action::Error,
        },
        10 => match look {
            Token::Add | Token::End | Token::Close | Token::Mul => Action::Reduce(3),
            _ => Action::Error,
        },
        11 => match look {
            Token::Add | Token::End | Token::Close | Token::Mul => Action::Reduce(5),
            _ => Action::Error,
        },
        _ => Action::Error,
    }
}

/// Looks up the goto table; `None` where the table has no entry.
pub fn goto(state: u8, sym: Nonterminal) -> (r: Option<u8>)
    ensures
        r == goto_table(state, sym),
{
    match (state, sym) {
        (0, Nonterminal::Expr) => Some(1),
        (0, Nonterminal::Term) => Some(2),
        (0, Nonterminal::Factor) => Some(3),
        (4, Nonterminal::Expr) => Some(8),
        (4, Nonterminal::Term) => Some(2),
        (4, Nonterminal::Factor) => Some(3),
        (6, Nonterminal::Term) => Some(9),
        (6, Nonterminal::Factor) => Some(3),
        (7, Nonterminal::Factor) => Some(10),
        _ => None,
    }
}

/// Arity of a rule.
pub fn arity(rule: u8) -> (r: usize)
    ensures
        r == rule_arity(rule),
{
    if rule == 1 || rule == 3 || rule == 5 {
        3
    } else {
        1
    }
}

/// The nonterminal a rule produces.
pub fn lhs(rule: u8) -> (r: Nonterminal)
    ensures
        r == rule_lhs(rule),
{
    if rule <= 2 {
        Nonterminal::Expr
    } else if rule <= 4 {
        Nonterminal::Term
    } else {
        Nonterminal::Factor
    }
}

} // verus!
