//! Text renderings of the stacks, the input queue and the actions taken.
use vstd::prelude::*;
use std::collections::VecDeque;
use crate::grammar::{Symbol, Token, token_text, symbol_text};

verus! {

/// The decimal digit `d` (0 to 9) as a character.
pub open spec fn digit_char(d: int) -> char {
    if d == 0 { '0' }
    else if d == 1 { '1' }
    else if d == 2 { '2' }
    else if d == 3 { '3' }
    else if d == 4 { '4' }
    else if d == 5 { '5' }
    else if d == 6 { '6' }
    else if d == 7 { '7' }
    else if d == 8 { '8' }
    else { '9' }
}

/// The decimal numeral of `n`, without leading zeros.
pub open spec fn decimal(n: nat) -> Seq<char>
    decreases n,
{
    if n < 10 {
        seq![digit_char(n as int)]
    } else {
        decimal(n / 10) + seq![digit_char((n % 10) as int)]
    }
}

/// Input tokens written one after another: `id+id$`.
pub open spec fn tokens_text(ts: Seq<Token>) -> Seq<char>
    decreases ts.len(),
{
    if ts.len() == 0 {
        seq![]
    } else {
        tokens_text(ts.drop_last()) + token_text(ts.last())
    }
}

/// States each written as `s` and its number: `s0s1s6`.
pub open spec fn states_text(ss: Seq<u8>) -> Seq<char>
    decreases ss.len(),
{
    if ss.len() == 0 {
        seq![]
    } else {
        states_text(ss.drop_last()) + seq!['s'] + decimal(ss.last() as nat)
    }
}

/// Symbols joined by single spaces: `E + T`.
pub open spec fn symbols_text(ss: Seq<Symbol>) -> Seq<char>
    decreases ss.len(),
{
    if ss.len() == 0 {
        seq![]
    } else if ss.len() == 1 {
        symbol_text(ss[0])
    } else {
        symbols_text(ss.drop_last()) + seq![' '] + symbol_text(ss.last())
    }
}

fn digit(d: u8) -> (r: &'static str)
    requires
        d < 10,
    ensures
        r@ == seq![digit_char(d as int)],
{
    proof {
        reveal_strlit("0");
        reveal_strlit("1");
        reveal_strlit("2");
        reveal_strlit("3");
        reveal_strlit("4");
        reveal_strlit("5");
        reveal_strlit("6");
        reveal_strlit("7");
        reveal_strlit("8");
        reveal_strlit("9");
    }
    match d {
        0 => "0",
        1 => "1",
        2 => "2",
        3 => "3",
        4 => "4",
        5 => "5",
        6 => "6",
        7 => "7",
        8 => "8",
        _ => "9",
    }
}

/// Appends the decimal numeral of `n` to `out`.
pub fn push_decimal(out: &mut String, n: u8)
    ensures
        final(out)@ == old(out)@ + decimal(n as nat),
{
    if n < 10 {
        out.append(digit(n));
    } else if n < 100 {
        out.append(digit(n / 10));
        out.append(digit(n % 10));
        assert(decimal(n as nat) == decimal((n / 10) as nat) + seq![digit_char((n % 10) as int)]);
    } else {
        out.append(digit(n / 100));
        out.append(digit((n / 10) % 10));
        out.append(digit(n % 10));
        assert(decimal((n / 10) as nat) == decimal((n / 100) as nat) + seq![digit_char(((n / 10) % 10) as int)]);
    }
}

/// Renders the remaining input.
pub fn format_tokvec(inp: &VecDeque<Token>) -> (r: String)
    ensures
        r@ == tokens_text(inp@),
{
    let mut builder = String::new();
    let mut i: usize = 0;
    while i < inp.len()
        invariant
            i <= inp@.len(),
            builder@ == tokens_text(inp@.subrange(0, i as int)),
        decreases inp@.len() - i,
    {
        let t = inp[i];
        builder.append(t.tostr());
        assert(inp@.subrange(0, i + 1).drop_last() =~= inp@.subrange(0, i as int));
        i += 1;
    }
    assert(inp@.subrange(0, inp@.len() as int) =~= inp@);
    builder
}

/// Renders the state stack, bottom first.
pub fn format_states(inp: &Vec<u8>) -> (r: String)
    ensures
        r@ == states_text(inp@),
{
    let mut builder = String::new();
    let mut i: usize = 0;
    while i < inp.len()
        invariant
            i <= inp@.len(),
            builder@ == states_text(inp@.subrange(0, i as int)),
        decreases inp@.len() - i,
    {
        builder.append("s");
        proof { reveal_strlit("s"); }
        push_decimal(&mut builder, inp[i]);
        assert(inp@.subrange(0, i + 1).drop_last() =~= inp@.subrange(0, i as int));
        i += 1;
    }
    assert(inp@.subrange(0, inp@.len() as int) =~= inp@);
    builder
}

/// Renders the symbol stack, bottom first, entries separated by a space.
pub fn format_symbols(inp: &Vec<Symbol>) -> (r: String)
    ensures
        r@ == symbols_text(inp@),
{
    let mut builder = String::new();
    let mut i: usize = 0;
    while i < inp.len()
        invariant
            i <= inp@.len(),
            builder@ == symbols_text(inp@.subrange(0, i as int)),
        decreases inp@.len() - i,
    {
        if i > 0 {
            builder.append(" ");
            proof { reveal_strlit(" "); }
        }
        builder.append(inp[i].label());
        assert(inp@.subrange(0, i + 1).drop_last() =~= inp@.subrange(0, i as int));
        i += 1;
    }
    assert(inp@.subrange(0, inp@.len() as int) =~= inp@);
    builder
}

} // verus!
