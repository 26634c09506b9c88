use vstd::prelude::*;
use crate::token::{Token, is_command, token_of};

verus! {

/// The tokens of a source text: one for each command character, in order.
pub open spec fn lex_seq(s: Seq<char>) -> Seq<Token>
    decreases s.len(),
{
    if s.len() == 0 {
        Seq::empty()
    } else {
        let rest = lex_seq(s.drop_last());
        if is_command(s.last()) {
            rest.push(token_of(s.last()))
        } else {
            rest
        }
    }
}

fn token_for(ch: char) -> (r: Option<Token>)
    ensures
        r == (if is_command(ch) { Some(token_of(ch)) } else { None::<Token> }),
{
    match ch {
        '>' => Some(Token::RightAngle(1)),
        '<' => Some(Token::LeftAngle(1)),
        '+' => Some(Token::Plus(1)),
        '-' => Some(Token::Minus(1)),
        '.' => Some(Token::Dot),
        ',' => Some(Token::Comma),
        '[' => Some(Token::OpenBrace),
        ']' => Some(Token::CloseBrace),
        _ => None,
    }
}

/// Whether `t` can be folded into `a`, the token before it: both are the
/// same unit command and their counts together still fit in a `u8`.
pub open spec fn mergeable(a: Token, t: Token) -> bool {
    match (a, t) {
        (Token::RightAngle(x), Token::RightAngle(y)) => x + y <= 255,
        (Token::LeftAngle(x), Token::LeftAngle(y)) => x + y <= 255,
        (Token::Plus(x), Token::Plus(y)) => x + y <= 255,
        (Token::Minus(x), Token::Minus(y)) => x + y <= 255,
        _ => false,
    }
}

/// The token that stands for `a` followed by `t`, when they are mergeable.
pub open spec fn merged(a: Token, t: Token) -> Token {
    match (a, t) {
        (Token::RightAngle(x), Token::RightAngle(y)) => Token::RightAngle((x + y) as u8),
        (Token::LeftAngle(x), Token::LeftAngle(y)) => Token::LeftAngle((x + y) as u8),
        (Token::Plus(x), Token::Plus(y)) => Token::Plus((x + y) as u8),
        (Token::Minus(x), Token::Minus(y)) => Token::Minus((x + y) as u8),
        _ => a,
    }
}

/// Appends `t` to folded output, adding it to the last token where they merge.
pub open spec fn fold_push(out: Seq<Token>, t: Token) -> Seq<Token> {
    if out.len() > 0 && mergeable(out.last(), t) {
        out.drop_last().push(merged(out.last(), t))
    } else {
        out.push(t)
    }
}

/// Run-length folding: each run of one unit command becomes one counted
/// token, a new token being started when the count would pass 255. Dots,
/// commas and braces are copied one for one.
pub open spec fn fold_seq(ts: Seq<Token>) -> Seq<Token>
    decreases ts.len(),
{
    if ts.len() == 0 {
        Seq::empty()
    } else {
        fold_push(fold_seq(ts.drop_last()), ts.last())
    }
}

/// The exec counterpart of `mergeable` and `merged`.
fn try_merge(a: Token, t: Token) -> (r: Option<Token>)
    ensures
        r == (if mergeable(a, t) { Some(merged(a, t)) } else { None::<Token> }),
{
    match (a, t) {
        (Token::RightAngle(x), Token::RightAngle(y)) => {
            if y <= 255 - x { Some(Token::RightAngle(x + y)) } else { None }
        },
        (Token::LeftAngle(x), Token::LeftAngle(y)) => {
            if y <= 255 - x { Some(Token::LeftAngle(x + y)) } else { None }
        },
        (Token::Plus(x), Token::Plus(y)) => {
            if y <= 255 - x { Some(Token::Plus(x + y)) } else { None }
        },
        (Token::Minus(x), Token::Minus(y)) => {
            if y <= 255 - x { Some(Token::Minus(x + y)) } else { None }
        },
        _ => None,
    }
}

/// Folds runs of unit commands into counted tokens; the input is left as it is.
pub fn optimize(src: &Vec<Token>) -> (r: Vec<Token>)
    ensures
        r@ == fold_seq(src@),
{
    let mut output: Vec<Token> = Vec::new();
    let mut idx: usize = 0;
    while idx < src.len()
        invariant
            idx <= src.len(),
            output@ == fold_seq(src@.take(idx as int)),
        decreases src.len() - idx,
    {
        proof {
            assert(src@.take(idx + 1).drop_last() == src@.take(idx as int));
        }
        let t = src[idx];
        let n = output.len();
        if n > 0 {
            match try_merge(output[n - 1], t) {
                Some(m) => {
                    output.set(n - 1, m);
                    proof {
                        assert(output@ == fold_seq(src@.take(idx as int)).drop_last().push(m));
                    }
                },
                None => output.push(t),
            }
        } else {
            output.push(t);
        }
        idx = idx + 1;
    }
    proof {
        assert(src@.take(src@.len() as int) == src@);
    }
    output
}

/// Scans a source text into tokens; with `opt` the unit commands are then
/// folded into counted tokens.
pub fn lexer(file: &str, opt: bool) -> (r: Vec<Token>)
    ensures
        r@ == (if opt { fold_seq(lex_seq(file@)) } else { lex_seq(file@) }),
{
    let mut output: Vec<Token> = Vec::new();
    for ch in it: file.chars()
        invariant
            it.seq() == file@,
            output@ == lex_seq(file@.take(it.index() as int)),
    {
        proof {
            let s = file@.take(it.index() + 1);
            assert(s.drop_last() == file@.take(it.index() as int));
        }
        match token_for(ch) {
            Some(t) => output.push(t),
            None => {},
        }
    }
    proof {
        assert(file@.take(file@.len() as int) == file@);
    }
    if opt {
        output = optimize(&output);
    }
    output
}

} // verus!
