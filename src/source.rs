use vstd::prelude::*;
use vstd::string::StringExecFns;
use crate::token::{Token, char_of};

verus! {

/// The source text of a token sequence: one command character per token.
pub open spec fn source_of(ts: Seq<Token>) -> Seq<char> {
    ts.map_values(|t: Token| char_of(t))
}

fn command_str(t: Token) -> (r: &'static str)
    ensures
        r@ == seq![char_of(t)],
{
    match t {
        Token::Plus(_) => {
            proof {
                reveal_strlit("+");
            }
            "+"
        },
        Token::Minus(_) => {
            proof {
                reveal_strlit("-");
            }
            "-"
        },
        Token::LeftAngle(_) => {
            proof {
                reveal_strlit("<");
            }
            "<"
        },
        Token::RightAngle(_) => {
            proof {
                reveal_strlit(">");
            }
            ">"
        },
        Token::Dot => {
            proof {
                reveal_strlit(".");
            }
            "."
        },
        Token::Comma => {
            proof {
                reveal_strlit(",");
            }
            ","
        },
        Token::OpenBrace => {
            proof {
                reveal_strlit("[");
            }
            "["
        },
        Token::CloseBrace => {
            proof {
                reveal_strlit("]");
            }
            "]"
        },
    }
}

/// Writes tokens back as source text. Counts are not written out: a folded
/// `Plus(5)` comes back as a single `+`.
pub fn tokens_to_source(tokens: Vec<Token>) -> (r: String)
    ensures
        r@ == source_of(tokens@),
{
    let mut output = String::new();
    let mut i: usize = 0;
    while i < tokens.len()
        invariant
            i <= tokens@.len(),
            output@ == source_of(tokens@.take(i as int)),
        decreases tokens@.len() - i,
    {
        output.append(command_str(tokens[i]));
        proof {
            assert(source_of(tokens@.take(i + 1)) == source_of(tokens@.take(i as int)) + seq![
                char_of(tokens@[i as int]),
            ]);
        }
        i = i + 1;
    }
    proof {
        assert(tokens@.take(tokens@.len() as int) == tokens@);
    }
    output
}

} // verus!
