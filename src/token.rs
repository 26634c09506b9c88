use vstd::prelude::*;

verus! {

/// One command of the language. The four unit commands carry a repeat
/// count; the lexer always gives them a count of one.
#[derive(Debug, PartialEq, Eq, Clone, Copy, Structural)]
pub enum Token {
    /// `>`: move the pointer right.
    RightAngle(u8),
    /// `<`: move the pointer left.
    LeftAngle(u8),
    /// `+`: add to the current cell.
    Plus(u8),
    /// `-`: subtract from the current cell.
    Minus(u8),
    /// `.`: write the current cell.
    Dot,
    /// `,`: read a byte into the current cell.
    Comma,
    /// `[`: loop start.
    OpenBrace,
    /// `]`: loop end.
    CloseBrace,
}

/// The characters that are commands; every other character is a comment.
pub open spec fn is_command(c: char) -> bool {
    c == '>' || c == '<' || c == '+' || c == '-' || c == '.' || c == ',' || c == '[' || c == ']'
}

/// The token that a command character stands for, with a count of one.
pub open spec fn token_of(c: char) -> Token {
    if c == '>' {
        Token::RightAngle(1)
    } else if c == '<' {
        Token::LeftAngle(1)
    } else if c == '+' {
        Token::Plus(1)
    } else if c == '-' {
        Token::Minus(1)
    } else if c == '.' {
        Token::Dot
    } else if c == ',' {
        Token::Comma
    } else if c == '[' {
        Token::OpenBrace
    } else {
        Token::CloseBrace
    }
}

/// The command character of a token; the count is not shown.
pub open spec fn char_of(t: Token) -> char {
    match t {
        Token::RightAngle(_) => '>',
        Token::LeftAngle(_) => '<',
        Token::Plus(_) => '+',
        Token::Minus(_) => '-',
        Token::Dot => '.',
        Token::Comma => ',',
        Token::OpenBrace => '[',
        Token::CloseBrace => ']',
    }
}

} // verus!
