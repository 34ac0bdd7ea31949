//! Error messages: the texts with which grammar text is rejected.
use vstd::prelude::*;
use crate::lexer::{LexError, SpecToken, Token};

verus! {

/// The text that `format!("{:?}", s)` gives for a string slice (quoted and escaped).
pub uninterp spec fn str_debug_text(s: Seq<char>) -> Seq<char>;

/// The text that `format!("{:?}", c)` gives for a character (quoted and escaped).
pub uninterp spec fn char_debug_text(c: char) -> Seq<char>;

/// Formats a string slice with `{:?}` (std's `Debug` for `str`).
#[verifier::external_body]
pub fn debug_str(s: &str) -> (res: String)
    ensures
        res@ == str_debug_text(s@),
{
    format!("{:?}", s)
}

/// Formats a character with `{:?}` (std's `Debug` for `char`).
#[verifier::external_body]
pub fn debug_char(c: char) -> (res: String)
    ensures
        res@ == char_debug_text(c),
{
    format!("{:?}", c)
}

pub open spec fn digit_char(d: int) -> char {
    if d == 0 {
        '0'
    } else if d == 1 {
        '1'
    } else if d == 2 {
        '2'
    } else if d == 3 {
        '3'
    } else if d == 4 {
        '4'
    } else if d == 5 {
        '5'
    } else if d == 6 {
        '6'
    } else if d == 7 {
        '7'
    } else if d == 8 {
        '8'
    } else {
        '9'
    }
}

/// The decimal text of a byte value.
pub open spec fn u8_text(n: u8) -> Seq<char> {
    if n < 10 {
        seq![digit_char(n as int)]
    } else if n < 100 {
        seq![digit_char((n / 10) as int), digit_char((n % 10) as int)]
    } else {
        seq![digit_char((n / 100) as int), digit_char(((n / 10) % 10) as int), digit_char((n % 10) as int)]
    }
}

pub(crate) fn digit_of(d: u8) -> (c: char)
    requires
        d < 10,
    ensures
        c == digit_char(d as int),
{
    if d == 0 {
        '0'
    } else if d == 1 {
        '1'
    } else if d == 2 {
        '2'
    } else if d == 3 {
        '3'
    } else if d == 4 {
        '4'
    } else if d == 5 {
        '5'
    } else if d == 6 {
        '6'
    } else if d == 7 {
        '7'
    } else if d == 8 {
        '8'
    } else {
        '9'
    }
}

fn push_u8(s: &mut String, n: u8)
    ensures
        final(s)@ == old(s)@ + u8_text(n),
{
    if n < 10 {
        crate::text::push_char(s, digit_of(n));
    } else if n < 100 {
        crate::text::push_char(s, digit_of(n / 10));
        crate::text::push_char(s, digit_of(n % 10));
    } else {
        crate::text::push_char(s, digit_of(n / 100));
        crate::text::push_char(s, digit_of((n / 10) % 10));
        crate::text::push_char(s, digit_of(n % 10));
    }
    assert(final(s)@ =~= old(s)@ + u8_text(n));
}

/// The decimal text of a natural number.
pub open spec fn dec_text(n: nat) -> Seq<char>
    decreases n,
{
    if n < 10 {
        seq![digit_char(n as int)]
    } else {
        dec_text(n / 10).push(digit_char((n % 10) as int))
    }
}

/// Appends the decimal text of `n`.
pub fn push_dec(s: &mut String, n: u32)
    ensures
        final(s)@ == old(s)@ + dec_text(n as nat),
    decreases n,
{
    if n >= 10 {
        push_dec(s, n / 10);
    }
    let d: u8 = (n % 10) as u8;
    crate::text::push_char(s, digit_of(d));
    assert(final(s)@ =~= old(s)@ + dec_text(n as nat));
}

/// The text that `{:?}` gives for a token.
pub open spec fn token_debug(t: SpecToken) -> Seq<char> {
    match t {
        SpecToken::Ident(s) => "Ident("@ + str_debug_text(s) + ")"@,
        SpecToken::StringLit(s) => "StringLit("@ + str_debug_text(s) + ")"@,
        SpecToken::RegexLit(s) => "RegexLit("@ + str_debug_text(s) + ")"@,
        SpecToken::Tilde => "Tilde"@,
        SpecToken::At => "At"@,
        SpecToken::Dot => "Dot"@,
        SpecToken::Pipe => "Pipe"@,
        SpecToken::LParen => "LParen"@,
        SpecToken::RParen => "RParen"@,
        SpecToken::LBracket => "LBracket"@,
        SpecToken::RBracket => "RBracket"@,
        SpecToken::LBrace => "LBrace"@,
        SpecToken::RBrace => "RBrace"@,
        SpecToken::Comma => "Comma"@,
        SpecToken::Question => "Question"@,
        SpecToken::Star => "Star"@,
        SpecToken::Plus => "Plus"@,
        SpecToken::Underscore => "Underscore"@,
        SpecToken::Equals => "Equals"@,
        SpecToken::Semicolon => "Semicolon"@,
        SpecToken::CaptureSlot(n) => "CaptureSlot("@ + u8_text(n) + ")"@,
    }
}

/// The text that `{:?}` gives for an optional token.
pub open spec fn opt_token_debug(t: Option<SpecToken>) -> Seq<char> {
    match t {
        Some(t) => "Some("@ + token_debug(t) + ")"@,
        None => "None"@,
    }
}

/// Appends the `{:?}` text of a token.
pub fn push_token_debug(s: &mut String, t: &Token)
    ensures
        final(s)@ == old(s)@ + token_debug(t@),
{
    match t {
        Token::Ident(x) => {
            s.append("Ident(");
            let d = debug_str(x.as_str());
            s.append(d.as_str());
            s.append(")");
        },
        Token::StringLit(x) => {
            s.append("StringLit(");
            let d = debug_str(x.as_str());
            s.append(d.as_str());
            s.append(")");
        },
        Token::RegexLit(x) => {
            s.append("RegexLit(");
            let d = debug_str(x.as_str());
            s.append(d.as_str());
            s.append(")");
        },
        Token::Tilde => s.append("Tilde"),
        Token::At => s.append("At"),
        Token::Dot => s.append("Dot"),
        Token::Pipe => s.append("Pipe"),
        Token::LParen => s.append("LParen"),
        Token::RParen => s.append("RParen"),
        Token::LBracket => s.append("LBracket"),
        Token::RBracket => s.append("RBracket"),
        Token::LBrace => s.append("LBrace"),
        Token::RBrace => s.append("RBrace"),
        Token::Comma => s.append("Comma"),
        Token::Question => s.append("Question"),
        Token::Star => s.append("Star"),
        Token::Plus => s.append("Plus"),
        Token::Underscore => s.append("Underscore"),
        Token::Equals => s.append("Equals"),
        Token::Semicolon => s.append("Semicolon"),
        Token::CaptureSlot(n) => {
            s.append("CaptureSlot(");
            push_u8(s, *n);
            s.append(")");
        },
    }
    assert(final(s)@ =~= old(s)@ + token_debug(t@));
}

/// Appends the `{:?}` text of an optional token.
pub fn push_opt_token_debug(s: &mut String, t: Option<&Token>)
    ensures
        final(s)@ == old(s)@ + opt_token_debug(
            match t {
                Some(x) => Some(x@),
                None => None,
            },
        ),
{
    match t {
        Some(x) => {
            s.append("Some(");
            push_token_debug(s, x);
            s.append(")");
        },
        None => s.append("None"),
    }
    assert(final(s)@ =~= old(s)@ + opt_token_debug(
        match t {
            Some(x) => Some(x@),
            None => None,
        },
    ));
}

/// The message for a tokenizing error.
pub open spec fn lex_message(e: LexError) -> Seq<char> {
    match e {
        LexError::UnterminatedStringEscape => "Unterminated escape in string"@,
        LexError::UnterminatedString => "Unterminated string literal"@,
        LexError::UnterminatedRegexEscape => "Unterminated escape in regex"@,
        LexError::UnterminatedRegex => "Unterminated regex literal"@,
        LexError::ExpectedDigit(o) => "Expected digit after '$', got "@ + match o {
            Some(c) => "Some("@ + char_debug_text(c) + ")"@,
            None => "None"@,
        },
        LexError::UnexpectedChar(c) => "Unexpected character: '"@ + seq![c] + "'"@,
    }
}

impl LexError {
    /// The message for this error.
    pub fn message(&self) -> (res: String)
        ensures
            res@ == lex_message(*self),
    {
        let mut s = String::new();
        match self {
            LexError::UnterminatedStringEscape => s.append("Unterminated escape in string"),
            LexError::UnterminatedString => s.append("Unterminated string literal"),
            LexError::UnterminatedRegexEscape => s.append("Unterminated escape in regex"),
            LexError::UnterminatedRegex => s.append("Unterminated regex literal"),
            LexError::ExpectedDigit(o) => {
                s.append("Expected digit after '$', got ");
                match o {
                    Some(c) => {
                        s.append("Some(");
                        let d = debug_char(*c);
                        s.append(d.as_str());
                        s.append(")");
                    },
                    None => s.append("None"),
                }
            },
            LexError::UnexpectedChar(c) => {
                s.append("Unexpected character: '");
                crate::text::push_char(&mut s, *c);
                s.append("'");
            },
        }
        assert(s@ =~= lex_message(*self));
        s
    }
}

} // verus!
