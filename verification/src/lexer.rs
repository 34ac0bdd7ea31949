//! Lexer for the EBNF grammar language: grammar text to a stream of tokens.
use vstd::prelude::*;
use crate::text::{char_is_ascii_digit, char_is_whitespace, is_ascii_digit, is_white_space, push_char, string_of};

verus! {

// ── Tokens ─────────────────────────────────────────────────────────────────

#[derive(Debug)]
pub enum Token {
    Ident(String),
    StringLit(String),
    RegexLit(String),
    Tilde,
    At,
    Dot,
    Pipe,
    LParen,
    RParen,
    LBracket,
    RBracket,
    LBrace,
    RBrace,
    Comma,
    Question,
    Star,
    Plus,
    Underscore,
    Equals,
    Semicolon,
    /// Capture slot reference: $N (where N is a digit)
    CaptureSlot(u8),
}

pub enum SpecToken {
    Ident(Seq<char>),
    StringLit(Seq<char>),
    RegexLit(Seq<char>),
    Tilde,
    At,
    Dot,
    Pipe,
    LParen,
    RParen,
    LBracket,
    RBracket,
    LBrace,
    RBrace,
    Comma,
    Question,
    Star,
    Plus,
    Underscore,
    Equals,
    Semicolon,
    CaptureSlot(u8),
}

impl View for Token {
    type V = SpecToken;

    open spec fn view(&self) -> SpecToken {
        match self {
            Token::Ident(s) => SpecToken::Ident(s@),
            Token::StringLit(s) => SpecToken::StringLit(s@),
            Token::RegexLit(s) => SpecToken::RegexLit(s@),
            Token::Tilde => SpecToken::Tilde,
            Token::At => SpecToken::At,
            Token::Dot => SpecToken::Dot,
            Token::Pipe => SpecToken::Pipe,
            Token::LParen => SpecToken::LParen,
            Token::RParen => SpecToken::RParen,
            Token::LBracket => SpecToken::LBracket,
            Token::RBracket => SpecToken::RBracket,
            Token::LBrace => SpecToken::LBrace,
            Token::RBrace => SpecToken::RBrace,
            Token::Comma => SpecToken::Comma,
            Token::Question => SpecToken::Question,
            Token::Star => SpecToken::Star,
            Token::Plus => SpecToken::Plus,
            Token::Underscore => SpecToken::Underscore,
            Token::Equals => SpecToken::Equals,
            Token::Semicolon => SpecToken::Semicolon,
            Token::CaptureSlot(n) => SpecToken::CaptureSlot(*n),
        }
    }
}

pub open spec fn token_views(v: Seq<Token>) -> Seq<SpecToken> {
    v.map_values(|t: Token| t@)
}

/// Why grammar text cannot be tokenized.
#[derive(Debug, Clone, Copy, PartialEq, Eq)]
pub enum LexError {
    /// A backslash ends the input inside a string literal.
    UnterminatedStringEscape,
    /// A string literal has no closing quote.
    UnterminatedString,
    /// A backslash ends the input inside a regex literal.
    UnterminatedRegexEscape,
    /// A regex literal has no closing slash.
    UnterminatedRegex,
    /// `$` is not followed by a digit (the character found, if any).
    ExpectedDigit(Option<char>),
    /// A character that starts no token.
    UnexpectedChar(char),
}

// ── Specification ──────────────────────────────────────────────────────────

/// Characters that may continue an identifier.
pub open spec fn ident_char(c: char) -> bool {
    !is_white_space(c) && !(c == '.' || c == '@' || c == '|' || c == '(' || c == ')' || c == '['
        || c == ']' || c == '{' || c == '}' || c == ',' || c == '?' || c == '*' || c == '+' || c
        == '=' || c == ';' || c == '"' || c == '/' || c == '~' || c == '$')
}

/// The first position at or after `p` that holds no whitespace.
pub open spec fn skip_spaces(cs: Seq<char>, p: int) -> int
    decreases cs.len() - p,
{
    if 0 <= p < cs.len() && is_white_space(cs[p]) {
        skip_spaces(cs, p + 1)
    } else {
        p
    }
}

/// The position just after the first line break at or after `p` (the end if there is none).
pub open spec fn skip_line(cs: Seq<char>, p: int) -> int
    decreases cs.len() - p,
{
    if p < 0 || p >= cs.len() {
        cs.len() as int
    } else if cs[p] == '\n' {
        p + 1
    } else {
        skip_line(cs, p + 1)
    }
}

pub proof fn lemma_skip_spaces(cs: Seq<char>, p: int)
    ensures
        p <= skip_spaces(cs, p),
        0 <= p <= cs.len() ==> skip_spaces(cs, p) <= cs.len(),
    decreases cs.len() - p,
{
    if 0 <= p < cs.len() && is_white_space(cs[p]) {
        lemma_skip_spaces(cs, p + 1);
    }
}

pub proof fn lemma_skip_line(cs: Seq<char>, p: int)
    requires
        0 <= p <= cs.len(),
    ensures
        skip_line(cs, p) <= cs.len(),
        p < cs.len() ==> p < skip_line(cs, p),
    decreases cs.len() - p,
{
    if 0 <= p < cs.len() && cs[p] != '\n' {
        lemma_skip_line(cs, p + 1);
    }
}

/// Skips whitespace and `//` line comments from `p`.
pub open spec fn skip_ws(cs: Seq<char>, p: int) -> int
    decreases cs.len() - p,
{
    let q = skip_spaces(cs, p);
    if 0 <= p && q + 1 < cs.len() && cs[q] == '/' && cs[q + 1] == '/' {
        proof {
            lemma_skip_spaces(cs, p);
            lemma_skip_line(cs, q);
        }
        skip_ws(cs, skip_line(cs, q))
    } else {
        q
    }
}

pub proof fn lemma_skip_ws(cs: Seq<char>, p: int)
    requires
        0 <= p <= cs.len(),
    ensures
        p <= skip_ws(cs, p) <= cs.len(),
    decreases cs.len() - p,
{
    let q = skip_spaces(cs, p);
    lemma_skip_spaces(cs, p);
    if q + 1 < cs.len() && cs[q] == '/' && cs[q + 1] == '/' {
        lemma_skip_line(cs, q);
        lemma_skip_ws(cs, skip_line(cs, q));
    }
}

/// Reads the rest of a string literal from `p` (just after the opening quote), with `acc`
/// read so far: a backslash takes the next character literally.
pub open spec fn str_lit(cs: Seq<char>, p: int, acc: Seq<char>) -> Result<(Seq<char>, int), LexError>
    decreases cs.len() - p,
{
    if p < 0 || p >= cs.len() {
        Err(LexError::UnterminatedString)
    } else if cs[p] == '"' {
        Ok((acc, p + 1))
    } else if cs[p] == '\\' {
        if p + 1 >= cs.len() {
            Err(LexError::UnterminatedStringEscape)
        } else {
            str_lit(cs, p + 2, acc.push(cs[p + 1]))
        }
    } else {
        str_lit(cs, p + 1, acc.push(cs[p]))
    }
}

/// Reads the rest of a regex literal from `p` (just after the opening slash): a backslash and
/// the character after it are both kept.
pub open spec fn regex_lit(cs: Seq<char>, p: int, acc: Seq<char>) -> Result<(Seq<char>, int), LexError>
    decreases cs.len() - p,
{
    if p < 0 || p >= cs.len() {
        Err(LexError::UnterminatedRegex)
    } else if cs[p] == '/' {
        Ok((acc, p + 1))
    } else if cs[p] == '\\' {
        if p + 1 >= cs.len() {
            Err(LexError::UnterminatedRegexEscape)
        } else {
            regex_lit(cs, p + 2, acc.push('\\').push(cs[p + 1]))
        }
    } else {
        regex_lit(cs, p + 1, acc.push(cs[p]))
    }
}

/// The first position at or after `p` that holds no identifier character.
pub open spec fn ident_end(cs: Seq<char>, p: int) -> int
    decreases cs.len() - p,
{
    if 0 <= p < cs.len() && ident_char(cs[p]) {
        ident_end(cs, p + 1)
    } else {
        p
    }
}

pub proof fn lemma_ident_end(cs: Seq<char>, p: int)
    requires
        0 <= p <= cs.len(),
    ensures
        p <= ident_end(cs, p) <= cs.len(),
        forall|i: int| p <= i < ident_end(cs, p) ==> ident_char(#[trigger] cs[i]),
    decreases cs.len() - p,
{
    if p < cs.len() && ident_char(cs[p]) {
        lemma_ident_end(cs, p + 1);
    }
}

pub proof fn lemma_lit_advances(cs: Seq<char>, p: int, acc: Seq<char>)
    requires
        0 <= p,
    ensures
        str_lit(cs, p, acc) matches Ok((_, r)) ==> p < r <= cs.len(),
        regex_lit(cs, p, acc) matches Ok((_, r)) ==> p < r <= cs.len(),
    decreases cs.len() - p,
{
    if 0 <= p < cs.len() {
        lemma_lit_advances(cs, p + 1, acc.push(cs[p]));
        if p + 1 < cs.len() {
            lemma_lit_advances(cs, p + 2, acc.push(cs[p + 1]));
            lemma_lit_advances(cs, p + 2, acc.push('\\').push(cs[p + 1]));
        }
    }
}

/// The value of a decimal digit character.
pub open spec fn digit_value(c: char) -> u8 {
    (c as int - '0' as int) as u8
}

/// The character at `p`, if any.
pub open spec fn char_at(cs: Seq<char>, p: int) -> Option<char> {
    if 0 <= p < cs.len() {
        Some(cs[p])
    } else {
        None
    }
}

/// The token that starts at `p` (which holds no whitespace) and the position after it.
pub open spec fn next_token(cs: Seq<char>, p: int) -> Result<(SpecToken, int), LexError> {
    let c = cs[p];
    let q = p + 1;
    if c == '@' {
        Ok((SpecToken::At, q))
    } else if c == '.' {
        Ok((SpecToken::Dot, q))
    } else if c == '|' {
        Ok((SpecToken::Pipe, q))
    } else if c == '(' {
        Ok((SpecToken::LParen, q))
    } else if c == ')' {
        Ok((SpecToken::RParen, q))
    } else if c == '[' {
        Ok((SpecToken::LBracket, q))
    } else if c == ']' {
        Ok((SpecToken::RBracket, q))
    } else if c == '{' {
        Ok((SpecToken::LBrace, q))
    } else if c == '}' {
        Ok((SpecToken::RBrace, q))
    } else if c == ',' {
        Ok((SpecToken::Comma, q))
    } else if c == '?' {
        Ok((SpecToken::Question, q))
    } else if c == '*' {
        Ok((SpecToken::Star, q))
    } else if c == '+' {
        Ok((SpecToken::Plus, q))
    } else if c == '=' {
        Ok((SpecToken::Equals, q))
    } else if c == ';' {
        Ok((SpecToken::Semicolon, q))
    } else if c == '~' {
        Ok((SpecToken::Tilde, q))
    } else if c == '/' {
        match regex_lit(cs, q, Seq::empty()) {
            Ok((s, r)) => Ok((SpecToken::RegexLit(s), r)),
            Err(e) => Err(e),
        }
    } else if c == '"' {
        match str_lit(cs, q, Seq::empty()) {
            Ok((s, r)) => Ok((SpecToken::StringLit(s), r)),
            Err(e) => Err(e),
        }
    } else if c == '_' {
        if char_at(cs, q) == Some('$') {
            if q + 1 < cs.len() && is_ascii_digit(cs[q + 1]) {
                Ok((SpecToken::Ident(seq!['_', '$', cs[q + 1]]), q + 2))
            } else {
                Err(LexError::ExpectedDigit(char_at(cs, q + 1)))
            }
        } else if q < cs.len() && ident_char(cs[q]) && cs[q] != '_' {
            Ok((SpecToken::Ident(seq!['_'] + cs.subrange(q, ident_end(cs, q))), ident_end(cs, q)))
        } else {
            Ok((SpecToken::Underscore, q))
        }
    } else if c == '$' {
        if q < cs.len() && is_ascii_digit(cs[q]) {
            Ok((SpecToken::CaptureSlot(digit_value(cs[q])), q + 1))
        } else {
            Err(LexError::ExpectedDigit(char_at(cs, q)))
        }
    } else if ident_char(c) {
        Ok((SpecToken::Ident(seq![c] + cs.subrange(q, ident_end(cs, q))), ident_end(cs, q)))
    } else {
        Err(LexError::UnexpectedChar(c))
    }
}

pub proof fn lemma_next_token_advances(cs: Seq<char>, p: int)
    requires
        0 <= p < cs.len(),
    ensures
        next_token(cs, p) matches Ok((_, r)) ==> p < r <= cs.len(),
{
    lemma_lit_advances(cs, p + 1, Seq::empty());
    lemma_ident_end(cs, p + 1);
}

/// Tokens from position `p` on, after `acc` already read.
pub open spec fn lex(cs: Seq<char>, p: int, acc: Seq<SpecToken>) -> Result<Seq<SpecToken>, LexError>
    decreases cs.len() - p,
{
    if p < 0 || p > cs.len() {
        Ok(acc)
    } else {
        let q = skip_ws(cs, p);
        if q >= cs.len() {
            Ok(acc)
        } else {
            proof {
                lemma_skip_ws(cs, p);
                lemma_next_token_advances(cs, q);
            }
            match next_token(cs, q) {
                Ok((t, r)) => lex(cs, r, acc.push(t)),
                Err(e) => Err(e),
            }
        }
    }
}

/// The tokens of grammar text.
pub open spec fn spec_tokenize(text: Seq<char>) -> Result<Seq<SpecToken>, LexError> {
    lex(text, 0, Seq::empty())
}

/// The text of an identifier token; empty for any other token.
pub open spec fn ident_text(t: SpecToken) -> Seq<char> {
    match t {
        SpecToken::Ident(s) => s,
        _ => Seq::empty(),
    }
}

/// Whitespace and the characters `. @ | ( ) [ ] { } , ? * + = ; " / ~ $`, at which identifiers
/// end.
pub open spec fn delimiter(c: char) -> bool {
    is_white_space(c) || c == '.' || c == '@' || c == '|' || c == '(' || c == ')' || c == '[' || c == ']'
        || c == '{' || c == '}' || c == ',' || c == '?' || c == '*' || c == '+' || c == '=' || c == ';'
        || c == '"' || c == '/' || c == '~' || c == '$'
}

/// Whether `s` holds no delimiter, but for the `$` of a capture reference `_$N`.
pub open spec fn free_of_delimiters(s: Seq<char>) -> bool {
    forall|j: int| 0 <= j < s.len() && delimiter(#[trigger] s[j]) ==> (j == 1 && s[0] == '_' && s[1] == '$')
}

proof fn lemma_next_token_ident(cs: Seq<char>, p: int)
    requires
        0 <= p < cs.len(),
    ensures
        next_token(cs, p) matches Ok((t, r)) ==> free_of_delimiters(ident_text(t)),
{
    let q = p + 1;
    lemma_ident_end(cs, q);
    if let Ok((t, r)) = next_token(cs, p) {
        if let SpecToken::Ident(s) = t {
            let c = cs[p];
            if c == '_' && char_at(cs, q) == Some('$') {
                assert(s == seq!['_', '$', cs[q + 1]]);
                assert(is_ascii_digit(cs[q + 1]));
            } else if c == '_' {
                assert(s == seq!['_'] + cs.subrange(q, ident_end(cs, q)));
                assert forall|j: int| 0 <= j < s.len() implies j == 0 || ident_char(#[trigger] s[j]) by {
                    if j > 0 {
                        assert(s[j] == cs[q + j - 1]);
                    }
                }
            } else {
                assert(ident_char(c));
                assert(s == seq![c] + cs.subrange(q, ident_end(cs, q)));
                assert forall|j: int| 0 <= j < s.len() implies ident_char(#[trigger] s[j]) by {
                    if j > 0 {
                        assert(s[j] == cs[q + j - 1]);
                    }
                }
            }
        }
    }
}

proof fn lemma_lex_idents(cs: Seq<char>, p: int, acc: Seq<SpecToken>)
    requires
        forall|i: int| 0 <= i < acc.len() ==> free_of_delimiters(ident_text(#[trigger] acc[i])),
    ensures
        lex(cs, p, acc) matches Ok(ts) ==> forall|i: int| 0 <= i < ts.len() ==> free_of_delimiters(
            ident_text(#[trigger] ts[i]),
        ),
    decreases cs.len() - p,
{
    if 0 <= p <= cs.len() {
        let q = skip_ws(cs, p);
        lemma_skip_ws(cs, p);
        if q < cs.len() {
            lemma_next_token_advances(cs, q);
            lemma_next_token_ident(cs, q);
            if let Ok((t, r)) = next_token(cs, q) {
                let acc2 = acc.push(t);
                assert forall|i: int| 0 <= i < acc2.len() implies free_of_delimiters(ident_text(#[trigger] acc2[i])) by {
                    if i < acc.len() {
                        assert(acc2[i] == acc[i]);
                    }
                }
                lemma_lex_idents(cs, r, acc2);
            }
        }
    }
}

/// Identifiers end at every delimiter: no identifier token of tokenized text holds whitespace or
/// any of `. @ | ( ) [ ] { } , ? * + = ; " / ~ $`, but for the `$` of a capture reference
/// `_$N`. (So `動詞;` reads as the identifier `動詞` and then `;`.)
pub proof fn law_identifiers_end_at_delimiters(text: Seq<char>)
    ensures
        spec_tokenize(text) matches Ok(ts) ==> forall|i: int| 0 <= i < ts.len() ==> free_of_delimiters(
            ident_text(#[trigger] ts[i]),
        ),
{
    lemma_lex_idents(text, 0, Seq::empty());
}

proof fn lemma_ident_end_stops(cs: Seq<char>, p: int)
    requires
        0 <= p <= cs.len(),
    ensures
        ident_end(cs, p) == cs.len() || !ident_char(cs[ident_end(cs, p)]),
    decreases cs.len() - p,
{
    if p < cs.len() && ident_char(cs[p]) {
        lemma_ident_end_stops(cs, p + 1);
    }
}

/// An identifier runs from a character that is neither a delimiter nor `_` up to the next
/// delimiter (or the end of the text), and no further.
pub proof fn law_identifier_extent(cs: Seq<char>, p: int)
    requires
        0 <= p < cs.len(),
        !delimiter(cs[p]),
        cs[p] != '_',
    ensures
        next_token(cs, p) matches Ok((SpecToken::Ident(s), r)) && p < r <= cs.len() && s == cs.subrange(p, r) && (r
            == cs.len() || delimiter(cs[r])) && forall|j: int| p <= j < r ==> !delimiter(#[trigger] cs[j]),
{
    let q = p + 1;
    lemma_ident_end(cs, q);
    lemma_ident_end_stops(cs, q);
    let e = ident_end(cs, q);
    assert(ident_char(cs[p]));
    assert(seq![cs[p]] + cs.subrange(q, e) =~= cs.subrange(p, e));
    assert forall|j: int| p <= j < e implies !delimiter(#[trigger] cs[j]) by {
        if j > p {
            assert(ident_char(cs[j]));
        }
    }
}

/// Heuristic: rule names are ASCII identifiers (letters, digits, underscores).
pub open spec fn rule_name_like(s: Seq<char>) -> bool {
    forall|i: int| 0 <= i < s.len() ==> (crate::text::is_ascii_alphanumeric(#[trigger] s[i]) || s[i] == '_')
}

// ── Lexer ──────────────────────────────────────────────────────────────────

pub struct Lexer {
    pub chars: Vec<char>,
    pub pos: usize,
}

impl Lexer {
    /// The position lies within the text (at most one past the last character).
    pub open spec fn wf(&self) -> bool {
        self.pos <= self.chars.len()
    }

    pub fn new(input: &str) -> (res: Lexer)
        ensures
            res.chars@ == input@,
            res.pos == 0,
            res.wf(),
    {
        Lexer { chars: crate::text::chars_of(input), pos: 0 }
    }

    pub fn peek_char(&self) -> (res: Option<char>)
        ensures
            res == char_at(self.chars@, self.pos as int),
    {
        if self.pos < self.chars.len() {
            Some(self.chars[self.pos])
        } else {
            None
        }
    }

    pub fn next_char(&mut self) -> (res: Option<char>)
        requires
            old(self).wf(),
        ensures
            res == char_at(old(self).chars@, old(self).pos as int),
            final(self).chars@ == old(self).chars@,
            final(self).pos == (if res is Some { old(self).pos + 1 } else { old(self).pos as int }),
    {
        let ch = self.peek_char();
        if ch.is_some() {
            self.pos += 1;
        }
        ch
    }

    pub fn skip_whitespace_and_comments(&mut self)
        requires
            old(self).wf(),
        ensures
            final(self).chars@ == old(self).chars@,
            final(self).pos == skip_ws(old(self).chars@, old(self).pos as int),
    {
        let ghost cs = self.chars@;
        let ghost target = skip_ws(cs, self.pos as int);
        loop
            invariant
                self.chars@ == cs,
                self.pos <= cs.len(),
                skip_ws(cs, self.pos as int) == target,
            ensures
                self.chars@ == cs,
                self.pos == target,
            decreases cs.len() - self.pos,
        {
            let ghost p0 = self.pos as int;
            while self.pos < self.chars.len() && char_is_whitespace(self.chars[self.pos])
                invariant
                    self.chars@ == cs,
                    p0 <= self.pos <= cs.len(),
                    skip_spaces(cs, self.pos as int) == skip_spaces(cs, p0),
                decreases cs.len() - self.pos,
            {
                self.pos += 1;
            }
            let ghost q = self.pos as int;
            assert(q == skip_spaces(cs, p0));
            if self.pos < self.chars.len() && self.pos + 1 < self.chars.len() && self.chars[self.pos] == '/'
                && self.chars[self.pos + 1] == '/' {
                proof {
                    lemma_skip_line(cs, q);
                    assert(skip_ws(cs, p0) == skip_ws(cs, skip_line(cs, q)));
                }
                loop
                    invariant_except_break
                        skip_line(cs, self.pos as int) == skip_line(cs, q),
                    invariant
                        self.chars@ == cs,
                        q <= self.pos <= cs.len(),
                    ensures
                        self.chars@ == cs,
                        self.pos == skip_line(cs, q),
                    decreases cs.len() - self.pos,
                {
                    if self.pos >= self.chars.len() {
                        break;
                    }
                    let ch = self.chars[self.pos];
                    self.pos += 1;
                    if ch == '\n' {
                        assert(skip_line(cs, self.pos - 1) == self.pos);
                        break;
                    }
                }
            } else {
                break;
            }
        }
    }

    pub fn read_string_lit(&mut self) -> (res: Result<String, LexError>)
        requires
            old(self).wf(),
        ensures
            final(self).chars@ == old(self).chars@,
            final(self).pos <= final(self).chars.len(),
            match str_lit(old(self).chars@, old(self).pos as int, Seq::empty()) {
                Ok((s, r)) => res matches Ok(v) && v@ == s && final(self).pos == r,
                Err(e) => res == Err::<String, LexError>(e),
            },
    {
        let ghost cs = self.chars@;
        let mut s = String::new();
        #[verifier::loop_isolation(false)]
        loop
            invariant
                self.chars@ == cs,
                self.pos <= cs.len(),
                str_lit(cs, self.pos as int, s@) == str_lit(cs, old(self).pos as int, Seq::empty()),
            decreases cs.len() - self.pos,
        {
            match self.next_char() {
                Some(c) => {
                    if c == '"' {
                        return Ok(s);
                    } else if c == '\\' {
                        match self.next_char() {
                            Some(c2) => push_char(&mut s, c2),
                            None => return Err(LexError::UnterminatedStringEscape),
                        }
                    } else {
                        push_char(&mut s, c);
                    }
                },
                None => return Err(LexError::UnterminatedString),
            }
        }
    }

    pub fn is_ident_char(ch: char) -> (res: bool)
        ensures
            res == ident_char(ch),
    {
        !char_is_whitespace(ch) && !(ch == '.' || ch == '@' || ch == '|' || ch == '(' || ch == ')'
            || ch == '[' || ch == ']' || ch == '{' || ch == '}' || ch == ',' || ch == '?' || ch
            == '*' || ch == '+' || ch == '=' || ch == ';' || ch == '"' || ch == '/' || ch == '~'
            || ch == '$')
    }

    pub fn read_regex_lit(&mut self) -> (res: Result<String, LexError>)
        requires
            old(self).wf(),
        ensures
            final(self).chars@ == old(self).chars@,
            final(self).pos <= final(self).chars.len(),
            match regex_lit(old(self).chars@, old(self).pos as int, Seq::empty()) {
                Ok((s, r)) => res matches Ok(v) && v@ == s && final(self).pos == r,
                Err(e) => res == Err::<String, LexError>(e),
            },
    {
        let ghost cs = self.chars@;
        let mut s = String::new();
        #[verifier::loop_isolation(false)]
        loop
            invariant
                self.chars@ == cs,
                self.pos <= cs.len(),
                regex_lit(cs, self.pos as int, s@) == regex_lit(cs, old(self).pos as int, Seq::empty()),
            decreases cs.len() - self.pos,
        {
            match self.next_char() {
                Some(c) => {
                    if c == '/' {
                        return Ok(s);
                    } else if c == '\\' {
                        match self.next_char() {
                            Some(c2) => {
                                push_char(&mut s, '\\');
                                push_char(&mut s, c2);
                            },
                            None => return Err(LexError::UnterminatedRegexEscape),
                        }
                    } else {
                        push_char(&mut s, c);
                    }
                },
                None => return Err(LexError::UnterminatedRegex),
            }
        }
    }

    pub fn read_capture_digit(&mut self) -> (res: Result<u8, LexError>)
        requires
            old(self).wf(),
        ensures
            final(self).chars@ == old(self).chars@,
            ({
                let cs = old(self).chars@;
                let p = old(self).pos as int;
                if p < cs.len() && is_ascii_digit(cs[p]) {
                    res == Ok::<u8, LexError>(digit_value(cs[p])) && final(self).pos == p + 1
                } else {
                    res == Err::<u8, LexError>(LexError::ExpectedDigit(char_at(cs, p)))
                        && final(self).pos == p
                }
            }),
    {
        match self.peek_char() {
            Some(c) => {
                if char_is_ascii_digit(c) {
                    self.next_char();
                    Ok(((c as u32) - ('0' as u32)) as u8)
                } else {
                    Err(LexError::ExpectedDigit(Some(c)))
                }
            },
            None => Err(LexError::ExpectedDigit(None)),
        }
    }

    pub fn read_ident(&mut self, first: char) -> (res: String)
        requires
            old(self).wf(),
        ensures
            final(self).chars@ == old(self).chars@,
            final(self).pos == ident_end(old(self).chars@, old(self).pos as int),
            res@ == seq![first] + old(self).chars@.subrange(
                old(self).pos as int,
                ident_end(old(self).chars@, old(self).pos as int),
            ),
    {
        let ghost cs = self.chars@;
        let ghost p0 = self.pos as int;
        let mut s = String::new();
        push_char(&mut s, first);
        while self.pos < self.chars.len() && Self::is_ident_char(self.chars[self.pos])
            invariant
                self.chars@ == cs,
                0 <= p0 <= self.pos <= cs.len(),
                ident_end(cs, self.pos as int) == ident_end(cs, p0),
                s@ == seq![first] + cs.subrange(p0, self.pos as int),
            decreases cs.len() - self.pos,
        {
            let c = self.chars[self.pos];
            let ghost pb = self.pos as int;
            let ghost sb = s@;
            push_char(&mut s, c);
            self.pos += 1;
            assert(cs.subrange(p0, pb + 1) =~= cs.subrange(p0, pb).push(c));
            assert(s@ =~= sb.push(c));
            assert(s@ =~= seq![first] + cs.subrange(p0, self.pos as int));
        }
        s
    }

    /// Reads the token whose first character `ch` was just consumed (at `pos - 1`).
    fn lex_token(&mut self, ch: char) -> (res: Result<Token, LexError>)
        requires
            1 <= old(self).pos <= old(self).chars.len(),
            old(self).chars@[old(self).pos - 1] == ch,
        ensures
            final(self).chars@ == old(self).chars@,
            final(self).pos <= final(self).chars.len(),
            match next_token(old(self).chars@, old(self).pos - 1) {
                Ok((t, r)) => res matches Ok(v) && v@ == t && final(self).pos == r,
                Err(e) => res == Err::<Token, LexError>(e),
            },
    {
        let ghost cs = self.chars@;
        let ghost q = self.pos as int;
        proof {
            lemma_ident_end(cs, q);
        }
        if ch == '@' {
            Ok(Token::At)
        } else if ch == '.' {
            Ok(Token::Dot)
        } else if ch == '|' {
            Ok(Token::Pipe)
        } else if ch == '(' {
            Ok(Token::LParen)
        } else if ch == ')' {
            Ok(Token::RParen)
        } else if ch == '[' {
            Ok(Token::LBracket)
        } else if ch == ']' {
            Ok(Token::RBracket)
        } else if ch == '{' {
            Ok(Token::LBrace)
        } else if ch == '}' {
            Ok(Token::RBrace)
        } else if ch == ',' {
            Ok(Token::Comma)
        } else if ch == '?' {
            Ok(Token::Question)
        } else if ch == '*' {
            Ok(Token::Star)
        } else if ch == '+' {
            Ok(Token::Plus)
        } else if ch == '=' {
            Ok(Token::Equals)
        } else if ch == ';' {
            Ok(Token::Semicolon)
        } else if ch == '~' {
            Ok(Token::Tilde)
        } else if ch == '/' {
            match self.read_regex_lit() {
                Ok(s) => Ok(Token::RegexLit(s)),
                Err(e) => Err(e),
            }
        } else if ch == '"' {
            match self.read_string_lit() {
                Ok(s) => Ok(Token::StringLit(s)),
                Err(e) => Err(e),
            }
        } else if ch == '_' {
            if self.peek_char() == Some('$') {
                self.next_char();
                let d = self.peek_char();
                match self.read_capture_digit() {
                    Ok(_) => {
                        let mut s = String::new();
                        push_char(&mut s, '_');
                        push_char(&mut s, '$');
                        match d {
                            Some(dc) => push_char(&mut s, dc),
                            None => {},
                        }
                        assert(s@ =~= seq!['_', '$', cs[q + 1]]);
                        Ok(Token::Ident(s))
                    },
                    Err(e) => Err(e),
                }
            } else {
                match self.peek_char() {
                    Some(next) => {
                        if Self::is_ident_char(next) && next != '_' {
                            Ok(Token::Ident(self.read_ident('_')))
                        } else {
                            Ok(Token::Underscore)
                        }
                    },
                    None => Ok(Token::Underscore),
                }
            }
        } else if ch == '$' {
            match self.read_capture_digit() {
                Ok(n) => Ok(Token::CaptureSlot(n)),
                Err(e) => Err(e),
            }
        } else if Self::is_ident_char(ch) {
            Ok(Token::Ident(self.read_ident(ch)))
        } else {
            Err(LexError::UnexpectedChar(ch))
        }
    }

    pub fn tokenize(&mut self) -> (res: Result<Vec<Token>, LexError>)
        requires
            old(self).wf(),
        ensures
            match lex(old(self).chars@, old(self).pos as int, Seq::empty()) {
                Ok(ts) => res matches Ok(v) && token_views(v@) == ts,
                Err(e) => res == Err::<Vec<Token>, LexError>(e),
            },
    {
        let ghost cs = self.chars@;
        let ghost target = lex(cs, self.pos as int, Seq::empty());
        let mut tokens: Vec<Token> = Vec::new();
        assert(token_views(tokens@) =~= Seq::<SpecToken>::empty());
        loop
            invariant
                self.chars@ == cs,
                self.pos <= cs.len(),
                lex(cs, self.pos as int, token_views(tokens@)) == target,
                target == lex(old(self).chars@, old(self).pos as int, Seq::empty()),
            decreases cs.len() - self.pos,
        {
            let ghost p0 = self.pos as int;
            let ghost acc = token_views(tokens@);
            self.skip_whitespace_and_comments();
            proof {
                lemma_skip_ws(cs, p0);
            }
            let ch = match self.peek_char() {
                Some(c) => c,
                None => {
                    assert(skip_ws(cs, p0) >= cs.len());
                    assert(lex(cs, p0, acc) == Ok::<Seq<SpecToken>, LexError>(acc));
                    return Ok(tokens);
                },
            };
            self.next_char();
            proof {
                lemma_next_token_advances(cs, p0);
                lemma_next_token_advances(cs, self.pos - 1);
            }
            match self.lex_token(ch) {
                Ok(tok) => {
                    let ghost tv = tok@;
                    tokens.push(tok);
                    assert(token_views(tokens@) =~= acc.push(tv));
                },
                Err(e) => {
                    assert(next_token(cs, skip_ws(cs, p0)) == Err::<(SpecToken, int), LexError>(e));
                    assert(lex(cs, p0, acc) == Err::<Seq<SpecToken>, LexError>(e));
                    return Err(e);
                },
            }
        }
    }
}

/// Heuristic: rule names are ASCII identifiers (letters, digits, underscores).
/// POS tags contain Japanese characters.
pub fn is_rule_name(s: &[char]) -> (res: bool)
    ensures
        res == rule_name_like(s@),
{
    let mut i: usize = 0;
    while i < s.len()
        invariant
            i <= s.len(),
            forall|j: int| 0 <= j < i ==> (crate::text::is_ascii_alphanumeric(#[trigger] s@[j]) || s@[j] == '_'),
        decreases s.len() - i,
    {
        if !(crate::text::char_is_ascii_alphanumeric(s[i]) || s[i] == '_') {
            return false;
        }
        i += 1;
    }
    true
}

} // verus!
