//! Recursive-descent parser for the EBNF grammar language.
//!
//! Grammar syntax:
//!   grammar     = rule* ;
//!   rule        = metadata? IDENT "=" expr ";" ;
//!   metadata    = "[" level* ("," STRING)? "]" ;
//!   expr        = seq_expr ("|" seq_expr)* ;
//!   seq_expr    = quantified+ ;
//!   quantified  = atom ("?" | "*" | "+")? ;
//!   atom        = token_matcher | "(" expr ")" | "_" | IDENT ;
//!   token_matcher = pos_path? string_lit? base_form? ;
//!   pos_path    = IDENT ("." IDENT)* ;
//!   base_form   = "@" string_lit ;
use vstd::prelude::*;
use crate::lexer::{is_rule_name, rule_name_like, spec_tokenize, token_views, Lexer, SpecToken, Token};
use crate::msg::{lex_message, opt_token_debug, push_opt_token_debug, push_token_debug, token_debug};
use crate::syntax::{
    lemma_group_views, opt_metadata_view, opt_string_view, pattern_uses_captures, pattern_views, rule_views, regex_check, regex_error, spec_uses_captures, string_views, Grammar,
    PatternExpr, Rule, RuleMetadata, SpecExample, SpecMatcher, SpecMetadata, SpecPattern, SpecPredicate, SpecRule,
    StringMatcher, TokenPredicate,
};
use crate::text::{char_is_ascii_digit, chars_of, is_ascii_digit};

verus! {

// ── Specification ──────────────────────────────────────────────────────────

pub open spec fn tok_at(ts: Seq<SpecToken>, p: int) -> Option<SpecToken> {
    if 0 <= p < ts.len() {
        Some(ts[p])
    } else {
        None
    }
}

/// Whether a token can start a string value (`"..."`, `~"..."` or `/.../`).
pub open spec fn starts_string_value(t: Option<SpecToken>) -> bool {
    match t {
        Some(SpecToken::StringLit(_)) => true,
        Some(SpecToken::Tilde) => true,
        Some(SpecToken::RegexLit(_)) => true,
        _ => false,
    }
}

/// Parses a string value that may be exact ("text"), suffix (~"text"), or regex (/pattern/).
pub open spec fn spec_string_value(ts: Seq<SpecToken>, p: int) -> Result<(SpecMatcher, int), Seq<char>> {
    match tok_at(ts, p) {
        Some(SpecToken::Tilde) => match tok_at(ts, p + 1) {
            Some(SpecToken::StringLit(s)) => Ok((SpecMatcher::Suffix(s), p + 2)),
            other => Err("Expected string after '~', got "@ + opt_token_debug(other)),
        },
        Some(SpecToken::RegexLit(s)) => match regex_error(s) {
            None => Ok((SpecMatcher::Regex(s), p + 1)),
            Some(m) => Err("Invalid regex '"@ + s + "': "@ + m),
        },
        Some(SpecToken::StringLit(s)) => Ok((SpecMatcher::Exact(s), p + 1)),
        other => Err("Expected string value, got "@ + opt_token_debug(other)),
    }
}

/// Consumes the token `t`.
pub open spec fn spec_expect(ts: Seq<SpecToken>, p: int, t: SpecToken) -> Result<int, Seq<char>> {
    match tok_at(ts, p) {
        Some(x) => if x == t {
            Ok(p + 1)
        } else {
            Err("Expected "@ + token_debug(t) + ", got "@ + token_debug(x))
        },
        None => Err("Expected "@ + token_debug(t) + ", got end of input"@),
    }
}

pub open spec fn meta_finish(
    ts: Seq<SpecToken>,
    q: int,
    levels: Seq<Seq<char>>,
    description: Option<Seq<char>>,
) -> Result<(SpecMetadata, int), Seq<char>> {
    match spec_expect(ts, q, SpecToken::RBracket) {
        Ok(r) => Ok(
            (
                SpecMetadata { levels, description, connection: None, examples: Seq::empty() },
                r,
            ),
        ),
        Err(m) => Err(m),
    }
}

/// Reads metadata levels from `q` on, then the optional description and the closing bracket.
pub open spec fn meta_levels(ts: Seq<SpecToken>, q: int, levels: Seq<Seq<char>>) -> Result<
    (SpecMetadata, int),
    Seq<char>,
>
    decreases ts.len() - q,
{
    match tok_at(ts, q) {
        Some(SpecToken::Ident(s)) => meta_levels(ts, q + 1, levels.push(s)),
        Some(SpecToken::Comma) => match tok_at(ts, q + 1) {
            Some(SpecToken::StringLit(s)) => meta_finish(ts, q + 2, levels, Some(s)),
            other => Err("Expected description string, got "@ + opt_token_debug(other)),
        },
        Some(SpecToken::RBracket) => meta_finish(ts, q, levels, None),
        Some(SpecToken::StringLit(s)) => meta_finish(ts, q + 1, levels, Some(s)),
        other => Err("Unexpected token in metadata: "@ + opt_token_debug(other)),
    }
}

/// Parses `[N5 N4, "description"]`.
pub open spec fn spec_metadata(ts: Seq<SpecToken>, p: int) -> Result<(SpecMetadata, int), Seq<char>> {
    match spec_expect(ts, p, SpecToken::LBracket) {
        Ok(q) => meta_levels(ts, q, Seq::empty()),
        Err(m) => Err(m),
    }
}

/// A predicate with only the given POS path and surface / base form constraints.
pub open spec fn plain_predicate(
    pos: Seq<Seq<char>>,
    surface: Option<SpecMatcher>,
    base_form: Option<SpecMatcher>,
) -> SpecPredicate {
    SpecPredicate {
        pos,
        surface,
        base_form,
        conjugation_form: None,
        conjugation_type: None,
        capture: None,
        base_form_ref: None,
    }
}

/// A predicate that only requires the base form to equal capture slot `n`.
pub open spec fn backref_predicate(n: u8) -> SpecPredicate {
    SpecPredicate {
        pos: Seq::empty(),
        surface: None,
        base_form: None,
        conjugation_form: None,
        conjugation_type: None,
        capture: None,
        base_form_ref: Some(n),
    }
}

/// An optional string value (when one starts at `p`).
pub open spec fn opt_string_value(ts: Seq<SpecToken>, p: int, allowed: bool) -> Result<(Option<SpecMatcher>, int), Seq<char>> {
    if allowed && starts_string_value(tok_at(ts, p)) {
        match spec_string_value(ts, p) {
            Ok((m, q)) => Ok((Some(m), q)),
            Err(e) => Err(e),
        }
    } else {
        Ok((None, p))
    }
}

/// A token matcher without a POS path: an optional surface, then an optional `@` base form.
pub open spec fn spec_token_predicate(ts: Seq<SpecToken>, p: int) -> Result<(SpecPredicate, int), Seq<char>> {
    match opt_string_value(ts, p, true) {
        Err(e) => Err(e),
        Ok((surface, q)) => if tok_at(ts, q) == Some(SpecToken::At) {
            match spec_string_value(ts, q + 1) {
                Ok((b, r)) => Ok((plain_predicate(Seq::empty(), surface, Some(b)), r)),
                Err(e) => Err(e),
            }
        } else {
            Ok((plain_predicate(Seq::empty(), surface, None), q))
        },
    }
}

/// The rest of a dotted POS path from `q` on.
pub open spec fn pos_path(ts: Seq<SpecToken>, q: int, parts: Seq<Seq<char>>) -> Result<
    (Seq<Seq<char>>, int),
    Seq<char>,
>
    decreases ts.len() - q,
{
    if 0 <= q && tok_at(ts, q) == Some(SpecToken::Dot) {
        match tok_at(ts, q + 1) {
            Some(SpecToken::Ident(s)) => pos_path(ts, q + 2, parts.push(s)),
            other => Err("Expected identifier after '.', got "@ + opt_token_debug(other)),
        }
    } else {
        Ok((parts, q))
    }
}

/// An optional conjugation form `[活用形]`, `[~"suffix"]` or `[/regex/]`.
pub open spec fn conj_form(ts: Seq<SpecToken>, q: int) -> Result<(Option<SpecMatcher>, int), Seq<char>> {
    if tok_at(ts, q) == Some(SpecToken::LBracket) {
        match tok_at(ts, q + 1) {
            Some(SpecToken::Tilde) | Some(SpecToken::RegexLit(_)) => match spec_string_value(ts, q + 1) {
                Ok((m, r)) => match spec_expect(ts, r, SpecToken::RBracket) {
                    Ok(r2) => Ok((Some(m), r2)),
                    Err(e) => Err(e),
                },
                Err(e) => Err(e),
            },
            Some(SpecToken::Ident(cf)) => match spec_expect(ts, q + 2, SpecToken::RBracket) {
                Ok(r2) => Ok((Some(SpecMatcher::Exact(cf)), r2)),
                Err(e) => Err(e),
            },
            other => Err("Expected conjugation form, got "@ + opt_token_debug(other)),
        }
    } else {
        Ok((None, q))
    }
}

/// An optional conjugation type `{活用型}`, `{~"suffix"}`, `{"type"}` or `{/regex/}`.
pub open spec fn conj_type(ts: Seq<SpecToken>, q: int) -> Result<(Option<SpecMatcher>, int), Seq<char>> {
    if tok_at(ts, q) == Some(SpecToken::LBrace) {
        match tok_at(ts, q + 1) {
            Some(SpecToken::Tilde) | Some(SpecToken::RegexLit(_)) | Some(SpecToken::StringLit(_)) => match spec_string_value(ts, q + 1) {
                Ok((m, r)) => match spec_expect(ts, r, SpecToken::RBrace) {
                    Ok(r2) => Ok((Some(m), r2)),
                    Err(e) => Err(e),
                },
                Err(e) => Err(e),
            },
            Some(SpecToken::Ident(ct)) => match spec_expect(ts, q + 2, SpecToken::RBrace) {
                Ok(r2) => Ok((Some(SpecMatcher::Exact(ct)), r2)),
                Err(e) => Err(e),
            },
            other => Err("Expected conjugation type, got "@ + opt_token_debug(other)),
        }
    } else {
        Ok((None, q))
    }
}

/// An optional base form: `@"..."` (static) or `@=$N` (back-reference).
pub open spec fn base_form_part(ts: Seq<SpecToken>, q: int) -> Result<(Option<SpecMatcher>, Option<u8>, int), Seq<char>> {
    if tok_at(ts, q) == Some(SpecToken::At) {
        if tok_at(ts, q + 1) == Some(SpecToken::Equals) {
            match tok_at(ts, q + 2) {
                Some(SpecToken::CaptureSlot(n)) => Ok((None, Some(n), q + 3)),
                other => Err("Expected capture slot after '@=', got "@ + opt_token_debug(other)),
            }
        } else {
            match spec_string_value(ts, q + 1) {
                Ok((m, r)) => Ok((Some(m), None, r)),
                Err(e) => Err(e),
            }
        }
    } else {
        Ok((None, None, q))
    }
}

/// The value of a string of ASCII digits.
pub open spec fn digits_value(s: Seq<char>) -> int
    decreases s.len(),
{
    if s.len() == 0 {
        0
    } else {
        digits_value(s.drop_last()) * 10 + (s.last() as int - '0' as int)
    }
}

/// `s` without a leading `+`.
pub open spec fn strip_plus(s: Seq<char>) -> Seq<char> {
    if s.len() > 0 && s[0] == '+' {
        s.drop_first()
    } else {
        s
    }
}

/// Every character of `d` is an ASCII digit.
pub open spec fn all_digits(d: Seq<char>) -> bool {
    forall|i: int| 0 <= i < d.len() ==> crate::text::is_ascii_digit(#[trigger] d[i])
}

/// What `str::parse::<u8>` gives: an optional `+`, then one or more ASCII digits whose value
/// fits in a byte.
pub open spec fn parse_u8_text(s: Seq<char>) -> Option<u8> {
    let d = strip_plus(s);
    if d.len() > 0 && all_digits(d) && digits_value(d) <= 255 {
        Some(digits_value(d) as u8)
    } else {
        None
    }
}

/// The wildcard-capture slot that the lexer encodes as an identifier `_$N`.
pub open spec fn wildcard_capture_slot(ident: Seq<char>) -> Option<u8> {
    if ident.len() >= 2 && ident[0] == '_' && ident[1] == '$' {
        parse_u8_text(ident.subrange(2, ident.len() as int))
    } else {
        None
    }
}

/// An atom that starts with an identifier: a wildcard capture, a POS path with constraints, or
/// a rule reference.
pub open spec fn atom_ident(ts: Seq<SpecToken>, p: int, ident: Seq<char>) -> Result<(SpecPattern, int), Seq<char>> {
    let q = p + 1;
    match wildcard_capture_slot(ident) {
        Some(n) => Ok((SpecPattern::WildcardCapture(n), q)),
        None => match pos_path(ts, q, seq![ident]) {
            Err(e) => Err(e),
            Ok((parts, q1)) => {
                let (capture, q2) = match tok_at(ts, q1) {
                    Some(SpecToken::CaptureSlot(n)) => (Some(n), q1 + 1),
                    _ => (None, q1),
                };
                match conj_form(ts, q2) {
                    Err(e) => Err(e),
                    Ok((cf, q3)) => match conj_type(ts, q3) {
                        Err(e) => Err(e),
                        Ok((ct, q4)) => match opt_string_value(ts, q4, cf is None && ct is None) {
                            Err(e) => Err(e),
                            Ok((surface, q5)) => match base_form_part(ts, q5) {
                                Err(e) => Err(e),
                                Ok((base, base_ref, q6)) => if parts.len() == 1 && surface is None
                                    && base is None && cf is None && ct is None && capture is None
                                    && base_ref is None && rule_name_like(parts[0]) {
                                    Ok((SpecPattern::RuleRef(parts[0]), q6))
                                } else {
                                    Ok(
                                        (
                                            SpecPattern::Token(
                                                SpecPredicate {
                                                    pos: parts,
                                                    surface,
                                                    base_form: base,
                                                    conjugation_form: cf,
                                                    conjugation_type: ct,
                                                    capture,
                                                    base_form_ref: base_ref,
                                                },
                                            ),
                                            q6,
                                        ),
                                    )
                                },
                            },
                        },
                    },
                }
            },
        },
    }
}

proof fn lemma_pos_path_prefix(ts: Seq<SpecToken>, q: int, parts: Seq<Seq<char>>)
    ensures
        pos_path(ts, q, parts) matches Ok((ps, _)) ==> parts.len() <= ps.len() && ps.subrange(
            0,
            parts.len() as int,
        ) == parts,
    decreases ts.len() - q,
{
    if 0 <= q && tok_at(ts, q) == Some(SpecToken::Dot) {
        if let Some(SpecToken::Ident(s)) = tok_at(ts, q + 1) {
            lemma_pos_path_prefix(ts, q + 2, parts.push(s));
            if let Ok((ps, _)) = pos_path(ts, q, parts) {
                assert(ps.subrange(0, parts.len() as int) =~= ps.subrange(0, parts.len() + 1 as int).subrange(
                    0,
                    parts.len() as int,
                ));
            }
        }
    } else {
        if let Ok((ps, _)) = pos_path(ts, q, parts) {
            assert(ps.subrange(0, parts.len() as int) =~= parts);
        }
    }
}

/// An identifier standing alone (no dotted path, capture slot, surface, base form or
/// conjugation after it) is read as a reference to a rule exactly when it is made of ASCII
/// letters, digits and underscores only (such as `noun2`); otherwise it is a part-of-speech tag.
pub proof fn law_rule_reference_names(ts: Seq<SpecToken>, p: int, ident: Seq<char>)
    ensures
        atom_ident(ts, p, ident) matches Ok((SpecPattern::RuleRef(r), _)) ==> r == ident && forall|i: int|
            0 <= i < ident.len() ==> ('0' <= #[trigger] ident[i] <= '9' || 'a' <= ident[i] <= 'z' || 'A'
                <= ident[i] <= 'Z' || ident[i] == '_'),
        atom_ident(ts, p, ident) matches Ok((SpecPattern::Token(pred), _)) && pred.pos == seq![ident]
            && pred.surface is None && pred.base_form is None && pred.conjugation_form is None
            && pred.conjugation_type is None && pred.capture is None && pred.base_form_ref is None
            ==> !forall|i: int|
            0 <= i < ident.len() ==> ('0' <= #[trigger] ident[i] <= '9' || 'a' <= ident[i] <= 'z' || 'A'
                <= ident[i] <= 'Z' || ident[i] == '_'),
{
    lemma_pos_path_prefix(ts, p + 1, seq![ident]);
    if let Ok((ps, _)) = pos_path(ts, p + 1, seq![ident]) {
        assert(ps[0] == ps.subrange(0, 1)[0]);
        assert(ps[0] == ident);
    }
}

/// The message for a sequence with no pattern in it.
pub open spec fn empty_sequence_message() -> Seq<char> {
    "Expected at least one pattern in sequence"@
}

/// `expr = seq_expr ("|" seq_expr)*`
pub open spec fn p_expr(ts: Seq<SpecToken>, p: int) -> Result<(SpecPattern, int), Seq<char>>
    decreases ts.len() - p, 4nat,
{
    match p_seq(ts, p) {
        Err(e) => Err(e),
        Ok((first, q)) => if p < q <= ts.len() {
            p_alts(ts, q, seq![first])
        } else {
            Err(empty_sequence_message())
        },
    }
}

/// Further `| seq_expr` alternatives from `q` on.
pub open spec fn p_alts(ts: Seq<SpecToken>, q: int, alts: Seq<SpecPattern>) -> Result<(SpecPattern, int), Seq<char>>
    decreases ts.len() - q, 5nat,
{
    if 0 <= q && tok_at(ts, q) == Some(SpecToken::Pipe) {
        match p_seq(ts, q + 1) {
            Err(e) => Err(e),
            Ok((e, r)) => if q < r <= ts.len() {
                p_alts(ts, r, alts.push(e))
            } else {
                Err(empty_sequence_message())
            },
        }
    } else if alts.len() == 1 {
        Ok((alts[0], q))
    } else {
        Ok((SpecPattern::Alternative(alts), q))
    }
}

/// `seq_expr = quantified+`
pub open spec fn p_seq(ts: Seq<SpecToken>, p: int) -> Result<(SpecPattern, int), Seq<char>>
    decreases ts.len() - p, 3nat,
{
    match p_items(ts, p, Seq::empty()) {
        Err(e) => Err(e),
        Ok((items, q)) => if items.len() == 0 {
            Err(empty_sequence_message())
        } else if items.len() == 1 {
            Ok((items[0], q))
        } else {
            Ok((SpecPattern::Sequence(items), q))
        },
    }
}

/// Whether the token at `q` ends a sequence (`|`, `)`, `;` or the end of input).
pub open spec fn ends_sequence(t: Option<SpecToken>) -> bool {
    match t {
        None => true,
        Some(SpecToken::Pipe) => true,
        Some(SpecToken::RParen) => true,
        Some(SpecToken::Semicolon) => true,
        _ => false,
    }
}

/// Quantified patterns from `q` on, until a token that ends the sequence.
pub open spec fn p_items(ts: Seq<SpecToken>, q: int, items: Seq<SpecPattern>) -> Result<(Seq<SpecPattern>, int), Seq<char>>
    decreases ts.len() - q, 2nat,
{
    if q < 0 || ends_sequence(tok_at(ts, q)) {
        Ok((items, q))
    } else {
        match p_quant(ts, q) {
            Err(e) => Err(e),
            Ok((e, r)) => if q < r <= ts.len() {
                p_items(ts, r, items.push(e))
            } else {
                Err(empty_sequence_message())
            },
        }
    }
}

/// `quantified = atom ("?" | "*" | "+")?`
pub open spec fn p_quant(ts: Seq<SpecToken>, q: int) -> Result<(SpecPattern, int), Seq<char>>
    decreases ts.len() - q, 1nat,
{
    match p_atom(ts, q) {
        Err(e) => Err(e),
        Ok((a, r)) => match tok_at(ts, r) {
            Some(SpecToken::Question) => Ok((SpecPattern::Optional(Box::new(a)), r + 1)),
            Some(SpecToken::Star) => Ok((SpecPattern::ZeroOrMore(Box::new(a)), r + 1)),
            Some(SpecToken::Plus) => Ok((SpecPattern::OneOrMore(Box::new(a)), r + 1)),
            _ => Ok((a, r)),
        },
    }
}

/// `atom = token_matcher | "(" expr ")" | "_" | IDENT`
pub open spec fn p_atom(ts: Seq<SpecToken>, p: int) -> Result<(SpecPattern, int), Seq<char>>
    decreases ts.len() - p, 0nat,
{
    match tok_at(ts, p) {
        Some(SpecToken::LParen) => match p_expr(ts, p + 1) {
            Err(e) => Err(e),
            Ok((e, q)) => match spec_expect(ts, q, SpecToken::RParen) {
                Ok(r) => Ok((e, r)),
                Err(m) => Err(m),
            },
        },
        Some(SpecToken::Underscore) => if tok_at(ts, p + 1) == Some(SpecToken::At) && tok_at(ts, p + 2)
            == Some(SpecToken::Equals) {
            match tok_at(ts, p + 3) {
                Some(SpecToken::CaptureSlot(n)) => Ok((SpecPattern::Token(backref_predicate(n)), p + 4)),
                other => Err("Expected capture slot after '_@=', got "@ + opt_token_debug(other)),
            }
        } else {
            Ok((SpecPattern::Wildcard, p + 1))
        },
        Some(SpecToken::StringLit(_)) | Some(SpecToken::Tilde) | Some(SpecToken::RegexLit(_))
        | Some(SpecToken::At) => if tok_at(ts, p) == Some(SpecToken::At) && tok_at(ts, p + 1) == Some(
            SpecToken::Equals,
        ) {
            match tok_at(ts, p + 2) {
                Some(SpecToken::CaptureSlot(n)) => Ok((SpecPattern::Token(backref_predicate(n)), p + 3)),
                other => Err("Expected capture slot after '@=', got "@ + opt_token_debug(other)),
            }
        } else {
            match spec_token_predicate(ts, p) {
                Ok((pred, q)) => Ok((SpecPattern::Token(pred), q)),
                Err(e) => Err(e),
            }
        },
        Some(SpecToken::Ident(ident)) => atom_ident(ts, p, ident),
        other => Err("Unexpected token: "@ + opt_token_debug(other)),
    }
}

/// Metadata, when a rule starts with `[`.
pub open spec fn opt_metadata(ts: Seq<SpecToken>, p: int) -> Result<(Option<SpecMetadata>, int), Seq<char>> {
    if tok_at(ts, p) == Some(SpecToken::LBracket) {
        match spec_metadata(ts, p) {
            Ok((m, q)) => Ok((Some(m), q)),
            Err(e) => Err(e),
        }
    } else {
        Ok((None, p))
    }
}

/// `rule = metadata? IDENT "=" expr ";"`
pub open spec fn spec_rule(ts: Seq<SpecToken>, p: int) -> Result<(SpecRule, int), Seq<char>> {
    match opt_metadata(ts, p) {
        Err(e) => Err(e),
        Ok((metadata, p1)) => match tok_at(ts, p1) {
            Some(SpecToken::Ident(name)) => match spec_expect(ts, p1 + 1, SpecToken::Equals) {
                Err(e) => Err(e),
                Ok(p2) => match p_expr(ts, p2) {
                    Err(e) => Err(e),
                    Ok((pattern, p3)) => match spec_expect(ts, p3, SpecToken::Semicolon) {
                        Err(e) => Err(e),
                        Ok(p4) => Ok(
                            (
                                SpecRule {
                                    name,
                                    pattern,
                                    metadata,
                                    uses_captures: spec_uses_captures(pattern),
                                    max_bunsetsu_span: 0,
                                },
                                p4,
                            ),
                        ),
                    },
                },
            },
            other => Err("Expected rule name, got "@ + opt_token_debug(other)),
        },
    }
}

/// `grammar = rule*`, from token `p` on, after the rules `acc`.
pub open spec fn spec_rules(ts: Seq<SpecToken>, p: int, acc: Seq<SpecRule>) -> Result<Seq<SpecRule>, Seq<char>>
    decreases ts.len() - p,
{
    if p < 0 || p >= ts.len() {
        Ok(acc)
    } else {
        match spec_rule(ts, p) {
            Err(e) => Err(e),
            Ok((r, q)) => if p < q <= ts.len() {
                spec_rules(ts, q, acc.push(r))
            } else {
                Err(empty_sequence_message())
            },
        }
    }
}


// ── Parser ─────────────────────────────────────────────────────────────────

pub open spec fn opt_tok_view(o: Option<&Token>) -> Option<SpecToken> {
    match o {
        Some(t) => Some(t@),
        None => None,
    }
}

/// An exec outcome stands for a spec outcome: the same value (by view) and final position, or
/// the same message.
pub open spec fn outcome<A, B: View<V = A>>(spec: Result<(A, int), Seq<char>>, res: Result<B, String>, pos: int) -> bool {
    match spec {
        Ok((v, q)) => res matches Ok(x) && x@ == v && pos == q,
        Err(m) => res matches Err(x) && x@ == m,
    }
}

pub open spec fn opt_matcher(o: Option<StringMatcher>) -> Option<SpecMatcher> {
    match o {
        Some(m) => Some(m@),
        None => None,
    }
}

/// An exec outcome of an optional string value stands for a spec outcome.
pub open spec fn opt_outcome(
    spec: Result<(Option<SpecMatcher>, int), Seq<char>>,
    res: Result<Option<StringMatcher>, String>,
    pos: int,
) -> bool {
    match spec {
        Ok((v, q)) => res matches Ok(x) && opt_matcher(x) == v && pos == q,
        Err(m) => res matches Err(x) && x@ == m,
    }
}

/// `prefix` followed by the `{:?}` text of an optional token.
fn msg_opt(prefix: &str, t: Option<&Token>) -> (res: String)
    ensures
        res@ == prefix@ + opt_token_debug(opt_tok_view(t)),
{
    let mut s = String::new();
    s.append(prefix);
    push_opt_token_debug(&mut s, t);
    assert(s@ =~= prefix@ + opt_token_debug(opt_tok_view(t)));
    s
}

/// Whether two tokens are equal.
fn token_eq(a: &Token, b: &Token) -> (res: bool)
    ensures
        res == (a@ == b@),
{
    match a {
        Token::Ident(x) => match b {
            Token::Ident(y) => *x == *y,
            _ => false,
        },
        Token::StringLit(x) => match b {
            Token::StringLit(y) => *x == *y,
            _ => false,
        },
        Token::RegexLit(x) => match b {
            Token::RegexLit(y) => *x == *y,
            _ => false,
        },
        Token::CaptureSlot(x) => match b {
            Token::CaptureSlot(y) => *x == *y,
            _ => false,
        },
        Token::Tilde => match b {
            Token::Tilde => true,
            _ => false,
        },
        Token::At => match b {
            Token::At => true,
            _ => false,
        },
        Token::Dot => match b {
            Token::Dot => true,
            _ => false,
        },
        Token::Pipe => match b {
            Token::Pipe => true,
            _ => false,
        },
        Token::LParen => match b {
            Token::LParen => true,
            _ => false,
        },
        Token::RParen => match b {
            Token::RParen => true,
            _ => false,
        },
        Token::LBracket => match b {
            Token::LBracket => true,
            _ => false,
        },
        Token::RBracket => match b {
            Token::RBracket => true,
            _ => false,
        },
        Token::LBrace => match b {
            Token::LBrace => true,
            _ => false,
        },
        Token::RBrace => match b {
            Token::RBrace => true,
            _ => false,
        },
        Token::Comma => match b {
            Token::Comma => true,
            _ => false,
        },
        Token::Question => match b {
            Token::Question => true,
            _ => false,
        },
        Token::Star => match b {
            Token::Star => true,
            _ => false,
        },
        Token::Plus => match b {
            Token::Plus => true,
            _ => false,
        },
        Token::Underscore => match b {
            Token::Underscore => true,
            _ => false,
        },
        Token::Equals => match b {
            Token::Equals => true,
            _ => false,
        },
        Token::Semicolon => match b {
            Token::Semicolon => true,
            _ => false,
        },
    }
}

/// The value `str::parse::<u8>` gives for the characters `s`.
fn parse_u8_chars(s: &[char]) -> (res: Option<u8>)
    ensures
        res == parse_u8_text(s@),
{
    let start: usize = if s.len() > 0 && s[0] == '+' { 1 } else { 0 };
    let ghost d = strip_plus(s@);
    assert(d =~= s@.subrange(start as int, s@.len() as int));
    if start >= s.len() {
        assert(d.len() == 0);
        return None;
    }
    let mut v: u32 = 0;
    let mut i: usize = start;
    while i < s.len()
        invariant
            start <= i <= s.len(),
            d == strip_plus(s@),
            d =~= s@.subrange(start as int, s@.len() as int),
            forall|j: int| 0 <= j < i - start ==> is_ascii_digit(#[trigger] d[j]),
            v as int == (if digits_value(d.take(i - start)) <= 256 { digits_value(d.take(i - start)) } else { 256 }),
            digits_value(d.take(i - start)) >= 0,
        decreases s.len() - i,
    {
        let c = s[i];
        if !char_is_ascii_digit(c) {
            assert(d[i - start] == c);
            assert(!is_ascii_digit(d[(i - start) as int]));
            assert(!all_digits(d));
            return None;
        }
        let dig: u32 = (c as u32) - ('0' as u32);
        let ghost k = (i - start) as int;
        assert(d.take(k + 1).drop_last() =~= d.take(k));
        assert(d.take(k + 1).last() == c);
        assert(digits_value(d.take(k + 1)) == digits_value(d.take(k)) * 10 + dig);
        let nv = v * 10 + dig;
        v = if nv > 256 { 256 } else { nv };
        proof {
            let x = digits_value(d.take(k));
            if x > 256 {
                assert(x * 10 + dig > 256) by (nonlinear_arith)
                    requires x > 256, dig >= 0;
            }
        }
        i += 1;
    }
    assert(d.take(d.len() as int) =~= d);
    if v <= 255 {
        Some(v as u8)
    } else {
        None
    }
}

/// The wildcard-capture slot of an identifier `_$N`, if it is one.
fn wildcard_slot(ident: &str) -> (res: Option<u8>)
    ensures
        res == wildcard_capture_slot(ident@),
{
    let cs = chars_of(ident);
    if cs.len() >= 2 && cs[0] == '_' && cs[1] == '$' {
        let mut rest: Vec<char> = Vec::new();
        let mut i: usize = 2;
        while i < cs.len()
            invariant
                2 <= i <= cs.len(),
                rest@ =~= cs@.subrange(2, i as int),
            decreases cs.len() - i,
        {
            rest.push(cs[i]);
            i += 1;
        }
        parse_u8_chars(rest.as_slice())
    } else {
        None
    }
}

pub struct Parser {
    pub tokens: Vec<Token>,
    pub pos: usize,
}

impl Parser {
    pub open spec fn ts(&self) -> Seq<SpecToken> {
        token_views(self.tokens@)
    }

    /// The position lies within the tokens (at most one past the last).
    pub open spec fn wf(&self) -> bool {
        self.pos <= self.tokens.len()
    }

    pub fn new(tokens: Vec<Token>) -> (res: Parser)
        ensures
            res.tokens@ == tokens@,
            res.pos == 0,
            res.wf(),
    {
        Parser { tokens, pos: 0 }
    }

    pub fn peek(&self) -> (res: Option<&Token>)
        ensures
            opt_tok_view(res) == tok_at(self.ts(), self.pos as int),
    {
        if self.pos < self.tokens.len() {
            Some(&self.tokens[self.pos])
        } else {
            None
        }
    }

    /// The token `k` places ahead of the current one.
    fn peek_ahead(&self, k: usize) -> (res: Option<&Token>)
        ensures
            opt_tok_view(res) == tok_at(self.ts(), self.pos + k),
    {
        if self.pos < self.tokens.len() && k < self.tokens.len() - self.pos {
            Some(&self.tokens[self.pos + k])
        } else {
            None
        }
    }

    pub fn next(&mut self) -> (res: Option<&Token>)
        requires
            old(self).wf(),
        ensures
            final(self).tokens@ == old(self).tokens@,
            opt_tok_view(res) == tok_at(old(self).ts(), old(self).pos as int),
            final(self).pos == (if res is Some { old(self).pos + 1 } else { old(self).pos as int }),
    {
        if self.pos < self.tokens.len() {
            self.pos += 1;
            Some(&self.tokens[self.pos - 1])
        } else {
            None
        }
    }

    /// Advances past `n` tokens (which must be there).
    fn skip(&mut self, n: usize)
        requires
            old(self).pos + n <= old(self).tokens.len(),
        ensures
            final(self).tokens@ == old(self).tokens@,
            final(self).pos == old(self).pos + n,
    {
        self.pos = self.pos + n;
    }

    pub fn expect(&mut self, expected: &Token) -> (res: Result<(), String>)
        requires
            old(self).wf(),
        ensures
            final(self).tokens@ == old(self).tokens@,
            old(self).pos <= final(self).pos <= final(self).tokens.len(),
            match spec_expect(old(self).ts(), old(self).pos as int, expected@) {
                Ok(q) => res is Ok && final(self).pos == q,
                Err(m) => res matches Err(x) && x@ == m,
            },
    {
        if self.pos < self.tokens.len() {
            let i = self.pos;
            if token_eq(&self.tokens[i], expected) {
                self.pos += 1;
                Ok(())
            } else {
                let mut s = String::new();
                s.append("Expected ");
                push_token_debug(&mut s, expected);
                s.append(", got ");
                push_token_debug(&mut s, &self.tokens[i]);
                assert(s@ =~= spec_expect(old(self).ts(), old(self).pos as int, expected@)->Err_0);
                Err(s)
            }
        } else {
            let mut s = String::new();
            s.append("Expected ");
            push_token_debug(&mut s, expected);
            s.append(", got end of input");
            assert(s@ =~= spec_expect(old(self).ts(), old(self).pos as int, expected@)->Err_0);
            Err(s)
        }
    }

    /// Parse a string value that may be exact ("text"), suffix (~"text"), or regex (/pattern/).
    pub fn parse_string_value(&mut self) -> (res: Result<StringMatcher, String>)
        requires
            old(self).wf(),
        ensures
            final(self).tokens@ == old(self).tokens@,
            old(self).pos <= final(self).pos <= final(self).tokens.len(),
            outcome(spec_string_value(old(self).ts(), old(self).pos as int), res, final(self).pos as int),
    {
        let ghost ts = self.ts();
        let ghost p = self.pos as int;
        let ghost target = spec_string_value(ts, p);
        match self.peek() {
            Some(Token::Tilde) => {
                let t1 = self.peek_ahead(1);
                match t1 {
                    Some(Token::StringLit(s)) => {
                        let v = s.clone();
                        self.skip(2);
                        Ok(StringMatcher::Suffix(v))
                    },
                    other => {
                        let m = msg_opt("Expected string after '~', got ", other);
                        Err(m)
                    },
                }
            },
            Some(Token::RegexLit(s)) => {
                let v = s.clone();
                match regex_check(v.as_str()) {
                    Ok(()) => {
                        self.skip(1);
                        Ok(StringMatcher::Regex(v))
                    },
                    Err(e) => {
                        let mut m = String::new();
                        m.append("Invalid regex '");
                        m.append(v.as_str());
                        m.append("': ");
                        m.append(e.as_str());
                        assert(m@ =~= target->Err_0);
                        Err(m)
                    },
                }
            },
            Some(Token::StringLit(s)) => {
                let v = s.clone();
                self.skip(1);
                Ok(StringMatcher::Exact(v))
            },
            other => {
                let m = msg_opt("Expected string value, got ", other);
                Err(m)
            },
        }
    }

    /// Closes metadata with `]`.
    fn finish_metadata(&mut self, levels: Vec<String>, description: Option<String>) -> (res: Result<RuleMetadata, String>)
        requires
            old(self).wf(),
        ensures
            final(self).tokens@ == old(self).tokens@,
            old(self).pos <= final(self).pos <= final(self).tokens.len(),
            outcome(
                meta_finish(old(self).ts(), old(self).pos as int, string_views(levels@), opt_string_view(description)),
                res,
                final(self).pos as int,
            ),
    {
        match self.expect(&Token::RBracket) {
            Err(e) => Err(e),
            Ok(()) => {
                let m = RuleMetadata { levels, description, connection: None, examples: Vec::new() };
                assert(m@.examples =~= Seq::<SpecExample>::empty());
                Ok(m)
            },
        }
    }

    /// Parses metadata: `[N5 N4, "description"]`.
    #[verifier::loop_isolation(false)]
    pub fn parse_metadata(&mut self) -> (res: Result<RuleMetadata, String>)
        requires
            old(self).wf(),
        ensures
            final(self).tokens@ == old(self).tokens@,
            old(self).pos <= final(self).pos <= final(self).tokens.len(),
            outcome(spec_metadata(old(self).ts(), old(self).pos as int), res, final(self).pos as int),
    {
        let ghost ts = self.ts();
        let ghost toks = self.tokens@;
        let ghost target = spec_metadata(ts, self.pos as int);
        match self.expect(&Token::LBracket) {
            Err(e) => return Err(e),
            Ok(()) => {},
        }
        let mut levels: Vec<String> = Vec::new();
        assert(string_views(levels@) =~= Seq::<Seq<char>>::empty());
        loop
            invariant
                self.tokens@ == toks,
                ts == token_views(toks),
                old(self).pos <= self.pos <= self.tokens.len(),
                target == meta_levels(ts, self.pos as int, string_views(levels@)),
            decreases self.tokens.len() - self.pos,
        {
            let t = self.peek();
            match t {
                Some(Token::Ident(s)) => {
                    let v = s.clone();
                    let ghost before = string_views(levels@);
                    levels.push(v);
                    assert(string_views(levels@) =~= before.push(v@));
                    self.skip(1);
                },
                Some(Token::Comma) => {
                    let t1 = self.peek_ahead(1);
                    match t1 {
                        Some(Token::StringLit(s)) => {
                            let d = s.clone();
                            self.skip(2);
                            return self.finish_metadata(levels, Some(d));
                        },
                        other => {
                            return Err(msg_opt("Expected description string, got ", other));
                        },
                    }
                },
                Some(Token::RBracket) => {
                    return self.finish_metadata(levels, None);
                },
                Some(Token::StringLit(s)) => {
                    let d = s.clone();
                    self.skip(1);
                    return self.finish_metadata(levels, Some(d));
                },
                other => {
                    return Err(msg_opt("Unexpected token in metadata: ", other));
                },
            }
        }
    }

    /// Whether the current token is `t`.
    fn peek_is(&self, t: &Token) -> (res: bool)
        ensures
            res == (tok_at(self.ts(), self.pos as int) == Some(t@)),
    {
        match self.peek() {
            Some(x) => token_eq(x, t),
            None => false,
        }
    }

    /// Whether the token `k` places ahead is `t`.
    fn peek_ahead_is(&self, k: usize, t: &Token) -> (res: bool)
        ensures
            res == (tok_at(self.ts(), self.pos + k) == Some(t@)),
    {
        match self.peek_ahead(k) {
            Some(x) => token_eq(x, t),
            None => false,
        }
    }

    /// A string value, when `allowed` and one starts here.
    fn parse_opt_string_value(&mut self, allowed: bool) -> (res: Result<Option<StringMatcher>, String>)
        requires
            old(self).wf(),
        ensures
            final(self).tokens@ == old(self).tokens@,
            old(self).pos <= final(self).pos <= final(self).tokens.len(),
            opt_outcome(opt_string_value(old(self).ts(), old(self).pos as int, allowed), res, final(self).pos as int),
    {
        let starts = match self.peek() {
            Some(Token::StringLit(_)) | Some(Token::Tilde) | Some(Token::RegexLit(_)) => true,
            _ => false,
        };
        if allowed && starts {
            match self.parse_string_value() {
                Ok(m) => Ok(Some(m)),
                Err(e) => Err(e),
            }
        } else {
            Ok(None)
        }
    }

    /// A token matcher without a POS path: an optional surface, then an optional `@` base form.
    fn parse_token_predicate(&mut self) -> (res: Result<TokenPredicate, String>)
        requires
            old(self).wf(),
        ensures
            final(self).tokens@ == old(self).tokens@,
            old(self).pos <= final(self).pos <= final(self).tokens.len(),
            outcome(spec_token_predicate(old(self).ts(), old(self).pos as int), res, final(self).pos as int),
    {
        let surface = match self.parse_opt_string_value(true) {
            Ok(s) => s,
            Err(e) => return Err(e),
        };
        let mut base_form = None;
        if self.peek_is(&Token::At) {
            self.skip(1);
            match self.parse_string_value() {
                Ok(b) => base_form = Some(b),
                Err(e) => return Err(e),
            }
        }
        let pred = TokenPredicate {
            pos: Vec::new(),
            surface,
            base_form,
            conjugation_form: None,
            conjugation_type: None,
            capture: None,
            base_form_ref: None,
        };
        assert(pred@.pos =~= Seq::<Seq<char>>::empty());
        Ok(pred)
    }

    /// The rest of a dotted POS path that starts with `first`.
    #[verifier::loop_isolation(false)]
    fn parse_pos_path(&mut self, first: String) -> (res: Result<Vec<String>, String>)
        requires
            old(self).wf(),
        ensures
            final(self).tokens@ == old(self).tokens@,
            old(self).pos <= final(self).pos <= final(self).tokens.len(),
            match pos_path(old(self).ts(), old(self).pos as int, seq![first@]) {
                Ok((parts, q)) => res matches Ok(v) && string_views(v@) == parts && final(self).pos == q,
                Err(m) => res matches Err(x) && x@ == m,
            },
    {
        let ghost ts = self.ts();
        let ghost toks = self.tokens@;
        let ghost p0 = self.pos as int;
        let mut parts: Vec<String> = Vec::new();
        parts.push(first);
        assert(string_views(parts@) =~= seq![first@]);
        loop
            invariant
                self.tokens@ == toks,
                p0 <= self.pos <= self.tokens.len(),
                pos_path(ts, p0, seq![first@]) == pos_path(ts, self.pos as int, string_views(parts@)),
            decreases self.tokens.len() - self.pos,
        {
            if !self.peek_is(&Token::Dot) {
                return Ok(parts);
            }
            let t1 = self.peek_ahead(1);
            match t1 {
                Some(Token::Ident(s)) => {
                    let v = s.clone();
                    let ghost before = string_views(parts@);
                    parts.push(v);
                    assert(string_views(parts@) =~= before.push(v@));
                    self.skip(2);
                },
                other => {
                    return Err(msg_opt("Expected identifier after '.', got ", other));
                },
            }
        }
    }

    /// An optional conjugation form `[活用形]`, `[~"suffix"]` or `[/regex/]`.
    fn parse_conj_form(&mut self) -> (res: Result<Option<StringMatcher>, String>)
        requires
            old(self).wf(),
        ensures
            final(self).tokens@ == old(self).tokens@,
            old(self).pos <= final(self).pos <= final(self).tokens.len(),
            opt_outcome(conj_form(old(self).ts(), old(self).pos as int), res, final(self).pos as int),
    {
        if !self.peek_is(&Token::LBracket) {
            return Ok(None);
        }
        let t1 = self.peek_ahead(1);
        match t1 {
            Some(Token::Tilde) | Some(Token::RegexLit(_)) => {
                self.skip(1);
                let m = match self.parse_string_value() {
                    Ok(m) => m,
                    Err(e) => return Err(e),
                };
                match self.expect(&Token::RBracket) {
                    Ok(()) => Ok(Some(m)),
                    Err(e) => Err(e),
                }
            },
            Some(Token::Ident(cf)) => {
                let v = cf.clone();
                self.skip(2);
                match self.expect(&Token::RBracket) {
                    Ok(()) => Ok(Some(StringMatcher::Exact(v))),
                    Err(e) => Err(e),
                }
            },
            other => Err(msg_opt("Expected conjugation form, got ", other)),
        }
    }

    /// An optional conjugation type `{活用型}`, `{~"suffix"}`, `{"type"}` or `{/regex/}`.
    fn parse_conj_type(&mut self) -> (res: Result<Option<StringMatcher>, String>)
        requires
            old(self).wf(),
        ensures
            final(self).tokens@ == old(self).tokens@,
            old(self).pos <= final(self).pos <= final(self).tokens.len(),
            opt_outcome(conj_type(old(self).ts(), old(self).pos as int), res, final(self).pos as int),
    {
        if !self.peek_is(&Token::LBrace) {
            return Ok(None);
        }
        let t1 = self.peek_ahead(1);
        match t1 {
            Some(Token::Tilde) | Some(Token::RegexLit(_)) | Some(Token::StringLit(_)) => {
                self.skip(1);
                let m = match self.parse_string_value() {
                    Ok(m) => m,
                    Err(e) => return Err(e),
                };
                match self.expect(&Token::RBrace) {
                    Ok(()) => Ok(Some(m)),
                    Err(e) => Err(e),
                }
            },
            Some(Token::Ident(ct)) => {
                let v = ct.clone();
                self.skip(2);
                match self.expect(&Token::RBrace) {
                    Ok(()) => Ok(Some(StringMatcher::Exact(v))),
                    Err(e) => Err(e),
                }
            },
            other => Err(msg_opt("Expected conjugation type, got ", other)),
        }
    }

    /// An optional base form: `@"..."` (static) or `@=$N` (back-reference).
    fn parse_base_form_part(&mut self) -> (res: Result<(Option<StringMatcher>, Option<u8>), String>)
        requires
            old(self).wf(),
        ensures
            final(self).tokens@ == old(self).tokens@,
            old(self).pos <= final(self).pos <= final(self).tokens.len(),
            match base_form_part(old(self).ts(), old(self).pos as int) {
                Ok((b, r, q)) => res matches Ok(x) && opt_matcher(x.0) == b && x.1 == r && final(self).pos == q,
                Err(m) => res matches Err(x) && x@ == m,
            },
    {
        if !self.peek_is(&Token::At) {
            return Ok((None, None));
        }
        if self.peek_ahead_is(1, &Token::Equals) {
            let t2 = self.peek_ahead(2);
            match t2 {
                Some(Token::CaptureSlot(n)) => {
                    let n = *n;
                    self.skip(3);
                    Ok((None, Some(n)))
                },
                other => Err(msg_opt("Expected capture slot after '@=', got ", other)),
            }
        } else {
            self.skip(1);
            match self.parse_string_value() {
                Ok(m) => Ok((Some(m), None)),
                Err(e) => Err(e),
            }
        }
    }

    /// An atom that starts with the identifier `ident` (the current token).
    fn parse_atom_ident(&mut self, ident: String) -> (res: Result<PatternExpr, String>)
        requires
            old(self).pos < old(self).tokens.len(),
        ensures
            final(self).tokens@ == old(self).tokens@,
            old(self).pos < final(self).pos <= final(self).tokens.len(),
            outcome(atom_ident(old(self).ts(), old(self).pos as int, ident@), res, final(self).pos as int),
    {
        self.skip(1);
        match wildcard_slot(ident.as_str()) {
            Some(n) => return Ok(PatternExpr::WildcardCapture(n)),
            None => {},
        }
        let mut pos_parts = match self.parse_pos_path(ident) {
            Ok(v) => v,
            Err(e) => return Err(e),
        };
        let mut capture: Option<u8> = None;
        let t = self.peek();
        match t {
            Some(Token::CaptureSlot(n)) => {
                capture = Some(*n);
                self.skip(1);
            },
            _ => {},
        }
        let conjugation_form = match self.parse_conj_form() {
            Ok(m) => m,
            Err(e) => return Err(e),
        };
        let conjugation_type = match self.parse_conj_type() {
            Ok(m) => m,
            Err(e) => return Err(e),
        };
        // A plain string after a conjugation form or type starts a new atom
        // (e.g. 形容詞[ガル接続] "さ" is two tokens), while `@"..."` still belongs to this one.
        let allowed = conjugation_form.is_none() && conjugation_type.is_none();
        let surface = match self.parse_opt_string_value(allowed) {
            Ok(m) => m,
            Err(e) => return Err(e),
        };
        let (base_form, base_form_ref) = match self.parse_base_form_part() {
            Ok(x) => x,
            Err(e) => return Err(e),
        };
        let single = pos_parts.len() == 1;
        if single && surface.is_none() && base_form.is_none() && conjugation_form.is_none()
            && conjugation_type.is_none() && capture.is_none() && base_form_ref.is_none()
            && is_rule_name(chars_of(pos_parts[0].as_str()).as_slice()) {
            let name = pos_parts.pop().unwrap();
            Ok(PatternExpr::RuleRef(name))
        } else {
            Ok(
                PatternExpr::Token(
                    Box::new(
                        TokenPredicate {
                            pos: pos_parts,
                            surface,
                            base_form,
                            conjugation_form,
                            conjugation_type,
                            capture,
                            base_form_ref,
                        },
                    ),
                ),
            )
        }
    }

    /// `atom = token_matcher | "(" expr ")" | "_" | IDENT`
    pub fn parse_atom(&mut self) -> (res: Result<PatternExpr, String>)
        requires
            old(self).wf(),
        ensures
            final(self).tokens@ == old(self).tokens@,
            old(self).pos <= final(self).pos <= final(self).tokens.len(),
            outcome(p_atom(old(self).ts(), old(self).pos as int), res, final(self).pos as int),
            res is Ok ==> final(self).pos > old(self).pos,
        decreases old(self).tokens.len() - old(self).pos, 0nat,
    {
        let t = self.peek();
        match t {
            Some(Token::LParen) => {
                self.skip(1);
                let e = match self.parse_expr() {
                    Ok(e) => e,
                    Err(m) => return Err(m),
                };
                match self.expect(&Token::RParen) {
                    Ok(()) => Ok(e),
                    Err(m) => Err(m),
                }
            },
            Some(Token::Underscore) => {
                if self.peek_ahead_is(1, &Token::At) && self.peek_ahead_is(2, &Token::Equals) {
                    let t3 = self.peek_ahead(3);
                    match t3 {
                        Some(Token::CaptureSlot(n)) => {
                            let n = *n;
                            self.skip(4);
                            Ok(PatternExpr::Token(Box::new(backref_token(n))))
                        },
                        other => Err(msg_opt("Expected capture slot after '_@=', got ", other)),
                    }
                } else {
                    self.skip(1);
                    Ok(PatternExpr::Wildcard)
                }
            },
            Some(Token::StringLit(_)) | Some(Token::Tilde) | Some(Token::RegexLit(_)) | Some(Token::At) => {
                if self.peek_is(&Token::At) && self.peek_ahead_is(1, &Token::Equals) {
                    let t2 = self.peek_ahead(2);
                    match t2 {
                        Some(Token::CaptureSlot(n)) => {
                            let n = *n;
                            self.skip(3);
                            Ok(PatternExpr::Token(Box::new(backref_token(n))))
                        },
                        other => Err(msg_opt("Expected capture slot after '@=', got ", other)),
                    }
                } else {
                    match self.parse_token_predicate() {
                        Ok(pred) => Ok(PatternExpr::Token(Box::new(pred))),
                        Err(e) => Err(e),
                    }
                }
            },
            Some(Token::Ident(s)) => {
                let ident = s.clone();
                self.parse_atom_ident(ident)
            },
            other => Err(msg_opt("Unexpected token: ", other)),
        }
    }

    /// `quantified = atom ("?" | "*" | "+")?`
    pub fn parse_quantified(&mut self) -> (res: Result<PatternExpr, String>)
        requires
            old(self).wf(),
        ensures
            final(self).tokens@ == old(self).tokens@,
            old(self).pos <= final(self).pos <= final(self).tokens.len(),
            outcome(p_quant(old(self).ts(), old(self).pos as int), res, final(self).pos as int),
            res is Ok ==> final(self).pos > old(self).pos,
        decreases old(self).tokens.len() - old(self).pos, 1nat,
    {
        let atom = match self.parse_atom() {
            Ok(a) => a,
            Err(e) => return Err(e),
        };
        let t = self.peek();
        match t {
            Some(Token::Question) => {
                self.skip(1);
                Ok(PatternExpr::Optional(Box::new(atom)))
            },
            Some(Token::Star) => {
                self.skip(1);
                Ok(PatternExpr::ZeroOrMore(Box::new(atom)))
            },
            Some(Token::Plus) => {
                self.skip(1);
                Ok(PatternExpr::OneOrMore(Box::new(atom)))
            },
            _ => Ok(atom),
        }
    }

    /// `seq_expr = quantified+`
    #[verifier::loop_isolation(false)]
    pub fn parse_seq_expr(&mut self) -> (res: Result<PatternExpr, String>)
        requires
            old(self).wf(),
        ensures
            final(self).tokens@ == old(self).tokens@,
            old(self).pos <= final(self).pos <= final(self).tokens.len(),
            outcome(p_seq(old(self).ts(), old(self).pos as int), res, final(self).pos as int),
            res is Ok ==> final(self).pos > old(self).pos,
        decreases old(self).tokens.len() - old(self).pos, 3nat,
    {
        let ghost ts = self.ts();
        let ghost toks = self.tokens@;
        let ghost p0 = self.pos as int;
        let mut items: Vec<PatternExpr> = Vec::new();
        assert(pattern_views(items@) =~= Seq::<SpecPattern>::empty());
        loop
            invariant
                self.tokens@ == toks,
                p0 <= self.pos <= self.tokens.len(),
                items.len() > 0 ==> self.pos > p0,
                p_items(ts, p0, Seq::empty()) == p_items(ts, self.pos as int, pattern_views(items@)),
            decreases self.tokens.len() - self.pos,
        {
            let stop = match self.peek() {
                None => true,
                Some(Token::Pipe) | Some(Token::RParen) | Some(Token::Semicolon) => true,
                _ => false,
            };
            if stop {
                break;
            }
            let e = match self.parse_quantified() {
                Ok(e) => e,
                Err(m) => return Err(m),
            };
            let ghost before = pattern_views(items@);
            items.push(e);
            assert(pattern_views(items@) =~= before.push(e@));
        }
        if items.len() == 0 {
            let mut m = String::new();
            m.append("Expected at least one pattern in sequence");
            return Err(m);
        }
        if items.len() == 1 {
            let e = items.pop().unwrap();
            Ok(e)
        } else {
            proof {
                lemma_group_views(items);
            }
            let res = PatternExpr::Sequence(items);
            Ok(res)
        }
    }

    /// `expr = seq_expr ("|" seq_expr)*`
    #[verifier::loop_isolation(false)]
    pub fn parse_expr(&mut self) -> (res: Result<PatternExpr, String>)
        requires
            old(self).wf(),
        ensures
            final(self).tokens@ == old(self).tokens@,
            old(self).pos <= final(self).pos <= final(self).tokens.len(),
            outcome(p_expr(old(self).ts(), old(self).pos as int), res, final(self).pos as int),
            res is Ok ==> final(self).pos > old(self).pos,
        decreases old(self).tokens.len() - old(self).pos, 4nat,
    {
        let ghost ts = self.ts();
        let ghost toks = self.tokens@;
        let ghost p0 = self.pos as int;
        let first = match self.parse_seq_expr() {
            Ok(e) => e,
            Err(m) => return Err(m),
        };
        let mut alternatives: Vec<PatternExpr> = Vec::new();
        alternatives.push(first);
        assert(pattern_views(alternatives@) =~= seq![first@]);
        loop
            invariant
                self.tokens@ == toks,
                p0 < self.pos <= self.tokens.len(),
                alternatives.len() >= 1,
                p_expr(ts, p0) == p_alts(ts, self.pos as int, pattern_views(alternatives@)),
            decreases self.tokens.len() - self.pos,
        {
            if !self.peek_is(&Token::Pipe) {
                break;
            }
            self.skip(1);
            let e = match self.parse_seq_expr() {
                Ok(e) => e,
                Err(m) => return Err(m),
            };
            let ghost before = pattern_views(alternatives@);
            alternatives.push(e);
            assert(pattern_views(alternatives@) =~= before.push(e@));
        }
        if alternatives.len() == 1 {
            let e = alternatives.pop().unwrap();
            Ok(e)
        } else {
            proof {
                lemma_group_views(alternatives);
            }
            let res = PatternExpr::Alternative(alternatives);
            Ok(res)
        }
    }

    /// Metadata, when the rule starts with `[`.
    fn parse_opt_metadata(&mut self) -> (res: Result<Option<RuleMetadata>, String>)
        requires
            old(self).wf(),
        ensures
            final(self).tokens@ == old(self).tokens@,
            old(self).pos <= final(self).pos <= final(self).tokens.len(),
            match opt_metadata(old(self).ts(), old(self).pos as int) {
                Ok((m, q)) => res matches Ok(x) && opt_metadata_view(x) == m && final(self).pos == q,
                Err(e) => res matches Err(x) && x@ == e,
            },
    {
        if self.peek_is(&Token::LBracket) {
            match self.parse_metadata() {
                Ok(m) => Ok(Some(m)),
                Err(e) => Err(e),
            }
        } else {
            Ok(None)
        }
    }

    /// `rule = metadata? IDENT "=" expr ";"`
    pub fn parse_rule(&mut self) -> (res: Result<Rule, String>)
        requires
            old(self).wf(),
        ensures
            final(self).tokens@ == old(self).tokens@,
            old(self).pos <= final(self).pos <= final(self).tokens.len(),
            outcome(spec_rule(old(self).ts(), old(self).pos as int), res, final(self).pos as int),
            res is Ok ==> final(self).pos > old(self).pos,
    {
        let metadata = match self.parse_opt_metadata() {
            Ok(m) => m,
            Err(e) => return Err(e),
        };
        let t = self.peek();
        let name = match t {
            Some(Token::Ident(s)) => {
                let n = s.clone();
                self.skip(1);
                n
            },
            other => return Err(msg_opt("Expected rule name, got ", other)),
        };
        match self.expect(&Token::Equals) {
            Ok(()) => {},
            Err(e) => return Err(e),
        }
        let pattern = match self.parse_expr() {
            Ok(p) => p,
            Err(e) => return Err(e),
        };
        match self.expect(&Token::Semicolon) {
            Ok(()) => {},
            Err(e) => return Err(e),
        }
        let uses_captures = pattern_uses_captures(&pattern);
        Ok(Rule { name, pattern, metadata, uses_captures, max_bunsetsu_span: 0 })
    }

    /// `grammar = rule*`: the rules from the current token to the end.
    #[verifier::loop_isolation(false)]
    pub fn parse_grammar(&mut self) -> (res: Result<Grammar, String>)
        requires
            old(self).wf(),
        ensures
            match spec_rules(old(self).ts(), old(self).pos as int, Seq::empty()) {
                Ok(rs) => res matches Ok(g) && g@ == rs,
                Err(m) => res matches Err(x) && x@ == m,
            },
    {
        let ghost ts = self.ts();
        let ghost toks = self.tokens@;
        let ghost p0 = self.pos as int;
        let mut rules: Vec<Rule> = Vec::new();
        assert(rule_views(rules@) =~= Seq::<SpecRule>::empty());
        while self.pos < self.tokens.len()
            invariant
                self.tokens@ == toks,
                p0 <= self.pos <= self.tokens.len(),
                spec_rules(ts, p0, Seq::empty()) == spec_rules(ts, self.pos as int, rule_views(rules@)),
            decreases self.tokens.len() - self.pos,
        {
            let r = match self.parse_rule() {
                Ok(r) => r,
                Err(e) => return Err(e),
            };
            let ghost before = rule_views(rules@);
            rules.push(r);
            assert(rule_views(rules@) =~= before.push(r@));
        }
        Ok(Grammar { rules })
    }
}

/// The predicate of `_@=$N` and `@=$N`: the base form equals capture slot `n`.
fn backref_token(n: u8) -> (res: TokenPredicate)
    ensures
        res@ == backref_predicate(n),
{
    let pred = TokenPredicate {
        pos: Vec::new(),
        surface: None,
        base_form: None,
        conjugation_form: None,
        conjugation_type: None,
        capture: None,
        base_form_ref: Some(n),
    };
    assert(pred@.pos =~= Seq::<Seq<char>>::empty());
    pred
}

/// What `parse_grammar` gives for grammar text: the lexer's message when the text cannot be
/// tokenized, else the rules parsed from its tokens.
pub open spec fn spec_parse_grammar(text: Seq<char>) -> Result<Seq<SpecRule>, Seq<char>> {
    match spec_tokenize(text) {
        Err(e) => Err(lex_message(e)),
        Ok(ts) => spec_rules(ts, 0, Seq::empty()),
    }
}

/// A rule as the parser makes it: its capture flag tells whether its pattern uses captures,
/// and it has no bunsetsu limit.
pub open spec fn freshly_parsed(r: SpecRule) -> bool {
    r.uses_captures == spec_uses_captures(r.pattern) && r.max_bunsetsu_span == 0
}

proof fn lemma_rules_fresh(ts: Seq<SpecToken>, p: int, acc: Seq<SpecRule>)
    requires
        forall|i: int| 0 <= i < acc.len() ==> freshly_parsed(#[trigger] acc[i]),
    ensures
        spec_rules(ts, p, acc) matches Ok(rs) ==> forall|i: int| 0 <= i < rs.len() ==> freshly_parsed(
            #[trigger] rs[i],
        ),
    decreases ts.len() - p,
{
    if 0 <= p < ts.len() {
        if let Ok((r, q)) = spec_rule(ts, p) {
            if p < q <= ts.len() {
                let acc2 = acc.push(r);
                assert forall|i: int| 0 <= i < acc2.len() implies freshly_parsed(#[trigger] acc2[i]) by {
                    if i < acc.len() {
                        assert(acc2[i] == acc[i]);
                    }
                }
                lemma_rules_fresh(ts, q, acc2);
            }
        }
    }
}

/// Every rule parsed from grammar text carries the capture flag of its pattern and no
/// bunsetsu limit.
pub proof fn law_parsed_rules(text: Seq<char>)
    ensures
        spec_parse_grammar(text) matches Ok(rs) ==> forall|i: int| 0 <= i < rs.len() ==> freshly_parsed(
            #[trigger] rs[i],
        ),
{
    if let Ok(ts) = spec_tokenize(text) {
        lemma_rules_fresh(ts, 0, Seq::empty());
    }
}

/// Parse a grammar text string into a Grammar AST.
pub fn parse_grammar(input: &str) -> (res: Result<Grammar, String>)
    ensures
        match spec_parse_grammar(input@) {
            Ok(rs) => res matches Ok(g) && g@ == rs,
            Err(m) => res matches Err(x) && x@ == m,
        },
{
    let mut lexer = Lexer::new(input);
    let tokens = match lexer.tokenize() {
        Ok(t) => t,
        Err(e) => return Err(e.message()),
    };
    let mut parser = Parser::new(tokens);
    parser.parse_grammar()
}

} // verus!
