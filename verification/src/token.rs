//! Token-level matching: MeCab feature fields checked against grammar predicates.
use std::collections::HashMap;
use vstd::prelude::*;
use crate::node::{MecabNode, SpecNode};
use crate::syntax::{regex_finds, regex_search, SpecMatcher, SpecPredicate, StringMatcher, TokenPredicate};
use crate::text::{char_views, chars_end_with, chars_eq, chars_of, has_suffix, split_chars, split_on, string_of};

verus! {

broadcast use vstd::std_specs::hash::group_hash_axioms;

/// Feature field index of the conjugation type (活用型).
pub const FEATURE_CONJUGATION_TYPE: usize = 4;
/// Feature field index of the conjugation form (活用形).
pub const FEATURE_CONJUGATION_FORM: usize = 5;
/// Feature field index of the base form (原形).
pub const FEATURE_BASE_FORM: usize = 6;

/// Whether a string matcher accepts a value.
pub open spec fn matcher_accepts(m: SpecMatcher, value: Seq<char>) -> bool {
    match m {
        SpecMatcher::Exact(s) => value == s,
        SpecMatcher::Suffix(s) => has_suffix(value, s),
        SpecMatcher::Regex(r) => regex_finds(r, value),
    }
}

/// An optional constraint on a feature field: no constraint holds of anything, a constraint
/// needs the field to be present and accepted.
pub open spec fn field_constraint_holds(m: Option<SpecMatcher>, parts: Seq<Seq<char>>, idx: int) -> bool {
    match m {
        None => true,
        Some(m) => idx < parts.len() && matcher_accepts(m, parts[idx]),
    }
}

/// The POS path of the predicate is a prefix of the feature fields.
pub open spec fn pos_prefix(pos: Seq<Seq<char>>, parts: Seq<Seq<char>>) -> bool {
    pos.len() <= parts.len() && forall|i: int| 0 <= i < pos.len() ==> parts[i] == pos[i]
}

/// Whether a token with the given surface and feature fields meets every static constraint.
pub open spec fn fields_satisfy(surface: Seq<char>, parts: Seq<Seq<char>>, pred: SpecPredicate) -> bool {
    &&& pos_prefix(pred.pos, parts)
    &&& match pred.surface {
        None => true,
        Some(m) => matcher_accepts(m, surface),
    }
    &&& field_constraint_holds(pred.base_form, parts, FEATURE_BASE_FORM as int)
    &&& field_constraint_holds(pred.conjugation_form, parts, FEATURE_CONJUGATION_FORM as int)
    &&& field_constraint_holds(pred.conjugation_type, parts, FEATURE_CONJUGATION_TYPE as int)
}

/// Whether a node meets every static constraint of a predicate.
pub open spec fn predicate_holds(node: SpecNode, pred: SpecPredicate) -> bool {
    fields_satisfy(node.surface, split_on(node.feature, ','), pred)
}

/// The base form field, or the empty string when the feature has too few fields.
pub open spec fn base_form_of(parts: Seq<Seq<char>>) -> Seq<char> {
    if parts.len() > FEATURE_BASE_FORM {
        parts[FEATURE_BASE_FORM as int]
    } else {
        Seq::<char>::empty()
    }
}

impl StringMatcher {
    /// Test whether the given characters match this matcher.
    pub fn accepts_chars(&self, value: &[char]) -> (res: bool)
        ensures
            res == matcher_accepts(self@, value@),
    {
        match self {
            StringMatcher::Exact(s) => {
                let sc = chars_of(s.as_str());
                chars_eq(value, sc.as_slice())
            },
            StringMatcher::Suffix(s) => {
                let sc = chars_of(s.as_str());
                chars_end_with(value, sc.as_slice())
            },
            StringMatcher::Regex(r) => {
                let text = string_of(value);
                regex_search(r.as_str(), text.as_str())
            },
        }
    }

    /// Test whether the given string matches this matcher.
    pub fn matches(&self, value: &str) -> (res: bool)
        ensures
            res == matcher_accepts(self@, value@),
    {
        let v = chars_of(value);
        self.accepts_chars(v.as_slice())
    }
}

/// Parse the comma-separated feature string from MeCab into its fields.
pub fn parse_feature(feature: &str) -> (res: Vec<Vec<char>>)
    ensures
        char_views(res@) == split_on(feature@, ','),
{
    let v = chars_of(feature);
    split_chars(v.as_slice(), ',')
}

fn field_constraint_check(m: &Option<StringMatcher>, parts: &[Vec<char>], idx: usize) -> (res: bool)
    ensures
        res == field_constraint_holds(
            match m {
                Some(x) => Some(x@),
                None => None,
            },
            char_views(parts@),
            idx as int,
        ),
{
    match m {
        None => true,
        Some(x) => {
            if parts.len() <= idx {
                false
            } else {
                x.accepts_chars(parts[idx].as_slice())
            }
        },
    }
}

/// Check if a node matches a predicate, given the node's pre-parsed feature fields.
pub fn token_matches_parts(node: &MecabNode, pred: &TokenPredicate, parts: &[Vec<char>]) -> (res: bool)
    ensures
        res == fields_satisfy(node.surface@, char_views(parts@), pred@),
{
    let ghost pv = char_views(parts@);
    let mut i: usize = 0;
    while i < pred.pos.len()
        invariant
            0 <= i <= pred.pos.len(),
            pv == char_views(parts@),
            i <= parts.len(),
            forall|j: int| 0 <= j < i ==> pv[j] == pred@.pos[j],
        decreases pred.pos.len() - i,
    {
        if i >= parts.len() {
            return false;
        }
        let expected = chars_of(pred.pos[i].as_str());
        if !chars_eq(parts[i].as_slice(), expected.as_slice()) {
            assert(pred@.pos[i as int] == pred.pos@[i as int]@);
            assert(pv[i as int] != pred@.pos[i as int]);
            return false;
        }
        i += 1;
    }
    match &pred.surface {
        Some(m) => {
            let sc = chars_of(node.surface.as_str());
            if !m.accepts_chars(sc.as_slice()) {
                return false;
            }
        },
        None => {},
    }
    if !field_constraint_check(&pred.base_form, parts, FEATURE_BASE_FORM) {
        return false;
    }
    if !field_constraint_check(&pred.conjugation_form, parts, FEATURE_CONJUGATION_FORM) {
        return false;
    }
    if !field_constraint_check(&pred.conjugation_type, parts, FEATURE_CONJUGATION_TYPE) {
        return false;
    }
    true
}

/// Check if a single node matches a predicate.
pub fn token_matches(node: &MecabNode, pred: &TokenPredicate) -> (res: bool)
    ensures
        res == predicate_holds(node@, pred@),
{
    let parts = parse_feature(node.feature.as_str());
    token_matches_parts(node, pred, parts.as_slice())
}

/// Extract the base form from pre-parsed feature fields ("" when absent).
pub fn base_form_from_parts(parts: &[Vec<char>]) -> (res: Vec<char>)
    ensures
        res@ == base_form_of(char_views(parts@)),
{
    if parts.len() > FEATURE_BASE_FORM {
        let mut r: Vec<char> = Vec::new();
        let src = &parts[FEATURE_BASE_FORM];
        let mut i: usize = 0;
        while i < src.len()
            invariant
                i <= src.len(),
                r@ == src@.take(i as int),
            decreases src.len() - i,
        {
            r.push(src[i]);
            i += 1;
            assert(r@ =~= src@.take(i as int));
        }
        assert(src@.take(src.len() as int) =~= src@);
        r
    } else {
        Vec::new()
    }
}

/// Capture map: slot number → captured base_form string.
pub type CaptureMap = HashMap<u8, String>;

/// What matching a token against a predicate with captures gives: `None` when a static
/// constraint or the back-reference fails; otherwise the captures, with the token's base form
/// stored in the predicate's capture slot if it has one.
pub open spec fn capture_step(
    node: SpecNode,
    pred: SpecPredicate,
    captures: Map<u8, Seq<char>>,
) -> Option<Map<u8, Seq<char>>> {
    let parts = split_on(node.feature, ',');
    let base = base_form_of(parts);
    if !fields_satisfy(node.surface, parts, pred) {
        None
    } else if pred.base_form_ref is Some && !(captures.contains_key(pred.base_form_ref->0)
        && captures[pred.base_form_ref->0] == base) {
        None
    } else {
        match pred.capture {
            Some(slot) => Some(captures.insert(slot, base)),
            None => Some(captures),
        }
    }
}

/// The captured strings of a capture map.
pub open spec fn capture_view(m: Map<u8, String>) -> Map<u8, Seq<char>> {
    m.map_values(|s: String| s@)
}

/// Check if a token matches a predicate with capture support.
/// Returns the updated captures on success, `None` on failure.
pub fn token_matches_with_captures(
    node: &MecabNode,
    pred: &TokenPredicate,
    captures: &CaptureMap,
) -> (res: Option<CaptureMap>)
    ensures
        match res {
            Some(m) => capture_step(node@, pred@, capture_view(captures@)) == Some(capture_view(m@)),
            None => capture_step(node@, pred@, capture_view(captures@)) is None,
        },
{
    let parts = parse_feature(node.feature.as_str());
    if !token_matches_parts(node, pred, parts.as_slice()) {
        return None;
    }
    let base = base_form_from_parts(parts.as_slice());
    match pred.base_form_ref {
        Some(slot) => {
            match captures.get(&slot) {
                Some(captured) => {
                    let cc = chars_of(captured.as_str());
                    if !chars_eq(cc.as_slice(), base.as_slice()) {
                        return None;
                    }
                },
                None => {
                    return None;
                },
            }
        },
        None => {},
    }
    let mut new_captures = captures.clone();
    match pred.capture {
        Some(slot) => {
            let b = string_of(base.as_slice());
            new_captures.insert(slot, b);
            assert(capture_view(new_captures@) =~= capture_view(captures@).insert(slot, base@));
        },
        None => {},
    }
    Some(new_captures)
}

} // verus!
