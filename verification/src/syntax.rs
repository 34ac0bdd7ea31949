//! The grammar's syntax tree: rules whose patterns match a stream of MeCab tokens.
use vstd::prelude::*;
use crate::text::{chars_eq, chars_end_with, chars_of, has_suffix, string_of};

verus! {

// ── Regular expressions (fancy_regex) ──────────────────────────────────────

/// The message with which `fancy_regex::Regex::new` rejects `pattern`; `None` when it compiles.
pub uninterp spec fn regex_error(pattern: Seq<char>) -> Option<Seq<char>>;

/// Whether `fancy_regex::Regex::is_match` of the compiled `pattern` reports a match in `text`
/// (a matcher error, such as an exceeded backtrack limit, counts as no match).
pub uninterp spec fn regex_finds(pattern: Seq<char>, text: Seq<char>) -> bool;

/// Compiles `pattern` with `fancy_regex::Regex::new` and reports its error message, if any.
/// The contract claims only that the outcome is a function of the pattern.
#[verifier::external_body]
pub(crate) fn regex_check(pattern: &str) -> (res: Result<(), String>)
    ensures
        res is Ok <==> regex_error(pattern@) is None,
        res matches Err(m) ==> regex_error(pattern@) == Some(m@),
{
    match fancy_regex::Regex::new(pattern) {
        Ok(_) => Ok(()),
        Err(e) => Err(e.to_string()),
    }
}

/// Compiles `pattern` with `fancy_regex::Regex::new` and runs `Regex::is_match` on `text`;
/// an error of either is reported as no match. The contract names the outcome only.
#[verifier::external_body]
pub(crate) fn regex_search(pattern: &str, text: &str) -> (res: bool)
    ensures
        res == regex_finds(pattern@, text@),
{
    match fancy_regex::Regex::new(pattern) {
        Ok(re) => re.is_match(text).unwrap_or(false),
        Err(_) => false,
    }
}

// ── Exec types ─────────────────────────────────────────────────────────────

/// String matching strategy for token fields.
#[derive(Debug)]
pub enum StringMatcher {
    /// Exact equality: `"text"` or `@"text"` or `[form]`
    Exact(String),
    /// Suffix match: `~"suffix"` or `@~"suffix"` or `[~"suffix"]`
    Suffix(String),
    /// Regex match: `/pattern/` or `@/pattern/` or `[/pattern/]`; holds the pattern's source,
    /// which the parser has checked to compile.
    Regex(String),
}

/// Constraint on a single MeCab token.
#[derive(Debug)]
pub struct TokenPredicate {
    /// POS hierarchy: e.g. ["動詞"] or ["助詞", "接続助詞"]
    pub pos: Vec<String>,
    /// Surface form constraint
    pub surface: Option<StringMatcher>,
    /// Base form constraint (原形, feature index 6)
    pub base_form: Option<StringMatcher>,
    /// Conjugation form constraint (活用形, feature index 5)
    pub conjugation_form: Option<StringMatcher>,
    /// Conjugation type constraint (活用型, feature index 4)
    pub conjugation_type: Option<StringMatcher>,
    /// Capture slot: store this token's base_form into capture $N
    pub capture: Option<u8>,
    /// Back-reference: require base_form == captured value in slot $N
    pub base_form_ref: Option<u8>,
}

/// A node in the pattern AST.
#[derive(Debug)]
pub enum PatternExpr {
    /// Match a single token against a predicate
    Token(Box<TokenPredicate>),
    /// Wildcard: match any single token
    Wildcard,
    /// Wildcard with capture: match any token and capture its base_form into slot $N
    WildcardCapture(u8),
    /// Sequence of patterns (A B C)
    Sequence(Vec<PatternExpr>),
    /// Alternative (A | B)
    Alternative(Vec<PatternExpr>),
    /// Optional (A?)
    Optional(Box<PatternExpr>),
    /// Zero or more (A*)
    ZeroOrMore(Box<PatternExpr>),
    /// One or more (A+)
    OneOrMore(Box<PatternExpr>),
    /// Named rule reference
    RuleRef(String),
}

/// A single example sentence with optional translations.
#[derive(Debug)]
pub struct Example {
    /// Original sentence (typically Japanese)
    pub sentence: String,
    /// Translations: [(lang_code, text), ...]
    pub translations: Vec<(String, String)>,
}

/// Metadata attached to a grammar rule.
#[derive(Debug)]
pub struct RuleMetadata {
    /// JLPT levels this rule belongs to, e.g. ["N5", "N4"]
    pub levels: Vec<String>,
    /// Human-readable description
    pub description: Option<String>,
    /// Connection pattern (接続方式)
    pub connection: Option<String>,
    /// Example sentences with translations
    pub examples: Vec<Example>,
}

/// A named grammar rule.
#[derive(Debug)]
pub struct Rule {
    pub name: String,
    pub pattern: PatternExpr,
    pub metadata: Option<RuleMetadata>,
    /// Whether this rule uses capture back-references ($N / @=$N).
    pub uses_captures: bool,
    /// Largest number of bunsetsu a match of this rule may span; 0 for no limit.
    pub max_bunsetsu_span: u8,
}

/// A complete grammar (set of rules).
#[derive(Debug)]
pub struct Grammar {
    pub rules: Vec<Rule>,
}

// ── Views ──────────────────────────────────────────────────────────────────

pub enum SpecMatcher {
    Exact(Seq<char>),
    Suffix(Seq<char>),
    Regex(Seq<char>),
}

pub struct SpecPredicate {
    pub pos: Seq<Seq<char>>,
    pub surface: Option<SpecMatcher>,
    pub base_form: Option<SpecMatcher>,
    pub conjugation_form: Option<SpecMatcher>,
    pub conjugation_type: Option<SpecMatcher>,
    pub capture: Option<u8>,
    pub base_form_ref: Option<u8>,
}

pub enum SpecPattern {
    Token(SpecPredicate),
    Wildcard,
    WildcardCapture(u8),
    Sequence(Seq<SpecPattern>),
    Alternative(Seq<SpecPattern>),
    Optional(Box<SpecPattern>),
    ZeroOrMore(Box<SpecPattern>),
    OneOrMore(Box<SpecPattern>),
    RuleRef(Seq<char>),
}

pub struct SpecExample {
    pub sentence: Seq<char>,
    pub translations: Seq<(Seq<char>, Seq<char>)>,
}

pub struct SpecMetadata {
    pub levels: Seq<Seq<char>>,
    pub description: Option<Seq<char>>,
    pub connection: Option<Seq<char>>,
    pub examples: Seq<SpecExample>,
}

pub struct SpecRule {
    pub name: Seq<char>,
    pub pattern: SpecPattern,
    pub metadata: Option<SpecMetadata>,
    pub uses_captures: bool,
    pub max_bunsetsu_span: u8,
}

pub open spec fn string_views(v: Seq<String>) -> Seq<Seq<char>> {
    v.map_values(|s: String| s@)
}

pub open spec fn opt_string_view(o: Option<String>) -> Option<Seq<char>> {
    match o {
        Some(s) => Some(s@),
        None => None,
    }
}

impl View for StringMatcher {
    type V = SpecMatcher;

    open spec fn view(&self) -> SpecMatcher {
        match self {
            StringMatcher::Exact(s) => SpecMatcher::Exact(s@),
            StringMatcher::Suffix(s) => SpecMatcher::Suffix(s@),
            StringMatcher::Regex(s) => SpecMatcher::Regex(s@),
        }
    }
}

pub open spec fn opt_matcher_view(o: Option<StringMatcher>) -> Option<SpecMatcher> {
    match o {
        Some(m) => Some(m@),
        None => None,
    }
}

impl View for TokenPredicate {
    type V = SpecPredicate;

    open spec fn view(&self) -> SpecPredicate {
        SpecPredicate {
            pos: string_views(self.pos@),
            surface: opt_matcher_view(self.surface),
            base_form: opt_matcher_view(self.base_form),
            conjugation_form: opt_matcher_view(self.conjugation_form),
            conjugation_type: opt_matcher_view(self.conjugation_type),
            capture: self.capture,
            base_form_ref: self.base_form_ref,
        }
    }
}

pub open spec fn pattern_view(p: PatternExpr) -> SpecPattern
    decreases p,
{
    match p {
        PatternExpr::Token(pred) => SpecPattern::Token(pred@),
        PatternExpr::Wildcard => SpecPattern::Wildcard,
        PatternExpr::WildcardCapture(n) => SpecPattern::WildcardCapture(n),
        PatternExpr::Sequence(items) => SpecPattern::Sequence(
            Seq::new(
                items.len() as nat,
                |i: int|
                    if 0 <= i < items.len() {
                        pattern_view(items[i])
                    } else {
                        SpecPattern::Wildcard
                    },
            ),
        ),
        PatternExpr::Alternative(items) => SpecPattern::Alternative(
            Seq::new(
                items.len() as nat,
                |i: int|
                    if 0 <= i < items.len() {
                        pattern_view(items[i])
                    } else {
                        SpecPattern::Wildcard
                    },
            ),
        ),
        PatternExpr::Optional(inner) => SpecPattern::Optional(Box::new(pattern_view(*inner))),
        PatternExpr::ZeroOrMore(inner) => SpecPattern::ZeroOrMore(Box::new(pattern_view(*inner))),
        PatternExpr::OneOrMore(inner) => SpecPattern::OneOrMore(Box::new(pattern_view(*inner))),
        PatternExpr::RuleRef(name) => SpecPattern::RuleRef(name@),
    }
}

impl View for PatternExpr {
    type V = SpecPattern;

    open spec fn view(&self) -> SpecPattern {
        pattern_view(*self)
    }
}

pub open spec fn pattern_views(v: Seq<PatternExpr>) -> Seq<SpecPattern> {
    v.map_values(|p: PatternExpr| p@)
}

/// The view of a sequence or an alternative is made of the views of its items.
pub proof fn lemma_group_views(items: Vec<PatternExpr>)
    ensures
        PatternExpr::Sequence(items)@ == SpecPattern::Sequence(pattern_views(items@)),
        PatternExpr::Alternative(items)@ == SpecPattern::Alternative(pattern_views(items@)),
{
    let sv = pattern_view(PatternExpr::Sequence(items));
    let av = pattern_view(PatternExpr::Alternative(items));
    assert(sv is Sequence && av is Alternative);
    assert(sv->Sequence_0 =~= pattern_views(items@));
    assert(av->Alternative_0 =~= pattern_views(items@));
}

pub open spec fn translation_views(v: Seq<(String, String)>) -> Seq<(Seq<char>, Seq<char>)> {
    v.map_values(|t: (String, String)| (t.0@, t.1@))
}

impl View for Example {
    type V = SpecExample;

    open spec fn view(&self) -> SpecExample {
        SpecExample { sentence: self.sentence@, translations: translation_views(self.translations@) }
    }
}

pub open spec fn example_views(v: Seq<Example>) -> Seq<SpecExample> {
    v.map_values(|e: Example| e@)
}

impl View for RuleMetadata {
    type V = SpecMetadata;

    open spec fn view(&self) -> SpecMetadata {
        SpecMetadata {
            levels: string_views(self.levels@),
            description: opt_string_view(self.description),
            connection: opt_string_view(self.connection),
            examples: example_views(self.examples@),
        }
    }
}

pub open spec fn opt_metadata_view(o: Option<RuleMetadata>) -> Option<SpecMetadata> {
    match o {
        Some(m) => Some(m@),
        None => None,
    }
}

impl View for Rule {
    type V = SpecRule;

    open spec fn view(&self) -> SpecRule {
        SpecRule {
            name: self.name@,
            pattern: self.pattern@,
            metadata: opt_metadata_view(self.metadata),
            uses_captures: self.uses_captures,
            max_bunsetsu_span: self.max_bunsetsu_span,
        }
    }
}

pub open spec fn rule_views(v: Seq<Rule>) -> Seq<SpecRule> {
    v.map_values(|r: Rule| r@)
}

impl View for Grammar {
    type V = Seq<SpecRule>;

    open spec fn view(&self) -> Seq<SpecRule> {
        rule_views(self.rules@)
    }
}


// ── Rule lookup ────────────────────────────────────────────────────────────

/// Index of the first rule at or after `i` named `name`.
pub open spec fn first_rule_from(rules: Seq<SpecRule>, name: Seq<char>, i: int) -> Option<int>
    decreases rules.len() - i,
{
    if i < 0 || i >= rules.len() {
        None
    } else if rules[i].name == name {
        Some(i)
    } else {
        first_rule_from(rules, name, i + 1)
    }
}

/// Index of the first rule named `name`.
pub open spec fn first_rule(rules: Seq<SpecRule>, name: Seq<char>) -> Option<int> {
    first_rule_from(rules, name, 0)
}

pub proof fn lemma_first_rule_from_bounds(rules: Seq<SpecRule>, name: Seq<char>, i: int)
    ensures
        first_rule_from(rules, name, i) matches Some(j) ==> 0 <= i <= j < rules.len()
            && rules[j].name == name,
        first_rule_from(rules, name, i) is None ==> forall|j: int|
            0 <= i <= j < rules.len() ==> rules[j].name != name,
    decreases rules.len() - i,
{
    if 0 <= i < rules.len() && rules[i].name != name {
        lemma_first_rule_from_bounds(rules, name, i + 1);
        assert forall|j: int| 0 <= i <= j < rules.len() && first_rule_from(rules, name, i) is None
            implies rules[j].name != name by {
            if j > i {
            }
        }
    }
}

impl Grammar {
    pub fn new() -> (g: Grammar)
        ensures
            g@ == Seq::<SpecRule>::empty(),
    {
        let g = Grammar { rules: Vec::new() };
        assert(g@ =~= Seq::<SpecRule>::empty());
        g
    }

    /// Index of the first rule named `name`.
    pub fn find_rule_index(&self, name: &[char]) -> (res: Option<usize>)
        ensures
            match first_rule(self@, name@) {
                Some(i) => res == Some(i as usize),
                None => res is None,
            },
            res matches Some(i) ==> i < self.rules.len(),
    {
        let mut i: usize = 0;
        while i < self.rules.len()
            invariant
                i <= self.rules.len(),
                first_rule(self@, name@) == first_rule_from(self@, name@, i as int),
            decreases self.rules.len() - i,
        {
            let rn = chars_of(self.rules[i].name.as_str());
            assert(self@[i as int].name == self.rules@[i as int].name@);
            if chars_eq(rn.as_slice(), name) {
                return Some(i);
            }
            i += 1;
        }
        None
    }

    /// Find a rule by name.
    pub fn find_rule(&self, name: &str) -> (res: Option<&Rule>)
        ensures
            match first_rule(self@, name@) {
                Some(i) => res matches Some(r) && r@ == self@[i],
                None => res is None,
            },
    {
        let n = chars_of(name);
        proof {
            lemma_first_rule_from_bounds(self@, name@, 0);
        }
        match self.find_rule_index(n.as_slice()) {
            Some(i) => Some(&self.rules[i]),
            None => None,
        }
    }
}


// ── Copies ─────────────────────────────────────────────────────────────────

pub(crate) fn copy_string(s: &String) -> (res: String)
    ensures
        res@ == s@,
{
    s.clone()
}

pub(crate) fn copy_strings(v: &Vec<String>) -> (res: Vec<String>)
    ensures
        string_views(res@) == string_views(v@),
{
    let mut r: Vec<String> = Vec::new();
    let mut i: usize = 0;
    while i < v.len()
        invariant
            i <= v.len(),
            r@.len() == i,
            forall|j: int| 0 <= j < i ==> (#[trigger] r@[j])@ == v@[j]@,
        decreases v.len() - i,
    {
        r.push(copy_string(&v[i]));
        i += 1;
    }
    assert(string_views(r@) =~= string_views(v@));
    r
}

pub(crate) fn copy_opt_string(o: &Option<String>) -> (res: Option<String>)
    ensures
        opt_string_view(res) == opt_string_view(*o),
{
    match o {
        Some(s) => Some(copy_string(s)),
        None => None,
    }
}

pub(crate) fn copy_example(e: &Example) -> (res: Example)
    ensures
        res@ == e@,
{
    let mut t: Vec<(String, String)> = Vec::new();
    let mut i: usize = 0;
    while i < e.translations.len()
        invariant
            i <= e.translations.len(),
            t@.len() == i,
            forall|j: int|
                0 <= j < i ==> (#[trigger] t@[j]).0@ == e.translations@[j].0@ && t@[j].1@
                    == e.translations@[j].1@,
        decreases e.translations.len() - i,
    {
        let pair = (copy_string(&e.translations[i].0), copy_string(&e.translations[i].1));
        t.push(pair);
        i += 1;
    }
    assert(translation_views(t@) =~= translation_views(e.translations@));
    Example { sentence: copy_string(&e.sentence), translations: t }
}

pub(crate) fn copy_examples(v: &Vec<Example>) -> (res: Vec<Example>)
    ensures
        example_views(res@) == example_views(v@),
{
    let mut r: Vec<Example> = Vec::new();
    let mut i: usize = 0;
    while i < v.len()
        invariant
            i <= v.len(),
            r@.len() == i,
            forall|j: int| 0 <= j < i ==> (#[trigger] r@[j])@ == v@[j]@,
        decreases v.len() - i,
    {
        r.push(copy_example(&v[i]));
        i += 1;
    }
    assert(example_views(r@) =~= example_views(v@));
    r
}

pub(crate) fn copy_matcher(m: &StringMatcher) -> (res: StringMatcher)
    ensures
        res@ == m@,
{
    match m {
        StringMatcher::Exact(s) => StringMatcher::Exact(s.clone()),
        StringMatcher::Suffix(s) => StringMatcher::Suffix(s.clone()),
        StringMatcher::Regex(s) => StringMatcher::Regex(s.clone()),
    }
}

pub(crate) fn copy_opt_matcher(o: &Option<StringMatcher>) -> (res: Option<StringMatcher>)
    ensures
        opt_matcher_view(res) == opt_matcher_view(*o),
{
    match o {
        Some(m) => Some(copy_matcher(m)),
        None => None,
    }
}

pub(crate) fn copy_predicate(p: &TokenPredicate) -> (res: TokenPredicate)
    ensures
        res@ == p@,
{
    TokenPredicate {
        pos: copy_strings(&p.pos),
        surface: copy_opt_matcher(&p.surface),
        base_form: copy_opt_matcher(&p.base_form),
        conjugation_form: copy_opt_matcher(&p.conjugation_form),
        conjugation_type: copy_opt_matcher(&p.conjugation_type),
        capture: p.capture,
        base_form_ref: p.base_form_ref,
    }
}

/// A copy of a pattern.
pub fn copy_pattern(p: &PatternExpr) -> (res: PatternExpr)
    ensures
        res@ == p@,
    decreases p,
{
    match p {
        PatternExpr::Token(pred) => PatternExpr::Token(Box::new(copy_predicate(pred))),
        PatternExpr::Wildcard => PatternExpr::Wildcard,
        PatternExpr::WildcardCapture(n) => PatternExpr::WildcardCapture(*n),
        PatternExpr::Sequence(items) => {
            let v = copy_patterns(items);
            proof {
                lemma_group_views(v);
                lemma_group_views(*items);
            }
            PatternExpr::Sequence(v)
        },
        PatternExpr::Alternative(items) => {
            let v = copy_patterns(items);
            proof {
                lemma_group_views(v);
                lemma_group_views(*items);
            }
            PatternExpr::Alternative(v)
        },
        PatternExpr::Optional(inner) => PatternExpr::Optional(Box::new(copy_pattern(inner))),
        PatternExpr::ZeroOrMore(inner) => PatternExpr::ZeroOrMore(Box::new(copy_pattern(inner))),
        PatternExpr::OneOrMore(inner) => PatternExpr::OneOrMore(Box::new(copy_pattern(inner))),
        PatternExpr::RuleRef(name) => PatternExpr::RuleRef(name.clone()),
    }
}

fn copy_patterns(items: &Vec<PatternExpr>) -> (res: Vec<PatternExpr>)
    ensures
        pattern_views(res@) == pattern_views(items@),
    decreases items, 0nat,
{
    let mut r: Vec<PatternExpr> = Vec::new();
    let mut i: usize = 0;
    while i < items.len()
        invariant
            i <= items.len(),
            r@.len() == i,
            forall|j: int| 0 <= j < i ==> (#[trigger] r@[j])@ == items@[j]@,
        decreases items.len() - i,
    {
        proof {
            assert(decreases_to!(items => items@[i as int]));
        }
        r.push(copy_pattern(&items[i]));
        i += 1;
    }
    assert(pattern_views(r@) =~= pattern_views(items@));
    r
}

pub(crate) fn copy_metadata(m: &RuleMetadata) -> (res: RuleMetadata)
    ensures
        res@ == m@,
{
    RuleMetadata {
        levels: copy_strings(&m.levels),
        description: copy_opt_string(&m.description),
        connection: copy_opt_string(&m.connection),
        examples: copy_examples(&m.examples),
    }
}

/// A copy of a rule.
pub fn copy_rule(r: &Rule) -> (res: Rule)
    ensures
        res@ == r@,
{
    Rule {
        name: r.name.clone(),
        pattern: copy_pattern(&r.pattern),
        metadata: match &r.metadata {
            Some(m) => Some(copy_metadata(m)),
            None => None,
        },
        uses_captures: r.uses_captures,
        max_bunsetsu_span: r.max_bunsetsu_span,
    }
}

// ── Grammar operations ─────────────────────────────────────────────────────

/// Whether some rule is named `name`.
pub open spec fn has_rule_named(rules: Seq<SpecRule>, name: Seq<char>) -> bool {
    exists|i: int| 0 <= i < rules.len() && (#[trigger] rules[i]).name == name
}

/// `a` followed by the rules of `b` whose names are not yet taken (checked in turn, so that of
/// two rules of `b` with one name the first is kept).
pub open spec fn merge_rules(a: Seq<SpecRule>, b: Seq<SpecRule>) -> Seq<SpecRule>
    decreases b.len(),
{
    if b.len() == 0 {
        a
    } else {
        let m = merge_rules(a, b.drop_last());
        if has_rule_named(m, b.last().name) {
            m
        } else {
            m.push(b.last())
        }
    }
}

/// The names of the rules, in order.
pub open spec fn rule_names_of(rules: Seq<SpecRule>) -> Seq<Seq<char>> {
    rules.map_values(|r: SpecRule| r.name)
}

/// No two rules share a name.
pub open spec fn names_unique(rules: Seq<SpecRule>) -> bool {
    forall|i: int, j: int| 0 <= i < j < rules.len() ==> (#[trigger] rules[i]).name != (#[trigger] rules[j]).name
}

proof fn lemma_first_rule_has(rules: Seq<SpecRule>, name: Seq<char>)
    ensures
        first_rule(rules, name) is Some <==> has_rule_named(rules, name),
{
    lemma_first_rule_from_bounds(rules, name, 0);
    if has_rule_named(rules, name) {
        let i = choose|i: int| 0 <= i < rules.len() && (#[trigger] rules[i]).name == name;
        assert(rules[i].name == name);
    }
}

/// Merging keeps the rules of the first grammar as they are, in front; every name of the
/// second grammar is then taken; the rules added come from the second grammar; and when the
/// first grammar's names are unique, so are the merged ones.
pub proof fn law_merge(a: Seq<SpecRule>, b: Seq<SpecRule>)
    ensures
        merge_rules(a, b).len() >= a.len(),
        merge_rules(a, b).take(a.len() as int) == a,
        forall|i: int| 0 <= i < b.len() ==> has_rule_named(merge_rules(a, b), (#[trigger] b[i]).name),
        forall|k: int| a.len() <= k < merge_rules(a, b).len() ==> exists|i: int| 0 <= i < b.len() && b[i] == #[trigger] merge_rules(a, b)[k],
        names_unique(a) ==> names_unique(merge_rules(a, b)),
    decreases b.len(),
{
    if b.len() > 0 {
        let bl = b.drop_last();
        law_merge(a, bl);
        let m = merge_rules(a, bl);
        let x = b.last();
        let r = merge_rules(a, b);
        assert forall|i: int| 0 <= i < b.len() implies has_rule_named(r, (#[trigger] b[i]).name) by {
            if i < b.len() - 1 {
                assert(bl[i] == b[i]);
                let k = choose|k: int| 0 <= k < m.len() && (#[trigger] m[k]).name == b[i].name;
                assert(r[k] == m[k]);
            } else if !has_rule_named(m, x.name) {
                assert(r[m.len() as int] == x);
            }
        }
        assert forall|k: int| a.len() <= k < r.len() implies exists|i: int| 0 <= i < b.len() && b[i] == #[trigger] r[k] by {
            if k < m.len() {
                assert(r[k] == m[k]);
                let i = choose|i: int| 0 <= i < bl.len() && bl[i] == m[k];
                assert(b[i] == bl[i]);
            } else {
                assert(r[k] == x);
                assert(b[b.len() - 1] == x);
            }
        }
        assert(r.take(a.len() as int) =~= m.take(a.len() as int));
        if names_unique(a) && !has_rule_named(m, x.name) {
            assert forall|i: int, j: int| 0 <= i < j < r.len() implies (#[trigger] r[i]).name != (#[trigger] r[j]).name by {
                if j == m.len() {
                    assert(r[i] == m[i]);
                } else {
                    assert(r[i] == m[i] && r[j] == m[j]);
                }
            }
        }
    }
}

impl Grammar {
    /// A copy of this grammar.
    pub fn duplicate(&self) -> (res: Grammar)
        ensures
            res@ == self@,
    {
        let mut rules: Vec<Rule> = Vec::new();
        let mut i: usize = 0;
        while i < self.rules.len()
            invariant
                i <= self.rules.len(),
                rules@.len() == i,
                forall|j: int| 0 <= j < i ==> (#[trigger] rules@[j])@ == self.rules@[j]@,
            decreases self.rules.len() - i,
        {
            rules.push(copy_rule(&self.rules[i]));
            i += 1;
        }
        let g = Grammar { rules };
        assert(g@ =~= self@);
        g
    }

    /// Merge another grammar's rules into this one, skipping duplicate names.
    pub fn merge(&mut self, other: Grammar)
        ensures
            final(self)@ == merge_rules(old(self)@, other@),
    {
        let ghost a = self@;
        let ghost b = other@;
        assert(b.len() == other.rules.len());
        let mut rest = other.rules;
        let mut k: usize = 0;
        assert(rule_views(rest@) =~= b.skip(0));
        assert(b.take(0) =~= Seq::<SpecRule>::empty());
        while rest.len() > 0
            invariant
                k + rest@.len() == b.len(),
                b.len() <= usize::MAX,
                rule_views(rest@) == b.skip(k as int),
                self@ == merge_rules(a, b.take(k as int)),
            decreases rest@.len(),
        {
            let ghost old_rest = rest@;
            let r = rest.remove(0);
            assert(r == old_rest[0]);
            assert(rule_views(old_rest)[0] == b.skip(k as int)[0]);
            assert(r@ == b[k as int]);
            assert(rest@ =~= old_rest.skip(1));
            assert(rule_views(rest@) =~= b.skip(k + 1)) by {
                assert forall|j: int| 0 <= j < rest@.len() implies rule_views(rest@)[j] == b.skip(k + 1)[j] by {
                    assert(rest@[j] == old_rest[j + 1]);
                    assert(rule_views(old_rest)[j + 1] == b.skip(k as int)[j + 1]);
                }
            }
            assert(b.take(k + 1).drop_last() =~= b.take(k as int));
            let name = chars_of(r.name.as_str());
            proof {
                lemma_first_rule_has(self@, r.name@);
            }
            if self.find_rule_index(name.as_slice()).is_none() {
                let ghost before = self@;
                self.rules.push(r);
                assert(self@ =~= before.push(r@));
            }
            k += 1;
        }
        assert(b.take(b.len() as int) =~= b);
    }

    /// Get all rule names.
    pub fn rule_names(&self) -> (res: Vec<String>)
        ensures
            string_views(res@) == rule_names_of(self@),
    {
        let mut names: Vec<String> = Vec::new();
        let mut i: usize = 0;
        while i < self.rules.len()
            invariant
                i <= self.rules.len(),
                names@.len() == i,
                forall|j: int| 0 <= j < i ==> (#[trigger] names@[j])@ == self.rules@[j].name@,
            decreases self.rules.len() - i,
        {
            names.push(self.rules[i].name.clone());
            i += 1;
        }
        assert(string_views(names@) =~= rule_names_of(self@));
        names
    }
}

// ── Captures ───────────────────────────────────────────────────────────────

/// Whether a pattern uses captures or back-references anywhere inside it.
pub open spec fn spec_uses_captures(p: SpecPattern) -> bool
    decreases p, 0nat,
{
    match p {
        SpecPattern::Token(pred) => pred.capture is Some || pred.base_form_ref is Some,
        SpecPattern::WildcardCapture(_) => true,
        SpecPattern::Wildcard => false,
        SpecPattern::Sequence(items) => any_uses_captures(items, 0),
        SpecPattern::Alternative(items) => any_uses_captures(items, 0),
        SpecPattern::Optional(inner) => spec_uses_captures(*inner),
        SpecPattern::ZeroOrMore(inner) => spec_uses_captures(*inner),
        SpecPattern::OneOrMore(inner) => spec_uses_captures(*inner),
        SpecPattern::RuleRef(_) => false,
    }
}

/// Whether any of `items[i..]` uses captures.
pub open spec fn any_uses_captures(items: Seq<SpecPattern>, i: int) -> bool
    decreases items, items.len() - i,
{
    if 0 <= i < items.len() {
        spec_uses_captures(items[i]) || any_uses_captures(items, i + 1)
    } else {
        false
    }
}

/// Recursively check whether a pattern expression uses captures or back-references.
#[verifier::loop_isolation(false)]
pub fn pattern_uses_captures(expr: &PatternExpr) -> (res: bool)
    ensures
        res == spec_uses_captures(expr@),
    decreases expr,
{
    match expr {
        PatternExpr::Token(pred) => pred.capture.is_some() || pred.base_form_ref.is_some(),
        PatternExpr::WildcardCapture(_) => true,
        PatternExpr::Wildcard => false,
        PatternExpr::Sequence(items) | PatternExpr::Alternative(items) => {
            let ghost iv = match expr@ {
                SpecPattern::Sequence(s) => s,
                SpecPattern::Alternative(s) => s,
                _ => Seq::empty(),
            };
            let mut k: usize = items.len();
            let mut found = false;
            while k > 0
                invariant
                    k <= items.len(),
                    iv.len() == items.len(),
                    forall|j: int| 0 <= j < items.len() ==> iv[j] == (#[trigger] items@[j])@,
                    found == any_uses_captures(iv, k as int),
                decreases k,
            {
                k -= 1;
                proof {
                    assert(decreases_to!(items@ => items@[k as int]));
                }
                let u = pattern_uses_captures(&items[k]);
                found = u || found;
            }
            found
        },
        PatternExpr::Optional(inner) | PatternExpr::ZeroOrMore(inner) | PatternExpr::OneOrMore(inner) => {
            pattern_uses_captures(inner)
        },
        PatternExpr::RuleRef(_) => false,
    }
}


// ── Captures through rule references ──────────────────────────────────────

/// The rule names that `p` refers to, in order.
pub open spec fn pattern_refs(p: SpecPattern) -> Seq<Seq<char>>
    decreases p, 1int,
{
    match p {
        SpecPattern::Sequence(items) => items_refs(items, items.len() as int),
        SpecPattern::Alternative(items) => items_refs(items, items.len() as int),
        SpecPattern::Optional(inner) => pattern_refs(*inner),
        SpecPattern::ZeroOrMore(inner) => pattern_refs(*inner),
        SpecPattern::OneOrMore(inner) => pattern_refs(*inner),
        SpecPattern::RuleRef(name) => seq![name],
        _ => Seq::empty(),
    }
}

/// The rule names that `items[..k]` refer to, in order.
pub open spec fn items_refs(items: Seq<SpecPattern>, k: int) -> Seq<Seq<char>>
    decreases items, k,
{
    if 0 < k <= items.len() {
        items_refs(items, k - 1) + pattern_refs(items[k - 1])
    } else {
        Seq::empty()
    }
}

/// Rule `i` refers (by name, to the first rule of that name) to rule `j`.
pub open spec fn refers_to(g: Seq<SpecRule>, i: int, j: int) -> bool {
    exists|t: int|
        0 <= t < pattern_refs(g[i].pattern).len() && first_rule(g, #[trigger] pattern_refs(g[i].pattern)[t])
            == Some(j)
}

/// The rules reached from rule `s` by following at most `k` references.
pub open spec fn reach(g: Seq<SpecRule>, s: int, k: nat) -> Set<int>
    decreases k,
{
    if k == 0 {
        set![s]
    } else {
        let r = reach(g, s, (k - 1) as nat);
        Set::new(|j: int| r.contains(j) || exists|i: int| r.contains(i) && 0 <= i < g.len() && #[trigger] refers_to(g, i, j))
    }
}

/// Whether rule `name` (the first rule of that name), or a rule it reaches through rule
/// references, uses captures or back-references.
pub open spec fn spec_rule_uses_captures(g: Seq<SpecRule>, name: Seq<char>) -> bool {
    match first_rule(g, name) {
        Some(s) => exists|j: int| #[trigger] reach(g, s, g.len()).contains(j) && 0 <= j < g.len() && spec_uses_captures(g[j].pattern),
        None => false,
    }
}

proof fn lemma_reach_in_range(g: Seq<SpecRule>, s: int, k: nat)
    requires
        0 <= s < g.len(),
    ensures
        forall|j: int| #[trigger] reach(g, s, k).contains(j) ==> 0 <= j < g.len(),
    decreases k,
{
    if k > 0 {
        lemma_reach_in_range(g, s, (k - 1) as nat);
        assert forall|j: int| #[trigger] reach(g, s, k).contains(j) implies 0 <= j < g.len() by {
            let r = reach(g, s, (k - 1) as nat);
            if !r.contains(j) {
                let i = choose|i: int| r.contains(i) && 0 <= i < g.len() && #[trigger] refers_to(g, i, j);
                let t = choose|t: int|
                    0 <= t < pattern_refs(g[i].pattern).len() && first_rule(g, #[trigger] pattern_refs(g[i].pattern)[t])
                        == Some(j);
                lemma_first_rule_from_bounds(g, pattern_refs(g[i].pattern)[t], 0);
            }
        }
    }
}

/// Appends the rule names that `p` refers to.
#[verifier::loop_isolation(false)]
fn collect_refs(p: &PatternExpr, out: &mut Vec<String>)
    ensures
        string_views(final(out)@) == string_views(old(out)@) + pattern_refs(p@),
    decreases p,
{
    match p {
        PatternExpr::Sequence(items) | PatternExpr::Alternative(items) => {
            proof {
                lemma_group_views(*items);
            }
            let ghost iv = pattern_views(items@);
            let ghost start = string_views(out@);
            let mut i: usize = 0;
            assert(start + items_refs(iv, 0) =~= start);
            while i < items.len()
                invariant
                    i <= items.len(),
                    iv == pattern_views(items@),
                    string_views(out@) == start + items_refs(iv, i as int),
                decreases items.len() - i,
            {
                proof {
                    assert(decreases_to!(items@ => items@[i as int]));
                }
                collect_refs(&items[i], out);
                assert(iv[i as int] == items@[i as int]@);
                assert(start + items_refs(iv, i + 1) =~= start + items_refs(iv, i as int) + pattern_refs(iv[i as int]));
                i += 1;
            }
        },
        PatternExpr::Optional(inner) | PatternExpr::ZeroOrMore(inner) | PatternExpr::OneOrMore(inner) => {
            collect_refs(inner, out);
        },
        PatternExpr::RuleRef(name) => {
            let ghost before = string_views(out@);
            out.push(name.clone());
            assert(string_views(out@) =~= before + seq![name@]);
        },
        _ => {
            assert(string_views(out@) =~= string_views(out@) + pattern_refs(p@));
        },
    }
}

impl Grammar {
    /// The rules referred to by the rules marked in `cur`, together with those.
    fn reach_step(&self, cur: &Vec<bool>) -> (res: Vec<bool>)
        requires
            cur.len() == self.rules.len(),
        ensures
            res.len() == cur.len(),
            forall|j: int| 0 <= j < cur.len() ==> #[trigger] res@[j] == (cur@[j] || exists|i: int|
                0 <= i < cur.len() && cur@[i] && #[trigger] refers_to(self@, i, j)),
    {
        let ghost g = self@;
        let n = cur.len();
        let mut next: Vec<bool> = Vec::new();
        let mut j: usize = 0;
        while j < n
            invariant
                j <= n == cur.len(),
                next@ == cur@.take(j as int),
            decreases n - j,
        {
            next.push(cur[j]);
            j += 1;
            assert(next@ =~= cur@.take(j as int));
        }
        assert(cur@.take(n as int) =~= cur@);
        let mut i: usize = 0;
        while i < n
            invariant
                i <= n == cur.len() == self.rules.len(),
                g == self@,
                next.len() == n,
                forall|j: int| 0 <= j < n ==> #[trigger] next@[j] == (cur@[j] || exists|ii: int|
                    0 <= ii < i && cur@[ii] && #[trigger] refers_to(g, ii, j)),
            decreases n - i,
        {
            if cur[i] {
                let mut refs: Vec<String> = Vec::new();
                collect_refs(&self.rules[i].pattern, &mut refs);
                let ghost rv = string_views(refs@);
                assert(rv =~= pattern_refs(g[i as int].pattern));
                let ghost before = next@;
                let mut t: usize = 0;
                while t < refs.len()
                    invariant
                        t <= refs.len(),
                        i < n == cur.len() == self.rules.len(),
                        g == self@,
                        rv == string_views(refs@),
                        rv == pattern_refs(g[i as int].pattern),
                        next.len() == n,
                        before.len() == n,
                        forall|j: int| 0 <= j < n ==> #[trigger] next@[j] == (before[j] || exists|tt: int|
                            0 <= tt < t && first_rule(g, rv[tt]) == Some(j)),
                    decreases refs.len() - t,
                {
                    let nm = chars_of(refs[t].as_str());
                    assert(nm@ == rv[t as int]);
                    proof {
                        lemma_first_rule_from_bounds(g, rv[t as int], 0);
                    }
                    match self.find_rule_index(nm.as_slice()) {
                        Some(target) => {
                            next.set(target, true);
                        },
                        None => {},
                    }
                    t += 1;
                }
                assert forall|j: int| 0 <= j < n implies #[trigger] next@[j] == (cur@[j] || exists|ii: int|
                    0 <= ii < i + 1 && cur@[ii] && #[trigger] refers_to(g, ii, j)) by {
                    if next@[j] && !before[j] {
                        let tt = choose|tt: int| 0 <= tt < refs.len() && first_rule(g, rv[tt]) == Some(j);
                        assert(refers_to(g, i as int, j));
                    }
                    if exists|ii: int| 0 <= ii < i + 1 && cur@[ii] && #[trigger] refers_to(g, ii, j) {
                        let ii = choose|ii: int| 0 <= ii < i + 1 && cur@[ii] && #[trigger] refers_to(g, ii, j);
                        if ii == i {
                            let tt = choose|tt: int|
                                0 <= tt < pattern_refs(g[i as int].pattern).len() && first_rule(
                                    g,
                                    #[trigger] pattern_refs(g[i as int].pattern)[tt],
                                ) == Some(j);
                            assert(first_rule(g, rv[tt]) == Some(j));
                        }
                    }
                }
            } else {
                assert forall|j: int| 0 <= j < n implies #[trigger] next@[j] == (cur@[j] || exists|ii: int|
                    0 <= ii < i + 1 && cur@[ii] && #[trigger] refers_to(g, ii, j)) by {
                    if exists|ii: int| 0 <= ii < i + 1 && cur@[ii] && #[trigger] refers_to(g, ii, j) {
                        let ii = choose|ii: int| 0 <= ii < i + 1 && cur@[ii] && #[trigger] refers_to(g, ii, j);
                        assert(ii != i);
                    }
                }
            }
            i += 1;
        }
        next
    }

    /// Check whether a rule (transitively through rule references) uses captures.
    pub fn rule_uses_captures(&self, rule_name: &str) -> (res: bool)
        ensures
            res == spec_rule_uses_captures(self@, rule_name@),
    {
        let ghost g = self@;
        let n = self.rules.len();
        let nm = chars_of(rule_name);
        proof {
            lemma_first_rule_from_bounds(g, rule_name@, 0);
        }
        let s = match self.find_rule_index(nm.as_slice()) {
            None => return false,
            Some(s) => s,
        };
        let mut cur: Vec<bool> = Vec::new();
        let mut j: usize = 0;
        while j < n
            invariant
                j <= n == self.rules.len(),
                cur@.len() == j,
                forall|x: int| 0 <= x < j ==> #[trigger] cur@[x] == (x == s),
            decreases n - j,
        {
            cur.push(j == s);
            j += 1;
        }
        let mut k: usize = 0;
        while k < n
            invariant
                k <= n == self.rules.len() == cur.len(),
                g == self@,
                0 <= s < n,
                forall|x: int| 0 <= x < n ==> #[trigger] cur@[x] == reach(g, s as int, k as nat).contains(x),
            decreases n - k,
        {
            let next = self.reach_step(&cur);
            proof {
                lemma_reach_in_range(g, s as int, k as nat);
                assert forall|x: int| 0 <= x < n implies #[trigger] next@[x] == reach(g, s as int, (k + 1) as nat).contains(x) by {
                    let r = reach(g, s as int, k as nat);
                    if exists|i: int| r.contains(i) && 0 <= i < g.len() && #[trigger] refers_to(g, i, x) {
                        let i = choose|i: int| r.contains(i) && 0 <= i < g.len() && #[trigger] refers_to(g, i, x);
                        assert(cur@[i]);
                    }
                    if exists|i: int| 0 <= i < cur.len() && cur@[i] && #[trigger] refers_to(g, i, x) {
                        let i = choose|i: int| 0 <= i < cur.len() && cur@[i] && #[trigger] refers_to(g, i, x);
                        assert(r.contains(i));
                    }
                }
            }
            cur = next;
            k += 1;
        }
        proof {
            lemma_reach_in_range(g, s as int, n as nat);
        }
        let mut j: usize = 0;
        while j < n
            invariant
                j <= n == self.rules.len() == cur.len(),
                g == self@,
                first_rule(g, rule_name@) == Some(s as int),
                forall|x: int| 0 <= x < n ==> #[trigger] cur@[x] == reach(g, s as int, n as nat).contains(x),
                forall|x: int| 0 <= x < j ==> !(#[trigger] reach(g, s as int, n as nat).contains(x) && spec_uses_captures(g[x].pattern)),
            decreases n - j,
        {
            if cur[j] && pattern_uses_captures(&self.rules[j].pattern) {
                assert(g[j as int] == self.rules@[j as int]@);
                assert(g.len() == n);
                assert(reach(g, s as int, g.len()).contains(j as int) && 0 <= j < g.len() && spec_uses_captures(
                    g[j as int].pattern,
                ));
                let ghost ss = first_rule(g, rule_name@)->0;
                assert(ss == s as int);
                assert(exists|jj: int| #[trigger] reach(g, ss, g.len()).contains(jj) && 0 <= jj < g.len()
                    && spec_uses_captures(g[jj].pattern));
                assert(spec_rule_uses_captures(g, rule_name@));
                return true;
            }
            j += 1;
        }
        false
    }
}

} // verus!
