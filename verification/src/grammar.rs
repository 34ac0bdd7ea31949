//! The grammar matcher: grammar rules parsed once, then matched against many token streams,
//! with each match placed among the bunsetsu (phrase chunks) of its stream.
use vstd::prelude::*;
use crate::bunsetsu::{bunsetsu_of, segment_bunsetsu, spec_bunsetsu_of, spec_segment, Bunsetsu};
use crate::matcher::{
    find_all_matches, find_matches, law_find_matches_spans, match_views, spans_ordered, spec_find_all_matches,
    spec_find_matches, MatchResult, SpecMatch,
};
use crate::node::{node_views, MecabNode, SpecNode};
use crate::pack::{gunzip_text, gunzip_text_of};
use crate::parser::{parse_grammar, spec_parse_grammar};
use crate::syntax::{
    example_views, first_rule, lemma_first_rule_from_bounds, merge_rules, opt_string_view, rule_names_of,
    string_views, Example, Grammar, SpecExample, SpecRule,
};
use crate::text::chars_of;

verus! {

/// A translation of an example sentence.
pub struct ExampleTranslation {
    /// Language code: "zh", "en", "ko", etc.
    pub lang: String,
    /// Translated text
    pub text: String,
}

/// An example sentence with optional translations.
pub struct GrammarExample {
    /// Original sentence (typically Japanese)
    pub sentence: String,
    /// Translations in other languages
    pub translations: Vec<ExampleTranslation>,
}

/// A match found by the grammar matcher.
pub struct GrammarMatch {
    /// Name of the rule that matched
    pub rule: String,
    /// Start index in the node array (inclusive)
    pub start: u32,
    /// End index in the node array (exclusive)
    pub end: u32,
    /// The matched nodes
    pub nodes: Vec<MecabNode>,
    /// Indices of nodes matched by fixed (non-wildcard) pattern elements.
    /// Only these nodes should be highlighted as part of the grammar pattern.
    pub fixed_indices: Vec<u32>,
    /// JLPT levels from rule metadata
    pub levels: Vec<String>,
    /// Description from rule metadata
    pub description: Option<String>,
    /// Connection pattern (接続方式)
    pub connection: Option<String>,
    /// Example sentences
    pub examples: Vec<GrammarExample>,
    /// Bunsetsu (phrase chunk) index where this match starts.
    /// -1 if the match start is not inside any bunsetsu (e.g. punctuation).
    pub bunsetsu_start: i32,
    /// Bunsetsu index where this match ends (last token).
    pub bunsetsu_end: i32,
    /// Number of bunsetsu this match spans.
    pub bunsetsu_span: u32,
}

/// EBNF-style grammar pattern matcher for MeCab token streams.
///
/// Parse grammar rules once, then match against multiple inputs.
pub struct GrammarMatcher {
    pub grammar: Grammar,
}

/// A bunsetsu (phrase chunk) result.
pub struct BunsetsuChunk {
    /// Start token index (inclusive).
    pub start: u32,
    /// End token index (exclusive).
    pub end: u32,
    /// Index of the head (content word) token.
    pub head: u32,
    /// Surface text of the bunsetsu.
    pub surface: String,
}

// ── Views ──────────────────────────────────────────────────────────────────

pub struct SpecGrammarMatch {
    pub rule: Seq<char>,
    pub start: u32,
    pub end: u32,
    pub nodes: Seq<SpecNode>,
    pub fixed_indices: Seq<u32>,
    pub levels: Seq<Seq<char>>,
    pub description: Option<Seq<char>>,
    pub connection: Option<Seq<char>>,
    pub examples: Seq<SpecExample>,
    pub bunsetsu_start: i32,
    pub bunsetsu_end: i32,
    pub bunsetsu_span: u32,
}

pub open spec fn translation_pairs(v: Seq<ExampleTranslation>) -> Seq<(Seq<char>, Seq<char>)> {
    v.map_values(|t: ExampleTranslation| (t.lang@, t.text@))
}

impl View for GrammarExample {
    type V = SpecExample;

    open spec fn view(&self) -> SpecExample {
        SpecExample { sentence: self.sentence@, translations: translation_pairs(self.translations@) }
    }
}

pub open spec fn grammar_example_views(v: Seq<GrammarExample>) -> Seq<SpecExample> {
    v.map_values(|e: GrammarExample| e@)
}

impl View for GrammarMatch {
    type V = SpecGrammarMatch;

    open spec fn view(&self) -> SpecGrammarMatch {
        SpecGrammarMatch {
            rule: self.rule@,
            start: self.start,
            end: self.end,
            nodes: node_views(self.nodes@),
            fixed_indices: self.fixed_indices@,
            levels: string_views(self.levels@),
            description: opt_string_view(self.description),
            connection: opt_string_view(self.connection),
            examples: grammar_example_views(self.examples@),
            bunsetsu_start: self.bunsetsu_start,
            bunsetsu_end: self.bunsetsu_end,
            bunsetsu_span: self.bunsetsu_span,
        }
    }
}

pub open spec fn grammar_match_views(v: Seq<GrammarMatch>) -> Seq<SpecGrammarMatch> {
    v.map_values(|m: GrammarMatch| m@)
}

// ── Specification ──────────────────────────────────────────────────────────

/// The index of the bunsetsu that holds token `idx`, or -1 when none does.
pub open spec fn bunsetsu_index(chunks: Seq<Bunsetsu>, idx: int) -> i32 {
    match spec_bunsetsu_of(chunks, idx) {
        Some(i) => i as i32,
        None => -1i32,
    }
}

/// A match placed among the bunsetsu of its token stream.
pub open spec fn grammar_match_of(m: SpecMatch, nodes: Seq<SpecNode>, chunks: Seq<Bunsetsu>) -> SpecGrammarMatch {
    let bs = bunsetsu_index(chunks, m.start);
    let be = if m.end > m.start {
        bunsetsu_index(chunks, m.end - 1)
    } else {
        bs
    };
    SpecGrammarMatch {
        rule: m.rule_name,
        start: m.start as u32,
        end: m.end as u32,
        nodes: nodes.subrange(m.start, m.end),
        fixed_indices: m.fixed_indices.map_values(|i: int| i as u32),
        levels: m.levels,
        description: m.description,
        connection: m.connection,
        examples: m.examples,
        bunsetsu_start: bs,
        bunsetsu_end: be,
        bunsetsu_span: if bs >= 0 && be >= 0 {
            (be - bs + 1) as u32
        } else {
            0
        },
    }
}

/// The bunsetsu limit set for rule `name` (that of the first rule so named); 0 for none.
pub open spec fn rule_limit(g: Seq<SpecRule>, name: Seq<char>) -> u8 {
    match first_rule(g, name) {
        Some(i) => if 0 <= i < g.len() {
            g[i].max_bunsetsu_span
        } else {
            0
        },
        None => 0,
    }
}

/// Whether a match spans more bunsetsu than the limit of its rule.
pub open spec fn exceeds_limit(g: Seq<SpecRule>, m: SpecGrammarMatch) -> bool {
    rule_limit(g, m.rule) > 0 && m.bunsetsu_span > rule_limit(g, m.rule)
}

/// The matches of `ms` placed among the bunsetsu, without those over their rule's limit.
pub open spec fn placed_within(
    g: Seq<SpecRule>,
    ms: Seq<SpecMatch>,
    nodes: Seq<SpecNode>,
    chunks: Seq<Bunsetsu>,
    k: int,
) -> Seq<SpecGrammarMatch>
    decreases k,
{
    if k <= 0 || k > ms.len() {
        Seq::empty()
    } else {
        let rest = placed_within(g, ms, nodes, chunks, k - 1);
        let gm = grammar_match_of(ms[k - 1], nodes, chunks);
        if exceeds_limit(g, gm) {
            rest
        } else {
            rest.push(gm)
        }
    }
}

/// What `find` reports: the matches of rule `name`, placed among the bunsetsu of `nodes`,
/// without those over the rule's bunsetsu limit.
pub open spec fn spec_find(g: Seq<SpecRule>, name: Seq<char>, nodes: Seq<SpecNode>) -> Seq<SpecGrammarMatch> {
    let ms = spec_find_matches(g, name, nodes);
    placed_within(g, ms, nodes, spec_segment(nodes), ms.len() as int)
}

/// What `find_all` reports: the matches of all rules in reporting order, placed among the
/// bunsetsu of `nodes`, without those over their rule's bunsetsu limit.
pub open spec fn spec_find_all(g: Seq<SpecRule>, nodes: Seq<SpecNode>) -> Seq<SpecGrammarMatch> {
    let ms = spec_find_all_matches(g, nodes);
    placed_within(g, ms, nodes, spec_segment(nodes), ms.len() as int)
}

/// The concatenated surfaces of `nodes[start..end]`.
pub open spec fn surfaces(nodes: Seq<SpecNode>, start: int, end: int) -> Seq<char>
    decreases end - start,
{
    if end <= start {
        Seq::empty()
    } else {
        surfaces(nodes, start, end - 1) + nodes[end - 1].surface
    }
}

pub struct SpecChunk {
    pub start: u32,
    pub end: u32,
    pub head: u32,
    pub surface: Seq<char>,
}

impl View for BunsetsuChunk {
    type V = SpecChunk;

    open spec fn view(&self) -> SpecChunk {
        SpecChunk { start: self.start, end: self.end, head: self.head, surface: self.surface@ }
    }
}

pub open spec fn chunk_views(v: Seq<BunsetsuChunk>) -> Seq<SpecChunk> {
    v.map_values(|c: BunsetsuChunk| c@)
}

/// The bunsetsu of `nodes` with their surface text.
pub open spec fn spec_chunks(nodes: Seq<SpecNode>) -> Seq<SpecChunk> {
    spec_segment(nodes).map_values(
        |b: Bunsetsu|
            SpecChunk {
                start: b.start as u32,
                end: b.end as u32,
                head: b.head as u32,
                surface: surfaces(nodes, b.start as int, b.end as int),
            },
    )
}

// ── Laws ───────────────────────────────────────────────────────────────────

proof fn lemma_placed_within(
    g: Seq<SpecRule>,
    ms: Seq<SpecMatch>,
    nodes: Seq<SpecNode>,
    chunks: Seq<Bunsetsu>,
    k: int,
)
    ensures
        forall|i: int| 0 <= i < placed_within(g, ms, nodes, chunks, k).len() ==> !exceeds_limit(
            g,
            #[trigger] placed_within(g, ms, nodes, chunks, k)[i],
        ),
    decreases k,
{
    if 0 < k <= ms.len() {
        lemma_placed_within(g, ms, nodes, chunks, k - 1);
        let rest = placed_within(g, ms, nodes, chunks, k - 1);
        let all = placed_within(g, ms, nodes, chunks, k);
        assert forall|i: int| 0 <= i < all.len() implies !exceeds_limit(g, #[trigger] all[i]) by {
            if i < rest.len() {
                assert(all[i] == rest[i]);
            }
        }
    }
}

/// No match that `find` or `find_all` reports spans more bunsetsu than the limit set for its
/// rule.
pub proof fn law_reported_within_limits(g: Seq<SpecRule>, name: Seq<char>, nodes: Seq<SpecNode>)
    ensures
        forall|i: int| 0 <= i < spec_find(g, name, nodes).len() ==> !exceeds_limit(
            g,
            #[trigger] spec_find(g, name, nodes)[i],
        ),
        forall|i: int| 0 <= i < spec_find_all(g, nodes).len() ==> !exceeds_limit(
            g,
            #[trigger] spec_find_all(g, nodes)[i],
        ),
{
    let ms = spec_find_matches(g, name, nodes);
    lemma_placed_within(g, ms, nodes, spec_segment(nodes), ms.len() as int);
    let ma = spec_find_all_matches(g, nodes);
    lemma_placed_within(g, ma, nodes, spec_segment(nodes), ma.len() as int);
}

proof fn lemma_placed_rules(
    g: Seq<SpecRule>,
    ms: Seq<SpecMatch>,
    nodes: Seq<SpecNode>,
    chunks: Seq<Bunsetsu>,
    k: int,
    name: Seq<char>,
)
    requires
        forall|t: int| 0 <= t < ms.len() ==> (#[trigger] ms[t]).rule_name == name,
    ensures
        forall|j: int| 0 <= j < placed_within(g, ms, nodes, chunks, k).len() ==> (#[trigger] placed_within(
            g,
            ms,
            nodes,
            chunks,
            k,
        )[j]).rule == name,
    decreases k,
{
    if 0 < k <= ms.len() {
        lemma_placed_rules(g, ms, nodes, chunks, k - 1, name);
        let rest = placed_within(g, ms, nodes, chunks, k - 1);
        let all = placed_within(g, ms, nodes, chunks, k);
        assert(ms[k - 1].rule_name == name);
        assert forall|j: int| 0 <= j < all.len() implies (#[trigger] all[j]).rule == name by {
            if j < rest.len() {
                assert(all[j] == rest[j]);
            }
        }
    }
}

proof fn lemma_first_rule_same_names(a: Seq<SpecRule>, b: Seq<SpecRule>, name: Seq<char>, i: int)
    requires
        a.len() == b.len(),
        forall|j: int| 0 <= j < a.len() ==> (#[trigger] a[j]).name == b[j].name,
    ensures
        crate::syntax::first_rule_from(a, name, i) == crate::syntax::first_rule_from(b, name, i),
    decreases a.len() - i,
{
    if 0 <= i < a.len() {
        lemma_first_rule_same_names(a, b, name, i + 1);
    }
}

/// Once the bunsetsu limit of rule `name` is set to `k` (`k > 0`, as `set_max_bunsetsu` does),
/// every match that `find` reports for that rule spans at most `k` bunsetsu.
pub proof fn law_limit_respected(g: Seq<SpecRule>, name: Seq<char>, k: u8, nodes: Seq<SpecNode>)
    requires
        first_rule(g, name) is Some,
        k > 0,
    ensures
        ({
            let i = first_rule(g, name)->0;
            let g2 = g.update(i, SpecRule { max_bunsetsu_span: k, ..g[i] });
            forall|j: int| 0 <= j < spec_find(g2, name, nodes).len() ==> (#[trigger] spec_find(g2, name, nodes)[j]).bunsetsu_span <= k
        }),
{
    let i = first_rule(g, name)->0;
    lemma_first_rule_from_bounds(g, name, 0);
    let g2 = g.update(i, SpecRule { max_bunsetsu_span: k, ..g[i] });
    lemma_first_rule_same_names(g, g2, name, 0);
    assert(rule_limit(g2, name) == k);
    let ms = spec_find_matches(g2, name, nodes);
    law_find_matches_spans(g2, name, nodes);
    lemma_placed_rules(g2, ms, nodes, spec_segment(nodes), ms.len() as int, name);
    law_reported_within_limits(g2, name, nodes);
    let r = spec_find(g2, name, nodes);
    assert forall|j: int| 0 <= j < r.len() implies (#[trigger] r[j]).bunsetsu_span <= k by {
        assert(r[j].rule == name);
        assert(!exceeds_limit(g2, r[j]));
    }
}

/// Whether a placed match keeps within the bunsetsu limit of its rule in `g` (0: no limit).
pub open spec fn keeps_limit(g: Seq<SpecRule>) -> spec_fn(SpecGrammarMatch) -> bool {
    |m: SpecGrammarMatch| rule_limit(g, m.rule) == 0 || m.bunsetsu_span <= rule_limit(g, m.rule) as u32
}

proof fn lemma_placed_filter(
    g: Seq<SpecRule>,
    ms: Seq<SpecMatch>,
    nodes: Seq<SpecNode>,
    chunks: Seq<Bunsetsu>,
    k: int,
)
    requires
        0 <= k <= ms.len(),
    ensures
        placed_within(g, ms, nodes, chunks, k) == ms.take(k).map_values(
            |m: SpecMatch| grammar_match_of(m, nodes, chunks),
        ).filter(keeps_limit(g)),
    decreases k,
{
    let f = |m: SpecMatch| grammar_match_of(m, nodes, chunks);
    reveal(Seq::filter);
    if k > 0 {
        lemma_placed_filter(g, ms, nodes, chunks, k - 1);
        let s = ms.take(k).map_values(f);
        assert(s.drop_last() =~= ms.take(k - 1).map_values(f));
        assert(s.last() == grammar_match_of(ms[k - 1], nodes, chunks));
    } else {
        assert(ms.take(0).map_values(f) =~= Seq::<SpecGrammarMatch>::empty());
    }
}

/// `find` and `find_all` report exactly the matches, placed among the bunsetsu and in their
/// order, whose bunsetsu span is at most their rule's limit (every match where the limit is 0):
/// a span equal to the limit is kept, only a longer one is dropped.
pub proof fn law_find_keeps_within_limit(g: Seq<SpecRule>, name: Seq<char>, nodes: Seq<SpecNode>)
    ensures
        spec_find(g, name, nodes) == spec_find_matches(g, name, nodes).map_values(
            |m: SpecMatch| grammar_match_of(m, nodes, spec_segment(nodes)),
        ).filter(|m: SpecGrammarMatch| rule_limit(g, m.rule) == 0 || m.bunsetsu_span <= rule_limit(g, m.rule) as u32),
        spec_find_all(g, nodes) == spec_find_all_matches(g, nodes).map_values(
            |m: SpecMatch| grammar_match_of(m, nodes, spec_segment(nodes)),
        ).filter(|m: SpecGrammarMatch| rule_limit(g, m.rule) == 0 || m.bunsetsu_span <= rule_limit(g, m.rule) as u32),
{
    let ms = spec_find_matches(g, name, nodes);
    let ma = spec_find_all_matches(g, nodes);
    lemma_placed_filter(g, ms, nodes, spec_segment(nodes), ms.len() as int);
    lemma_placed_filter(g, ma, nodes, spec_segment(nodes), ma.len() as int);
    assert(ms.take(ms.len() as int) =~= ms);
    assert(ma.take(ma.len() as int) =~= ma);
    assert(keeps_limit(g) =~= (|m: SpecGrammarMatch| rule_limit(g, m.rule) == 0 || m.bunsetsu_span <= rule_limit(g, m.rule) as u32));
}

// ── Implementation ─────────────────────────────────────────────────────────

fn index_i32(chunks: &[Bunsetsu], idx: usize) -> (res: i32)
    ensures
        res == bunsetsu_index(chunks@, idx as int),
{
    proof {
        crate::bunsetsu::lemma_chunk_of_from(chunks@, idx as int, 0);
    }
    match bunsetsu_of(chunks, idx) {
        Some(i) => i as i32,
        None => -1,
    }
}

fn copy_nodes(nodes: &[MecabNode], start: usize, end: usize) -> (res: Vec<MecabNode>)
    requires
        start <= end <= nodes.len(),
    ensures
        node_views(res@) == node_views(nodes@).subrange(start as int, end as int),
{
    let mut v: Vec<MecabNode> = Vec::new();
    let mut i: usize = start;
    while i < end
        invariant
            start <= i <= end <= nodes.len(),
            node_views(v@) == node_views(nodes@).subrange(start as int, i as int),
        decreases end - i,
    {
        let ghost before = node_views(v@);
        let d = nodes[i].duplicate();
        v.push(d);
        assert(node_views(v@) =~= before.push(d@));
        assert(node_views(nodes@)[i as int] == nodes@[i as int]@);
        assert(node_views(nodes@).subrange(start as int, (i + 1) as int) =~= node_views(nodes@).subrange(
            start as int,
            i as int,
        ).push(node_views(nodes@)[i as int]));
        i += 1;
    }
    v
}

fn example_of(e: Example) -> (res: GrammarExample)
    ensures
        res@ == e@,
{
    let ghost ev = e@;
    let mut out: Vec<ExampleTranslation> = Vec::new();
    let mut rest = e.translations;
    let ghost tv = crate::syntax::translation_views(rest@);
    assert(tv == ev.translations);
    assert(tv.len() == rest.len());
    let mut k: usize = 0;
    assert(rest@ =~= rest@.skip(0));
    while rest.len() > 0
        invariant
            k + rest@.len() == tv.len(),
            tv.len() <= usize::MAX,
            crate::syntax::translation_views(rest@) == tv.skip(k as int),
            translation_pairs(out@) == tv.take(k as int),
        decreases rest@.len(),
    {
        let ghost old_rest = rest@;
        let (lang, text) = rest.remove(0);
        assert(crate::syntax::translation_views(old_rest)[0] == tv.skip(k as int)[0]);
        assert((lang@, text@) == tv[k as int]);
        assert(rest@ =~= old_rest.skip(1));
        assert(crate::syntax::translation_views(rest@) =~= tv.skip(k + 1)) by {
            assert forall|j: int| 0 <= j < rest@.len() implies crate::syntax::translation_views(rest@)[j] == tv.skip(
                k + 1,
            )[j] by {
                assert(rest@[j] == old_rest[j + 1]);
                assert(crate::syntax::translation_views(old_rest)[j + 1] == tv.skip(k as int)[j + 1]);
            }
        }
        let ghost before = translation_pairs(out@);
        let t = ExampleTranslation { lang, text };
        out.push(t);
        assert(translation_pairs(out@) =~= before.push((t.lang@, t.text@)));
        assert(tv.take(k + 1) =~= tv.take(k as int).push(tv[k as int]));
        k += 1;
    }
    assert(tv.take(tv.len() as int) =~= tv);
    GrammarExample { sentence: e.sentence, translations: out }
}

fn examples_of(v: Vec<Example>) -> (res: Vec<GrammarExample>)
    ensures
        grammar_example_views(res@) == example_views(v@),
{
    let ghost ev = example_views(v@);
    assert(ev.len() == v.len());
    let mut out: Vec<GrammarExample> = Vec::new();
    let mut rest = v;
    let mut k: usize = 0;
    assert(example_views(rest@) =~= ev.skip(0));
    while rest.len() > 0
        invariant
            k + rest@.len() == ev.len(),
            ev.len() <= usize::MAX,
            example_views(rest@) == ev.skip(k as int),
            grammar_example_views(out@) == ev.take(k as int),
        decreases rest@.len(),
    {
        let ghost old_rest = rest@;
        let e = rest.remove(0);
        assert(example_views(old_rest)[0] == ev.skip(k as int)[0]);
        assert(e@ == ev[k as int]);
        assert(rest@ =~= old_rest.skip(1));
        assert(example_views(rest@) =~= ev.skip(k + 1)) by {
            assert forall|j: int| 0 <= j < rest@.len() implies example_views(rest@)[j] == ev.skip(k + 1)[j] by {
                assert(rest@[j] == old_rest[j + 1]);
                assert(example_views(old_rest)[j + 1] == ev.skip(k as int)[j + 1]);
            }
        }
        let ghost before = grammar_example_views(out@);
        let ge = example_of(e);
        out.push(ge);
        assert(grammar_example_views(out@) =~= before.push(ge@));
        assert(ev.take(k + 1) =~= ev.take(k as int).push(ev[k as int]));
        k += 1;
    }
    assert(ev.take(ev.len() as int) =~= ev);
    out
}

/// A match placed among the bunsetsu of its token stream.
fn to_grammar_match(m: MatchResult, nodes: &[MecabNode], chunks: &[Bunsetsu]) -> (res: GrammarMatch)
    requires
        m.start <= m.end <= nodes.len(),
    ensures
        res@ == grammar_match_of(m@, node_views(nodes@), chunks@),
{
    let ghost mv = m@;
    let bs = index_i32(chunks, m.start);
    let be = if m.end > m.start {
        index_i32(chunks, m.end - 1)
    } else {
        bs
    };
    let bspan: u32 = if bs >= 0 && be >= 0 {
        ((be as i64) - (bs as i64) + 1) as u32
    } else {
        0
    };
    let mut fixed: Vec<u32> = Vec::new();
    let mut i: usize = 0;
    while i < m.fixed_indices.len()
        invariant
            i <= m.fixed_indices.len(),
            fixed@.len() == i,
            forall|j: int| 0 <= j < i ==> #[trigger] fixed@[j] == (m.fixed_indices@[j] as int) as u32,
        decreases m.fixed_indices.len() - i,
    {
        fixed.push(m.fixed_indices[i] as u32);
        i += 1;
    }
    assert(fixed@ =~= mv.fixed_indices.map_values(|x: int| x as u32));
    let matched = copy_nodes(nodes, m.start, m.end);
    let examples = examples_of(m.examples);
    GrammarMatch {
        rule: m.rule_name,
        start: m.start as u32,
        end: m.end as u32,
        nodes: matched,
        fixed_indices: fixed,
        levels: m.levels,
        description: m.description,
        connection: m.connection,
        examples,
        bunsetsu_start: bs,
        bunsetsu_end: be,
        bunsetsu_span: bspan,
    }
}

impl GrammarMatcher {
    /// The bunsetsu limit of rule `name`.
    fn limit_of(&self, name: &str) -> (res: u8)
        ensures
            res == rule_limit(self.grammar@, name@),
    {
        let nc = chars_of(name);
        proof {
            lemma_first_rule_from_bounds(self.grammar@, name@, 0);
        }
        match self.grammar.find_rule_index(nc.as_slice()) {
            Some(i) => {
                assert(self.grammar@[i as int] == self.grammar.rules@[i as int]@);
                self.grammar.rules[i].max_bunsetsu_span
            },
            None => 0,
        }
    }

    /// Places the matches among the bunsetsu, leaving out those over their rule's limit.
    fn place(&self, results: Vec<MatchResult>, nodes: &[MecabNode], chunks: &[Bunsetsu]) -> (res: Vec<GrammarMatch>)
        requires
            forall|i: int| 0 <= i < results@.len() ==> (#[trigger] results@[i]).start <= results@[i].end
                <= nodes.len(),
        ensures
            grammar_match_views(res@) == placed_within(
                self.grammar@,
                match_views(results@),
                node_views(nodes@),
                chunks@,
                results@.len() as int,
            ),
    {
        let ghost g = self.grammar@;
        let ghost ms = match_views(results@);
        let ghost nv = node_views(nodes@);
        let ghost all = results@;
        let mut out: Vec<GrammarMatch> = Vec::new();
        let mut rest = results;
        let mut k: usize = 0;
        assert(ms.len() == all.len());
        assert(all.len() == rest.len());
        assert(rest@ =~= all.skip(0));
        assert(grammar_match_views(out@) =~= placed_within(g, ms, nv, chunks@, 0));
        while rest.len() > 0
            invariant
                k + rest@.len() == all.len(),
                all.len() <= usize::MAX,
                ms == match_views(all),
                rest@ == all.skip(k as int),
                forall|i: int| 0 <= i < all.len() ==> (#[trigger] all[i]).start <= all[i].end <= nodes.len(),
                g == self.grammar@,
                nv == node_views(nodes@),
                grammar_match_views(out@) == placed_within(g, ms, nv, chunks@, k as int),
            decreases rest@.len(),
        {
            let ghost old_rest = rest@;
            let m = rest.remove(0);
            assert(m == all[k as int]);
            assert(rest@ =~= all.skip(k + 1));
            let ghost mv = m@;
            assert(mv == ms[k as int]);
            let gm = to_grammar_match(m, nodes, chunks);
            let limit = self.limit_of(gm.rule.as_str());
            if !(limit > 0 && gm.bunsetsu_span > limit as u32) {
                let ghost before = grammar_match_views(out@);
                out.push(gm);
                assert(grammar_match_views(out@) =~= before.push(gm@));
            }
            k += 1;
        }
        out
    }

    /// Create a matcher from inline grammar text.
    pub fn new(grammar_text: String) -> (res: Result<GrammarMatcher, String>)
        ensures
            match spec_parse_grammar(grammar_text@) {
                Ok(rs) => res matches Ok(m) && m.grammar@ == rs,
                Err(e) => res matches Err(x) && x@ == "Grammar parse error: "@ + e,
            },
    {
        match parse_grammar(grammar_text.as_str()) {
            Ok(grammar) => Ok(GrammarMatcher { grammar }),
            Err(e) => {
                let mut m = String::new();
                m.append("Grammar parse error: ");
                m.append(e.as_str());
                Err(m)
            },
        }
    }

    /// Find all matches of a specific rule in the given nodes.
    pub fn find(&self, rule_name: String, nodes: Vec<MecabNode>) -> (res: Vec<GrammarMatch>)
        ensures
            grammar_match_views(res@) == spec_find(self.grammar@, rule_name@, node_views(nodes@)),
    {
        let chunks = segment_bunsetsu(nodes.as_slice());
        let results = find_matches(&self.grammar, rule_name.as_str(), nodes.as_slice());
        proof {
            law_find_matches_spans(self.grammar@, rule_name@, node_views(nodes@));
            assert forall|i: int| 0 <= i < results@.len() implies (#[trigger] results@[i]).start <= results@[i].end
                <= nodes.len() by {
                assert(match_views(results@)[i] == results@[i]@);
            }
        }
        self.place(results, nodes.as_slice(), chunks.as_slice())
    }

    /// Find all matches of ALL rules in the given nodes.
    pub fn find_all(&self, nodes: Vec<MecabNode>) -> (res: Vec<GrammarMatch>)
        ensures
            grammar_match_views(res@) == spec_find_all(self.grammar@, node_views(nodes@)),
    {
        let chunks = segment_bunsetsu(nodes.as_slice());
        let results = find_all_matches(&self.grammar, nodes.as_slice());
        proof {
            crate::matcher::law_find_all_bounds(self.grammar@, node_views(nodes@));
            assert forall|i: int| 0 <= i < results@.len() implies (#[trigger] results@[i]).start <= results@[i].end
                <= nodes.len() by {
                assert(match_views(results@)[i] == results@[i]@);
            }
        }
        self.place(results, nodes.as_slice(), chunks.as_slice())
    }

    /// Test if a specific rule matches anywhere in the nodes (outside its bunsetsu limit).
    pub fn test(&self, rule_name: String, nodes: Vec<MecabNode>) -> (res: bool)
        ensures
            res == (spec_find(self.grammar@, rule_name@, node_views(nodes@)).len() > 0),
    {
        let found = self.find(rule_name, nodes);
        found.len() > 0
    }

    /// List all rule names in this grammar.
    pub fn rule_names(&self) -> (res: Vec<String>)
        ensures
            string_views(res@) == rule_names_of(self.grammar@),
    {
        self.grammar.rule_names()
    }

    /// Clone this matcher.
    pub fn clone_matcher(&self) -> (res: GrammarMatcher)
        ensures
            res.grammar@ == self.grammar@,
    {
        GrammarMatcher { grammar: self.grammar.duplicate() }
    }

    /// Merge another grammar text into this matcher.
    pub fn merge(&mut self, grammar_text: String) -> (res: Result<(), String>)
        ensures
            match spec_parse_grammar(grammar_text@) {
                Ok(rs) => res is Ok && final(self).grammar@ == merge_rules(old(self).grammar@, rs),
                Err(e) => res matches Err(x) && x@ == "Grammar parse error: "@ + e && final(self).grammar@
                    == old(self).grammar@,
            },
    {
        match parse_grammar(grammar_text.as_str()) {
            Ok(other) => {
                self.grammar.merge(other);
                Ok(())
            },
            Err(e) => {
                let mut m = String::new();
                m.append("Grammar parse error: ");
                m.append(e.as_str());
                Err(m)
            },
        }
    }

    /// Set the maximum bunsetsu span for a rule.
    /// Matches spanning more bunsetsu than this limit will be suppressed.
    /// Set to 0 to remove the limit.
    pub fn set_max_bunsetsu(&mut self, rule_name: String, max_span: u8) -> (res: Result<(), String>)
        ensures
            match first_rule(old(self).grammar@, rule_name@) {
                Some(i) => res is Ok && final(self).grammar@ == old(self).grammar@.update(
                    i,
                    SpecRule { max_bunsetsu_span: max_span, ..old(self).grammar@[i] },
                ),
                None => res matches Err(x) && x@ == "Rule not found: "@ + rule_name@ && final(self).grammar@
                    == old(self).grammar@,
            },
    {
        let nc = chars_of(rule_name.as_str());
        proof {
            lemma_first_rule_from_bounds(self.grammar@, rule_name@, 0);
        }
        match self.grammar.find_rule_index(nc.as_slice()) {
            Some(i) => {
                let ghost before = self.grammar.rules@;
                let mut r = self.grammar.rules.remove(i);
                r.max_bunsetsu_span = max_span;
                self.grammar.rules.insert(i, r);
                assert(self.grammar.rules@ =~= before.update(i as int, r));
                assert(self.grammar@ =~= old(self).grammar@.update(
                    i as int,
                    SpecRule { max_bunsetsu_span: max_span, ..old(self).grammar@[i as int] },
                ));
                Ok(())
            },
            None => {
                let mut m = String::new();
                m.append("Rule not found: ");
                m.append(rule_name.as_str());
                Err(m)
            },
        }
    }
}

/// The text of gzip-compressed data (such as a compressed grammar CSV), or why it cannot be
/// decompressed.
pub fn decompress_text(data: &[u8]) -> (res: Result<String, String>)
    ensures
        match gunzip_text_of(data@) {
            Ok(t) => res matches Ok(x) && x@ == t,
            Err(m) => res matches Err(x) && x@ == "Failed to decompress gz data: "@ + m,
        },
{
    match gunzip_text(data) {
        Ok(t) => Ok(t),
        Err(e) => {
            let mut m = String::new();
            m.append("Failed to decompress gz data: ");
            m.append(e.as_str());
            Err(m)
        },
    }
}

/// Segment a token stream into bunsetsu (文節) phrase chunks.
///
/// A bunsetsu is a minimal syntactic unit: one content word + attached function words.
/// This is useful for understanding phrase boundaries without a full dependency parser.
pub fn segment_bunsetsu_nodes(nodes: Vec<MecabNode>) -> (res: Vec<BunsetsuChunk>)
    ensures
        chunk_views(res@) == spec_chunks(node_views(nodes@)),
{
    let ghost nv = node_views(nodes@);
    let chunks = segment_bunsetsu(nodes.as_slice());
    proof {
        assert(nv.len() == nodes.len());
        crate::bunsetsu::law_segment(nv);
    }
    let mut out: Vec<BunsetsuChunk> = Vec::new();
    let mut k: usize = 0;
    while k < chunks.len()
        invariant
            k <= chunks.len(),
            nv == node_views(nodes@),
            chunks@ == spec_segment(nv),
            crate::bunsetsu::segments(nv, nv.len() as int, chunks@),
            chunk_views(out@) == spec_chunks(nv).take(k as int),
        decreases chunks.len() - k,
    {
        let b = chunks[k];
        assert(b.start < b.end <= nodes.len());
        let mut surface = String::new();
        let mut i: usize = b.start;
        while i < b.end
            invariant
                b.start <= i <= b.end <= nodes.len(),
                nv == node_views(nodes@),
                surface@ == surfaces(nv, b.start as int, i as int),
            decreases b.end - i,
        {
            surface.append(nodes[i].surface.as_str());
            assert(nv[i as int] == nodes@[i as int]@);
            i += 1;
        }
        let c = BunsetsuChunk { start: b.start as u32, end: b.end as u32, head: b.head as u32, surface };
        let ghost before = chunk_views(out@);
        out.push(c);
        assert(chunk_views(out@) =~= before.push(c@));
        assert(spec_chunks(nv)[k as int] == c@);
        assert(spec_chunks(nv).take(k + 1) =~= spec_chunks(nv).take(k as int).push(spec_chunks(nv)[k as int]));
        k += 1;
    }
    assert(spec_chunks(nv).take(chunks.len() as int) =~= spec_chunks(nv));
    out
}

} // verus!
