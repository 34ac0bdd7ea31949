//! Grammar rules from CSV rows (as found in grammars.gz).
//!
//! The CSV has the fields: rule_name,levels,name,description,connection,pattern,examples.
//! Reading the CSV text into rows is done by the caller; this module turns rows into rules.
use vstd::prelude::*;
use crate::parser::{parse_grammar, spec_parse_grammar};
use crate::syntax::{
    example_views, pattern_uses_captures, rule_views, spec_uses_captures, string_views, translation_views,
    Example, Grammar, PatternExpr, Rule, RuleMetadata, SpecExample, SpecMetadata, SpecPattern, SpecRule,
};
use crate::text::{char_is_whitespace, char_views, chars_eq, chars_of, is_white_space, split_chars, split_on, string_of};

verus! {

/// A single row of the grammar CSV file.
pub struct GrammarItem {
    pub rule_name: String,
    pub levels: String,
    pub name: String,
    pub description: String,
    pub connection: String,
    pub pattern: String,
    pub examples: String,
}

// ── Specification ──────────────────────────────────────────────────────────

/// Index of the first `c` in `s` at or after `i`.
pub open spec fn index_of_from(s: Seq<char>, c: char, i: int) -> Option<int>
    decreases s.len() - i,
{
    if i < 0 || i >= s.len() {
        None
    } else if s[i] == c {
        Some(i)
    } else {
        index_of_from(s, c, i + 1)
    }
}

/// One `;`-separated part of an example: `lang:text` gives the Japanese sentence (the first
/// `ja` one, while no sentence is set) or a translation; a part without `:` is the sentence
/// while none is set.
pub open spec fn example_step(acc: SpecExample, part: Seq<char>) -> SpecExample {
    match index_of_from(part, ':', 0) {
        Some(c) => {
            let lang = part.take(c);
            let text = part.skip(c + 1);
            if lang == "ja"@ && acc.sentence.len() == 0 {
                SpecExample { sentence: text, translations: acc.translations }
            } else {
                SpecExample { sentence: acc.sentence, translations: acc.translations.push((lang, text)) }
            }
        },
        None => if acc.sentence.len() == 0 {
            SpecExample { sentence: part, translations: acc.translations }
        } else {
            acc
        },
    }
}

/// The example made of its `;`-separated parts.
pub open spec fn example_from_parts(parts: Seq<Seq<char>>) -> SpecExample
    decreases parts.len(),
{
    if parts.len() == 0 {
        SpecExample { sentence: Seq::empty(), translations: Seq::empty() }
    } else {
        example_step(example_from_parts(parts.drop_last()), parts.last())
    }
}

/// The examples of `"ja:text1;zh:翻译|ja:text2"`: one per `|`-separated group.
pub open spec fn spec_examples(s: Seq<char>) -> Seq<SpecExample> {
    if s.len() == 0 {
        Seq::empty()
    } else {
        split_on(s, '|').map_values(|g: Seq<char>| example_from_parts(split_on(g, ';')))
    }
}

/// The words of `s` read up to `i`, and the word still being read.
pub open spec fn words_state(s: Seq<char>, i: nat) -> (Seq<Seq<char>>, Seq<char>)
    decreases i,
{
    if i == 0 || i > s.len() {
        (Seq::empty(), Seq::empty())
    } else {
        let (ws, cur) = words_state(s, (i - 1) as nat);
        let c = s[i - 1];
        if is_white_space(c) {
            if cur.len() > 0 {
                (ws.push(cur), Seq::empty())
            } else {
                (ws, Seq::empty())
            }
        } else {
            (ws, cur.push(c))
        }
    }
}

/// The maximal runs of non-whitespace characters of `s` (as `str::split_whitespace`).
pub open spec fn split_words(s: Seq<char>) -> Seq<Seq<char>> {
    let (ws, cur) = words_state(s, s.len());
    if cur.len() > 0 {
        ws.push(cur)
    } else {
        ws
    }
}

/// Whether `s` holds nothing but whitespace (its trimmed form is empty).
pub open spec fn blank(s: Seq<char>) -> bool {
    forall|i: int| 0 <= i < s.len() ==> is_white_space(#[trigger] s[i])
}

/// The description of a row: none when name and description are empty, else the name, followed
/// by `：` and the description when there is one.
pub open spec fn row_description(name: Seq<char>, description: Seq<char>) -> Option<Seq<char>> {
    if name.len() == 0 && description.len() == 0 {
        None
    } else if description.len() == 0 {
        Some(name)
    } else {
        Some(name + "："@ + description)
    }
}

/// The grammar text from which a row's pattern is parsed.
pub open spec fn pattern_text(rule_name: Seq<char>, pattern: Seq<char>) -> Seq<char> {
    rule_name + " = "@ + pattern + " ;"@
}

/// The pattern of a row: the first rule parsed from `rule_name = pattern ;`, or an empty
/// sequence when the pattern is blank or does not parse.
pub open spec fn row_pattern(rule_name: Seq<char>, pattern: Seq<char>) -> SpecPattern {
    if blank(pattern) {
        SpecPattern::Sequence(Seq::empty())
    } else {
        match spec_parse_grammar(pattern_text(rule_name, pattern)) {
            Ok(rs) => if rs.len() > 0 {
                rs[0].pattern
            } else {
                SpecPattern::Sequence(Seq::empty())
            },
            Err(_) => SpecPattern::Sequence(Seq::empty()),
        }
    }
}

/// The rule that a row with a rule name stands for.
pub open spec fn row_rule(item: GrammarItem) -> SpecRule {
    let pattern = row_pattern(item.rule_name@, item.pattern@);
    SpecRule {
        name: item.rule_name@,
        pattern,
        metadata: Some(
            SpecMetadata {
                levels: split_words(item.levels@),
                description: row_description(item.name@, item.description@),
                connection: if item.connection@.len() == 0 {
                    None
                } else {
                    Some(item.connection@)
                },
                examples: spec_examples(item.examples@),
            },
        ),
        uses_captures: spec_uses_captures(pattern),
        max_bunsetsu_span: 0,
    }
}

/// The rules of the first `k` rows: one per row with a rule name, in order.
pub open spec fn rows_rules(items: Seq<GrammarItem>, k: int) -> Seq<SpecRule>
    decreases k,
{
    if k <= 0 || k > items.len() {
        Seq::empty()
    } else if items[k - 1].rule_name@.len() == 0 {
        rows_rules(items, k - 1)
    } else {
        rows_rules(items, k - 1).push(row_rule(items[k - 1]))
    }
}

/// Why the pattern of a row does not parse: `None` for a row without a rule name, with a
/// blank pattern, or with a pattern that parses.
pub open spec fn row_pattern_error(item: GrammarItem) -> Option<Seq<char>> {
    if item.rule_name@.len() == 0 || blank(item.pattern@) {
        None
    } else {
        match spec_parse_grammar(pattern_text(item.rule_name@, item.pattern@)) {
            Ok(_) => None,
            Err(e) => Some(e),
        }
    }
}

/// The rule names and parse errors of the first `k` rows whose patterns do not parse.
pub open spec fn failed_patterns(items: Seq<GrammarItem>, k: int) -> Seq<(Seq<char>, Seq<char>)>
    decreases k,
{
    if k <= 0 || k > items.len() {
        Seq::empty()
    } else {
        match row_pattern_error(items[k - 1]) {
            Some(e) => failed_patterns(items, k - 1).push((items[k - 1].rule_name@, e)),
            None => failed_patterns(items, k - 1),
        }
    }
}

// ── Implementation ─────────────────────────────────────────────────────────

/// Whether the characters `a` spell `lit`.
fn is_lit(a: &[char], lit: &str) -> (res: bool)
    ensures
        res == (a@ == lit@),
{
    let l = chars_of(lit);
    chars_eq(a, l.as_slice())
}

/// Index of the first `c` in `s`.
fn find_char(s: &[char], c: char) -> (res: Option<usize>)
    ensures
        res matches Some(i) ==> i < s.len() && s@[i as int] == c && index_of_from(s@, c, 0) == Some(i as int),
        res is None ==> index_of_from(s@, c, 0) is None,
{
    let mut i: usize = 0;
    while i < s.len()
        invariant
            i <= s.len(),
            index_of_from(s@, c, 0) == index_of_from(s@, c, i as int),
        decreases s.len() - i,
    {
        if s[i] == c {
            return Some(i);
        }
        i += 1;
    }
    None
}

/// The characters `s[from..to]`.
fn sub_chars(s: &[char], from: usize, to: usize) -> (res: Vec<char>)
    requires
        from <= to <= s.len(),
    ensures
        res@ == s@.subrange(from as int, to as int),
{
    let mut v: Vec<char> = Vec::new();
    let mut i: usize = from;
    while i < to
        invariant
            from <= i <= to <= s.len(),
            v@ == s@.subrange(from as int, i as int),
        decreases to - i,
    {
        v.push(s[i]);
        i += 1;
        assert(v@ =~= s@.subrange(from as int, i as int));
    }
    v
}

/// One example from its `;`-separated parts.
fn example_of_group(group: &[char]) -> (res: Example)
    ensures
        res@ == example_from_parts(split_on(group@, ';')),
{
    let parts = split_chars(group, ';');
    let ghost pv = char_views(parts@);
    let mut sentence = String::new();
    let mut translations: Vec<(String, String)> = Vec::new();
    let mut k: usize = 0;
    assert(translation_views(translations@) =~= Seq::<(Seq<char>, Seq<char>)>::empty());
    assert(pv.take(0) =~= Seq::<Seq<char>>::empty());
    while k < parts.len()
        invariant
            k <= parts.len(),
            pv == char_views(parts@),
            pv == split_on(group@, ';'),
            (SpecExample { sentence: sentence@, translations: translation_views(translations@) })
                == example_from_parts(pv.take(k as int)),
        decreases parts.len() - k,
    {
        let part = parts[k].as_slice();
        let ghost prev = SpecExample { sentence: sentence@, translations: translation_views(translations@) };
        assert(pv.take(k + 1).drop_last() =~= pv.take(k as int));
        assert(pv.take(k + 1).last() == part@);
        assert(example_from_parts(pv.take(k + 1)) == example_step(prev, part@));
        match find_char(part, ':') {
            Some(c) => {
                let lang = sub_chars(part, 0, c);
                let text = sub_chars(part, c + 1, part.len());
                assert(lang@ =~= part@.take(c as int));
                assert(text@ =~= part@.skip(c + 1));
                assert(index_of_from(part@, ':', 0) == Some(c as int));
                if is_lit(lang.as_slice(), "ja") && sentence.as_str().is_empty() {
                    sentence = string_of(text.as_slice());
                } else {
                    let ghost before = translation_views(translations@);
                    let l = string_of(lang.as_slice());
                    let t = string_of(text.as_slice());
                    translations.push((l, t));
                    assert(translation_views(translations@) =~= before.push((lang@, text@)));
                }
            },
            None => {
                if sentence.as_str().is_empty() {
                    sentence = string_of(part);
                }
            },
        }
        assert((SpecExample { sentence: sentence@, translations: translation_views(translations@) })
            == example_step(prev, part@));
        k += 1;
    }
    assert(pv.take(parts.len() as int) =~= pv);
    Example { sentence, translations }
}

/// Parse examples string: "ja:text1;zh:翻译|ja:text2"
pub fn parse_examples_str(s: &str) -> (res: Vec<Example>)
    ensures
        example_views(res@) == spec_examples(s@),
{
    let cs = chars_of(s);
    if cs.len() == 0 {
        let r: Vec<Example> = Vec::new();
        assert(example_views(r@) =~= spec_examples(s@));
        return r;
    }
    let groups = split_chars(cs.as_slice(), '|');
    let ghost gv = char_views(groups@);
    let ghost target = spec_examples(s@);
    let mut out: Vec<Example> = Vec::new();
    let mut k: usize = 0;
    while k < groups.len()
        invariant
            k <= groups.len(),
            gv == char_views(groups@),
            gv == split_on(s@, '|'),
            s@.len() > 0,
            target == spec_examples(s@),
            example_views(out@) == target.take(k as int),
        decreases groups.len() - k,
    {
        let e = example_of_group(groups[k].as_slice());
        assert(groups@[k as int]@ == gv[k as int]);
        assert(target[k as int] == example_from_parts(split_on(gv[k as int], ';')));
        let ghost before = example_views(out@);
        out.push(e);
        assert(example_views(out@) =~= before.push(e@));
        assert(target.take(k + 1) =~= target.take(k as int).push(target[k as int]));
        k += 1;
    }
    assert(target.take(groups.len() as int) =~= target);
    out
}

/// The whitespace-separated words of `s`.
fn split_whitespace_words(s: &str) -> (res: Vec<String>)
    ensures
        string_views(res@) == split_words(s@),
{
    let cs = chars_of(s);
    let mut words: Vec<String> = Vec::new();
    let mut cur: Vec<char> = Vec::new();
    let mut i: usize = 0;
    while i < cs.len()
        invariant
            i <= cs.len(),
            cs@ == s@,
            words_state(s@, i as nat) == (string_views(words@), cur@),
        decreases cs.len() - i,
    {
        let c = cs[i];
        if char_is_whitespace(c) {
            if cur.len() > 0 {
                let ghost before = string_views(words@);
                let w = string_of(cur.as_slice());
                words.push(w);
                assert(string_views(words@) =~= before.push(cur@));
            }
            cur = Vec::new();
        } else {
            cur.push(c);
        }
        i += 1;
    }
    if cur.len() > 0 {
        let ghost before = string_views(words@);
        let w = string_of(cur.as_slice());
        words.push(w);
        assert(string_views(words@) =~= before.push(cur@));
    }
    words
}

/// Whether `s` is empty once trimmed.
fn is_blank(s: &str) -> (res: bool)
    ensures
        res == blank(s@),
{
    let cs = chars_of(s);
    let mut i: usize = 0;
    while i < cs.len()
        invariant
            i <= cs.len(),
            cs@ == s@,
            forall|j: int| 0 <= j < i ==> is_white_space(#[trigger] s@[j]),
        decreases cs.len() - i,
    {
        if !char_is_whitespace(cs[i]) {
            return false;
        }
        i += 1;
    }
    true
}

/// The pattern of a row: parsed from `rule_name = pattern ;`, or an empty sequence.
fn parse_row_pattern(rule_name: &str, pattern: &str) -> (res: PatternExpr)
    ensures
        res@ == row_pattern(rule_name@, pattern@),
{
    let none: Vec<PatternExpr> = Vec::new();
    proof {
        crate::syntax::lemma_group_views(none);
        assert(crate::syntax::pattern_views(none@) =~= Seq::<SpecPattern>::empty());
    }
    let empty = PatternExpr::Sequence(none);
    if is_blank(pattern) {
        return empty;
    }
    let mut text = String::new();
    text.append(rule_name);
    text.append(" = ");
    text.append(pattern);
    text.append(" ;");
    assert(text@ =~= pattern_text(rule_name@, pattern@));
    match parse_grammar(text.as_str()) {
        Ok(g) => {
            let mut rules = g.rules;
            if rules.len() > 0 {
                let r = rules.swap_remove(0);
                r.pattern
            } else {
                empty
            }
        },
        Err(_) => empty,
    }
}

/// The rule of a row with a rule name.
fn rule_of_item(item: GrammarItem) -> (res: Rule)
    ensures
        res@ == row_rule(item),
{
    let ghost it = item;
    let levels = if item.levels.as_str().is_empty() {
        let v: Vec<String> = Vec::new();
        assert(string_views(v@) =~= split_words(item.levels@)) by {
            assert(item.levels@.len() == 0);
        }
        v
    } else {
        split_whitespace_words(item.levels.as_str())
    };
    let description = if item.name.as_str().is_empty() && item.description.as_str().is_empty() {
        None
    } else if item.description.as_str().is_empty() {
        Some(item.name.clone())
    } else {
        let mut d = item.name.clone();
        d.append("：");
        d.append(item.description.as_str());
        Some(d)
    };
    let examples = parse_examples_str(item.examples.as_str());
    let pattern = parse_row_pattern(item.rule_name.as_str(), item.pattern.as_str());
    let connection = if item.connection.as_str().is_empty() {
        None
    } else {
        Some(item.connection)
    };
    let metadata = RuleMetadata { levels, description, connection, examples };
    let uses_captures = pattern_uses_captures(&pattern);
    Rule { name: item.rule_name, pattern, metadata: Some(metadata), uses_captures, max_bunsetsu_span: 0 }
}

/// The grammar of the rows of a grammar CSV: one rule per row with a rule name, in order.
pub fn grammar_from_items(items: Vec<GrammarItem>) -> (res: Grammar)
    ensures
        res@ == rows_rules(items@, items@.len() as int),
{
    let ghost iv = items@;
    assert(iv.len() == items.len());
    let mut rules: Vec<Rule> = Vec::new();
    let mut rest = items;
    let mut k: usize = 0;
    assert(rule_views(rules@) =~= rows_rules(iv, 0));
    assert(rest@ =~= iv.skip(0));
    while rest.len() > 0
        invariant
            k + rest@.len() == iv.len(),
            iv.len() <= usize::MAX,
            rest@ == iv.skip(k as int),
            rule_views(rules@) == rows_rules(iv, k as int),
        decreases rest@.len(),
    {
        let item = rest.remove(0);
        assert(item == iv[k as int]);
        assert(rest@ =~= iv.skip(k + 1));
        if !item.rule_name.as_str().is_empty() {
            let r = rule_of_item(item);
            let ghost before = rule_views(rules@);
            rules.push(r);
            assert(rule_views(rules@) =~= before.push(r@));
        }
        k += 1;
    }
    Grammar { rules }
}

/// The rows whose patterns do not parse (and so become empty sequences): each rule name with
/// the parse error.
pub fn pattern_failures(items: &[GrammarItem]) -> (res: Vec<(String, String)>)
    ensures
        translation_views(res@) == failed_patterns(items@, items@.len() as int),
{
    let mut out: Vec<(String, String)> = Vec::new();
    let mut k: usize = 0;
    assert(translation_views(out@) =~= failed_patterns(items@, 0));
    while k < items.len()
        invariant
            k <= items.len(),
            translation_views(out@) == failed_patterns(items@, k as int),
        decreases items.len() - k,
    {
        let item = &items[k];
        if !item.rule_name.as_str().is_empty() && !is_blank(item.pattern.as_str()) {
            let mut text = String::new();
            text.append(item.rule_name.as_str());
            text.append(" = ");
            text.append(item.pattern.as_str());
            text.append(" ;");
            assert(text@ =~= pattern_text(item.rule_name@, item.pattern@));
            match parse_grammar(text.as_str()) {
                Ok(_) => {},
                Err(e) => {
                    let ghost before = translation_views(out@);
                    let name = item.rule_name.clone();
                    out.push((name, e));
                    assert(translation_views(out@) =~= before.push((item.rule_name@, e@)));
                },
            }
        }
        k += 1;
    }
    out
}

} // verus!
