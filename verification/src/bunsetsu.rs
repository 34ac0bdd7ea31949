//! Bunsetsu (文節) segmentation for MeCab token streams.
//!
//! A bunsetsu is a minimal syntactic phrase unit in Japanese, consisting of
//! one content word (自立語) followed by zero or more function words (付属語).
//!
//! Bunsetsu boundaries help the grammar matcher understand phrase structure
//! without requiring a full dependency parser: they keep matches from spanning
//! unrelated phrases.
use vstd::prelude::*;
use crate::node::{node_views, MecabNode, SpecNode};
use crate::text::{chars_eq, chars_of, lemma_split_nonempty, split_on};
use crate::token::parse_feature;

verus! {

/// A bunsetsu (phrase chunk) spanning a range of token indices.
#[derive(Debug, Clone, Copy)]
pub struct Bunsetsu {
    /// Start index (inclusive) in the token array.
    pub start: usize,
    /// End index (exclusive) in the token array.
    pub end: usize,
    /// Index of the head (content word) token within the bunsetsu.
    pub head: usize,
}

// ── Specification ──────────────────────────────────────────────────────────

/// Whether feature fields (品詞, 品詞細分類1, ...) describe a content word (自立語), which starts
/// a new bunsetsu.
pub open spec fn content_fields(parts: Seq<Seq<char>>) -> bool {
    if parts.len() == 0 {
        false
    } else {
        let pos = parts[0];
        let sub = if parts.len() > 1 {
            parts[1]
        } else {
            "*"@
        };
        if pos == "名詞"@ {
            // dependent nouns and suffixes attach to the previous phrase
            !(sub == "非自立"@ || sub == "接尾"@)
        } else if pos == "動詞"@ {
            sub != "非自立"@ && sub != "接尾"@
        } else if pos == "形容詞"@ {
            sub != "非自立"@
        } else {
            // adverbs, prenominal adjectives, conjunctions, interjections, fillers, prefixes
            pos == "副詞"@ || pos == "連体詞"@ || pos == "接続詞"@ || pos == "感動詞"@ || pos
                == "フィラー"@ || pos == "接頭詞"@
        }
    }
}

/// Whether a node is a content word.
pub open spec fn is_content(n: SpecNode) -> bool {
    content_fields(split_on(n.feature, ','))
}

/// Whether a node is punctuation (記号), which belongs to no bunsetsu.
pub open spec fn is_punct(n: SpecNode) -> bool {
    split_on(n.feature, ',')[0] == "記号"@
}

pub open spec fn chunk(start: usize, end: usize, head: usize) -> Bunsetsu {
    Bunsetsu { start, end, head }
}

/// The chunks closed after reading the first `i` nodes, and the chunk still open then
/// (its start and head).
pub open spec fn seg_state(nodes: Seq<SpecNode>, i: nat) -> (Seq<Bunsetsu>, Option<(usize, usize)>)
    decreases i,
{
    if i == 0 {
        (Seq::empty(), None)
    } else {
        let (cs, cur) = seg_state(nodes, (i - 1) as nat);
        let k = (i - 1) as usize;
        if is_punct(nodes[i - 1]) {
            match cur {
                Some((s, h)) => (cs.push(chunk(s, k, h)), None),
                None => (cs, None),
            }
        } else if is_content(nodes[i - 1]) {
            match cur {
                Some((s, h)) => (cs.push(chunk(s, k, h)), Some((k, k))),
                None => (cs, Some((k, k))),
            }
        } else if cur is None {
            // a function word with no open phrase starts one anyway
            (cs, Some((k, k)))
        } else {
            (cs, cur)
        }
    }
}

/// The bunsetsu of a node sequence: each starts at a content word (or at a function word with
/// no phrase open) and runs until the next content word or punctuation.
pub open spec fn spec_segment(nodes: Seq<SpecNode>) -> Seq<Bunsetsu> {
    let (cs, cur) = seg_state(nodes, nodes.len());
    match cur {
        Some((s, h)) => cs.push(chunk(s, nodes.len() as usize, h)),
        None => cs,
    }
}

/// Whether chunk `b` covers token `idx`.
pub open spec fn covers(b: Bunsetsu, idx: int) -> bool {
    b.start <= idx < b.end
}

/// Index of the first chunk at or after `i` that covers `idx`.
pub open spec fn chunk_of_from(chunks: Seq<Bunsetsu>, idx: int, i: int) -> Option<int>
    decreases chunks.len() - i,
{
    if i < 0 || i >= chunks.len() {
        None
    } else if covers(chunks[i], idx) {
        Some(i)
    } else {
        chunk_of_from(chunks, idx, i + 1)
    }
}

/// Index of the first chunk that covers `idx`.
pub open spec fn spec_bunsetsu_of(chunks: Seq<Bunsetsu>, idx: int) -> Option<int> {
    chunk_of_from(chunks, idx, 0)
}

pub proof fn lemma_chunk_of_from(chunks: Seq<Bunsetsu>, idx: int, i: int)
    requires
        0 <= i,
    ensures
        chunk_of_from(chunks, idx, i) matches Some(j) ==> i <= j < chunks.len() && covers(chunks[j], idx)
            && forall|k: int| i <= k < j ==> !covers(#[trigger] chunks[k], idx),
        chunk_of_from(chunks, idx, i) is None ==> forall|k: int|
            i <= k < chunks.len() ==> !covers(#[trigger] chunks[k], idx),
    decreases chunks.len() - i,
{
    if i < chunks.len() && !covers(chunks[i], idx) {
        lemma_chunk_of_from(chunks, idx, i + 1);
        assert forall|k: int| i <= k < chunks.len() && chunk_of_from(chunks, idx, i) is None implies !covers(
            #[trigger] chunks[k],
            idx,
        ) by {
            if k > i {
            }
        }
    }
}

// ── Laws ───────────────────────────────────────────────────────────────────

/// A bunsetsu may start at `s`: a content word, the first token, or a token right after
/// punctuation.
pub open spec fn may_start(nodes: Seq<SpecNode>, s: int) -> bool {
    is_content(nodes[s]) || s == 0 || is_punct(nodes[s - 1])
}

/// `cs` segments the first `n` nodes: each chunk is a nonempty run of tokens headed by its first
/// token; chunks come in order without overlap; no punctuation lies in a chunk and every other
/// token lies in one; only the first token of a chunk can be a content word, and each chunk
/// starts where a bunsetsu may start.
pub open spec fn segments(nodes: Seq<SpecNode>, n: int, cs: Seq<Bunsetsu>) -> bool {
    &&& forall|a: int| 0 <= a < cs.len() ==> (#[trigger] cs[a]).start < cs[a].end <= n && cs[a].head == cs[a].start
    &&& forall|a: int, b: int| 0 <= a < b < cs.len() ==> #[trigger] cs[a].end <= #[trigger] cs[b].start
    &&& forall|a: int, k: int| 0 <= a < cs.len() && #[trigger] covers(cs[a], k) ==> !is_punct(nodes[k]) && (k
        == cs[a].start || !is_content(nodes[k]))
    &&& forall|k: int| 0 <= k < n && !is_punct(#[trigger] nodes[k]) ==> exists|a: int| 0 <= a < cs.len() && #[trigger] covers(cs[a], k)
    &&& forall|a: int| 0 <= a < cs.len() ==> may_start(nodes, #[trigger] cs[a].start as int)
}

/// What holds after reading the first `i` nodes.
spec fn seg_inv(nodes: Seq<SpecNode>, i: int, cs: Seq<Bunsetsu>, cur: Option<(usize, usize)>) -> bool {
    &&& forall|a: int| 0 <= a < cs.len() ==> (#[trigger] cs[a]).start < cs[a].end <= i && cs[a].head == cs[a].start
    &&& forall|a: int, b: int| 0 <= a < b < cs.len() ==> #[trigger] cs[a].end <= #[trigger] cs[b].start
    &&& forall|a: int, k: int| 0 <= a < cs.len() && #[trigger] covers(cs[a], k) ==> !is_punct(nodes[k]) && (k
        == cs[a].start || !is_content(nodes[k]))
    &&& forall|k: int| 0 <= k < i && !is_punct(#[trigger] nodes[k]) ==> (exists|a: int| 0 <= a < cs.len() && #[trigger] covers(cs[a], k))
        || (cur matches Some((s, h)) && s <= k)
    &&& forall|a: int| 0 <= a < cs.len() ==> may_start(nodes, #[trigger] cs[a].start as int)
    &&& match cur {
        Some((s, h)) => {
            &&& h == s && s < i
            &&& forall|a: int| 0 <= a < cs.len() ==> #[trigger] cs[a].end <= s
            &&& forall|k: int| s <= k < i ==> !is_punct(#[trigger] nodes[k]) && (k == s || !is_content(nodes[k]))
            &&& may_start(nodes, s as int)
        },
        None => i == 0 || is_punct(nodes[i - 1]),
    }
}

proof fn lemma_seg_inv(nodes: Seq<SpecNode>, i: nat)
    requires
        i <= nodes.len() <= usize::MAX,
    ensures
        seg_inv(nodes, i as int, seg_state(nodes, i).0, seg_state(nodes, i).1),
    decreases i,
{
    if i > 0 {
        lemma_seg_inv(nodes, (i - 1) as nat);
        let (cs, cur) = seg_state(nodes, (i - 1) as nat);
        let k = (i - 1) as int;
        let (cs2, cur2) = seg_state(nodes, i);
        if cur2 == Some((k as usize, k as usize)) {
            assert forall|a: int| 0 <= a < cs2.len() implies #[trigger] cs2[a].end <= k by {
                assert(!is_punct(nodes[k]));
                if a < cs.len() {
                    if is_content(nodes[k]) && cur is Some {
                        assert(cs2[a] == cs[a]);
                    } else {
                        assert(cs2 == cs);
                    }
                } else {
                    assert(is_content(nodes[k]) && cur is Some);
                    assert(cs2[a].end == k);
                }
            }
        }
        if is_punct(nodes[k]) || is_content(nodes[k]) {
            if let Some((s, h)) = cur {
                let c = chunk(s, k as usize, h);
                assert(cs2 == cs.push(c));
                assert forall|j: int| 0 <= j < i && !is_punct(#[trigger] nodes[j]) implies (exists|a: int|
                    0 <= a < cs2.len() && #[trigger] covers(cs2[a], j)) || (cur2 matches Some((s2, h2)) && s2 <= j) by {
                    if j < k {
                        if s <= j {
                            assert(covers(cs2[cs.len() as int], j));
                        } else {
                            let a = choose|a: int| 0 <= a < cs.len() && #[trigger] covers(cs[a], j);
                            assert(covers(cs2[a], j));
                        }
                    }
                }
            }
        }
    }
}

/// Segmentation laws: the bunsetsu of a token sequence segment it (see `segments`).
pub proof fn law_segment(nodes: Seq<SpecNode>)
    requires
        nodes.len() <= usize::MAX,
    ensures
        segments(nodes, nodes.len() as int, spec_segment(nodes)),
{
    lemma_seg_inv(nodes, nodes.len());
    let (cs, cur) = seg_state(nodes, nodes.len());
    if let Some((s, h)) = cur {
        let n = nodes.len() as int;
        let c = chunk(s, n as usize, h);
        let cs2 = cs.push(c);
        assert forall|j: int| 0 <= j < n && !is_punct(#[trigger] nodes[j]) implies exists|a: int|
            0 <= a < cs2.len() && #[trigger] covers(cs2[a], j) by {
            if s <= j {
                assert(covers(cs2[cs.len() as int], j));
            } else {
                let a = choose|a: int| 0 <= a < cs.len() && #[trigger] covers(cs[a], j);
                assert(covers(cs2[a], j));
            }
        }
    }
}

/// After a token that is not punctuation, a token (not punctuation either) starts a new bunsetsu
/// exactly when its feature names a content word of the ipadic table: a noun (名詞) or verb
/// (動詞) other than a dependent one (非自立) or a suffix (接尾), an adjective (形容詞) other
/// than a dependent one, an adverb, prenominal adjective, conjunction, interjection, filler or
/// prefix. Any other token joins the bunsetsu of the token before it.
pub proof fn law_bunsetsu_starts(nodes: Seq<SpecNode>, k: int)
    requires
        nodes.len() <= usize::MAX,
        0 < k < nodes.len(),
        split_on(nodes[k - 1].feature, ',')[0] != "記号"@,
        split_on(nodes[k].feature, ',')[0] != "記号"@,
    ensures
        ({
            let f = split_on(nodes[k].feature, ',');
            let pos = f[0];
            let sub = if f.len() > 1 { f[1] } else { "*"@ };
            (exists|a: int| 0 <= a < spec_segment(nodes).len() && #[trigger] spec_segment(nodes)[a].start == k) <==> (
            (pos == "名詞"@ && sub != "非自立"@ && sub != "接尾"@)
                || (pos == "動詞"@ && sub != "非自立"@ && sub != "接尾"@)
                || (pos == "形容詞"@ && sub != "非自立"@)
                || pos == "副詞"@ || pos == "連体詞"@ || pos == "接続詞"@ || pos == "感動詞"@
                || pos == "フィラー"@ || pos == "接頭詞"@)
        }),
        ({
            let cs = spec_segment(nodes);
            !is_content(nodes[k]) ==> exists|a: int| 0 <= a < cs.len() && #[trigger] covers(cs[a], k) && covers(cs[a], k - 1)
        }),
{
    let cs = spec_segment(nodes);
    let f = split_on(nodes[k].feature, ',');
    lemma_split_nonempty(nodes[k].feature, ',');
    reveal_strlit("名詞");
    reveal_strlit("動詞");
    reveal_strlit("形容詞");
    reveal_strlit("副詞");
    reveal_strlit("連体詞");
    reveal_strlit("接続詞");
    reveal_strlit("感動詞");
    reveal_strlit("フィラー");
    reveal_strlit("接頭詞");
    assert(is_content(nodes[k]) == content_fields(f));
    assert("名詞"@[0] == '名' && "動詞"@[0] == '動' && "形容詞"@[0] == '形' && "副詞"@[0] == '副'
        && "連体詞"@[0] == '連' && "接続詞"@[0] == '接' && "感動詞"@[0] == '感' && "フィラー"@[0]
        == 'フ' && "接頭詞"@[0] == '接');
    let pos = f[0];
    if pos.len() > 0 {
        assert(pos == "名詞"@ ==> pos[0] == '名');
        assert(pos == "動詞"@ ==> pos[0] == '動');
        assert(pos == "形容詞"@ ==> pos[0] == '形');
    }
    let sub = if f.len() > 1 { f[1] } else { "*"@ };
    assert(content_fields(f) == ((pos == "名詞"@ && sub != "非自立"@ && sub != "接尾"@)
        || (pos == "動詞"@ && sub != "非自立"@ && sub != "接尾"@)
        || (pos == "形容詞"@ && sub != "非自立"@)
        || pos == "副詞"@ || pos == "連体詞"@ || pos == "接続詞"@ || pos == "感動詞"@
        || pos == "フィラー"@ || pos == "接頭詞"@));
    law_segment(nodes);
    assert(!is_punct(nodes[k]) && !is_punct(nodes[k - 1]));
    if exists|a: int| 0 <= a < cs.len() && #[trigger] cs[a].start == k {
        let a = choose|a: int| 0 <= a < cs.len() && #[trigger] cs[a].start == k;
        assert(may_start(nodes, cs[a].start as int));
        assert(is_content(nodes[k]));
    }
    let a = choose|a: int| 0 <= a < cs.len() && #[trigger] covers(cs[a], k);
    assert(covers(cs[a], k));
    if is_content(nodes[k]) {
        assert(cs[a].start == k);
        assert(exists|a: int| 0 <= a < cs.len() && #[trigger] cs[a].start == k);
    } else {
        if cs[a].start == k {
            assert(may_start(nodes, cs[a].start as int));
        }
        assert(cs[a].start < k);
        assert(covers(cs[a], k - 1));
        assert forall|b: int| 0 <= b < cs.len() implies #[trigger] cs[b].start != k by {
            if cs[b].start == k {
                assert(may_start(nodes, cs[b].start as int));
            }
        }
    }
}

/// On the bunsetsu of a token sequence, a token index has a bunsetsu exactly when it is in
/// range and not punctuation.
pub proof fn law_bunsetsu_of_segment(nodes: Seq<SpecNode>, idx: int)
    requires
        nodes.len() <= usize::MAX,
    ensures
        spec_bunsetsu_of(spec_segment(nodes), idx) is Some <==> 0 <= idx < nodes.len() && !is_punct(
            nodes[idx],
        ),
{
    let cs = spec_segment(nodes);
    law_segment(nodes);
    lemma_chunk_of_from(cs, idx, 0);
    if let Some(a) = spec_bunsetsu_of(cs, idx) {
        assert(covers(cs[a], idx));
        assert(cs[a].start < cs[a].end <= nodes.len());
    }
    if 0 <= idx < nodes.len() && !is_punct(nodes[idx]) {
        let a = choose|a: int| 0 <= a < cs.len() && #[trigger] covers(cs[a], idx);
        assert(covers(cs[a], idx));
    }
}

/// Whether tokens `a` and `b` lie in one bunsetsu.
pub open spec fn spec_same_bunsetsu(chunks: Seq<Bunsetsu>, a: int, b: int) -> bool {
    spec_bunsetsu_of(chunks, a) is Some && spec_bunsetsu_of(chunks, a) == spec_bunsetsu_of(chunks, b)
}

/// Lying in one bunsetsu is symmetric, and on the bunsetsu of a token sequence it holds of a
/// token with itself exactly when the token is in range and not punctuation.
pub proof fn law_same_bunsetsu(nodes: Seq<SpecNode>, chunks: Seq<Bunsetsu>, a: int, b: int)
    requires
        nodes.len() <= usize::MAX,
    ensures
        spec_same_bunsetsu(chunks, a, b) == spec_same_bunsetsu(chunks, b, a),
        spec_same_bunsetsu(spec_segment(nodes), a, a) <==> 0 <= a < nodes.len() && !is_punct(nodes[a]),
{
    law_bunsetsu_of_segment(nodes, a);
}

// ── Implementation ─────────────────────────────────────────────────────────

/// Whether the characters `a` spell `lit`.
fn is_lit(a: &[char], lit: &str) -> (res: bool)
    ensures
        res == (a@ == lit@),
{
    let l = chars_of(lit);
    chars_eq(a, l.as_slice())
}

/// Check if a token is a content word (自立語) that starts a new bunsetsu.
pub fn is_content_word(feature: &str) -> (res: bool)
    ensures
        res == content_fields(split_on(feature@, ',')),
{
    let parts = parse_feature(feature);
    if parts.len() == 0 {
        return false;
    }
    let pos = parts[0].as_slice();
    let star = chars_of("*");
    let sub = if parts.len() > 1 {
        parts[1].as_slice()
    } else {
        star.as_slice()
    };
    assert(pos@ == split_on(feature@, ',')[0]);
    if is_lit(pos, "名詞") {
        !(is_lit(sub, "非自立") || is_lit(sub, "接尾"))
    } else if is_lit(pos, "動詞") {
        !is_lit(sub, "非自立") && !is_lit(sub, "接尾")
    } else if is_lit(pos, "形容詞") {
        !is_lit(sub, "非自立")
    } else {
        is_lit(pos, "副詞") || is_lit(pos, "連体詞") || is_lit(pos, "接続詞") || is_lit(pos, "感動詞")
            || is_lit(pos, "フィラー") || is_lit(pos, "接頭詞")
    }
}

/// Whether a token's part of speech is punctuation (記号).
fn is_punctuation(feature: &str) -> (res: bool)
    ensures
        res == (split_on(feature@, ',')[0] == "記号"@),
{
    let parts = parse_feature(feature);
    proof {
        lemma_split_nonempty(feature@, ',');
    }
    is_lit(parts[0].as_slice(), "記号")
}

/// Segment a token stream into bunsetsu (phrase chunks).
///
/// Each bunsetsu starts at a content word and extends until the next content word.
/// Punctuation (記号) is excluded from bunsetsu spans.
pub fn segment_bunsetsu(nodes: &[MecabNode]) -> (res: Vec<Bunsetsu>)
    ensures
        res@ == spec_segment(node_views(nodes@)),
{
    let ghost nv = node_views(nodes@);
    let mut result: Vec<Bunsetsu> = Vec::new();
    let mut current_start: Option<usize> = None;
    let mut current_head: usize = 0;
    let mut i: usize = 0;
    while i < nodes.len()
        invariant
            i <= nodes.len(),
            nv == node_views(nodes@),
            seg_state(nv, i as nat) == (
            result@,
            match current_start {
                Some(s) => Some((s, current_head)),
                None => None,
            },
            ),
        decreases nodes.len() - i,
    {
        let node = &nodes[i];
        assert(nv[i as int] == node@);
        if is_punctuation(node.feature.as_str()) {
            // Close the current bunsetsu before punctuation
            if let Some(start) = current_start {
                result.push(Bunsetsu { start, end: i, head: current_head });
                current_start = None;
            }
        } else if is_content_word(node.feature.as_str()) {
            // Close the previous bunsetsu and start a new one
            if let Some(start) = current_start {
                result.push(Bunsetsu { start, end: i, head: current_head });
            }
            current_start = Some(i);
            current_head = i;
        } else if current_start.is_none() {
            // Function word at the start (rare): start a bunsetsu anyway
            current_start = Some(i);
            current_head = i;
        }
        i += 1;
    }
    // Close the final bunsetsu
    if let Some(start) = current_start {
        result.push(Bunsetsu { start, end: nodes.len(), head: current_head });
    }
    result
}

/// Find which bunsetsu a token index belongs to.
/// Returns None if the index is punctuation or out of range.
pub fn bunsetsu_of(chunks: &[Bunsetsu], token_idx: usize) -> (res: Option<usize>)
    ensures
        match spec_bunsetsu_of(chunks@, token_idx as int) {
            Some(i) => res == Some(i as usize),
            None => res is None,
        },
        res matches Some(i) ==> i < chunks.len() && covers(chunks@[i as int], token_idx as int),
{
    proof {
        lemma_chunk_of_from(chunks@, token_idx as int, 0);
    }
    let mut i: usize = 0;
    while i < chunks.len()
        invariant
            i <= chunks.len(),
            spec_bunsetsu_of(chunks@, token_idx as int) == chunk_of_from(chunks@, token_idx as int, i as int),
        decreases chunks.len() - i,
    {
        let b = chunks[i];
        if token_idx >= b.start && token_idx < b.end {
            return Some(i);
        }
        i += 1;
    }
    None
}

/// Check if two token indices are in the same bunsetsu.
pub fn same_bunsetsu(chunks: &[Bunsetsu], a: usize, b: usize) -> (res: bool)
    ensures
        res == spec_same_bunsetsu(chunks@, a as int, b as int),
{
    proof {
        lemma_chunk_of_from(chunks@, a as int, 0);
        lemma_chunk_of_from(chunks@, b as int, 0);
    }
    match (bunsetsu_of(chunks, a), bunsetsu_of(chunks, b)) {
        (Some(x), Some(y)) => x == y,
        _ => false,
    }
}

} // verus!
