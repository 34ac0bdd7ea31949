//! Which end a match prefers: the end positions of a pattern in order of preference.
//!
//! A pattern with no repetition or option of a wildcard prefers its longest end. A repetition
//! or option of a wildcard (`_*`, `_+`, `_?`) is non-greedy: it prefers fewer tokens. In a
//! pattern that holds one, the other repetitions and options are greedy, alternatives are tried
//! left to right, and a sequence tries the ends of each part in the part's order of preference.
use vstd::prelude::*;
use crate::matcher::{alt_ends, ends, int_positions, match_at, seq_ends, seq_step, star, star_k, succ};
use crate::positions::{strictly_sorted, vec_set, within};
use crate::node::{node_views, MecabNode, SpecNode};
use crate::syntax::{first_rule, lemma_first_rule_from_bounds, Grammar, PatternExpr, SpecPattern, SpecRule};
use crate::token::{predicate_holds, token_matches};

verus! {

// ── Specification ──────────────────────────────────────────────────────────

/// `s` with `x` added at the end, unless it is already there.
pub open spec fn add_new(s: Seq<int>, x: int) -> Seq<int> {
    if s.contains(x) {
        s
    } else {
        s.push(x)
    }
}

/// `s` followed by the entries of `t` that are new, in the order of `t`.
pub open spec fn merge_new(s: Seq<int>, t: Seq<int>) -> Seq<int>
    decreases t.len(),
{
    if t.len() == 0 {
        s
    } else {
        add_new(merge_new(s, t.drop_last()), t.last())
    }
}

/// A repetition or option of a wildcard takes as few tokens as it can.
pub open spec fn is_lazy(inner: SpecPattern) -> bool {
    inner is Wildcard || inner is WildcardCapture
}

/// Whether `p` holds a repetition or option of a wildcard (rule references followed `fuel`
/// levels deep).
pub open spec fn has_lazy(g: Seq<SpecRule>, p: SpecPattern, fuel: nat) -> bool
    decreases fuel, p, 0int,
{
    match p {
        SpecPattern::Sequence(items) => any_lazy(g, items, 0, fuel),
        SpecPattern::Alternative(alts) => any_lazy(g, alts, 0, fuel),
        SpecPattern::Optional(inner) => is_lazy(*inner) || has_lazy(g, *inner, fuel),
        SpecPattern::ZeroOrMore(inner) => is_lazy(*inner) || has_lazy(g, *inner, fuel),
        SpecPattern::OneOrMore(inner) => is_lazy(*inner) || has_lazy(g, *inner, fuel),
        SpecPattern::RuleRef(name) => if fuel == 0 {
            false
        } else {
            match first_rule(g, name) {
                Some(i) => 0 <= i < g.len() && has_lazy(g, g[i].pattern, (fuel - 1) as nat),
                None => false,
            }
        },
        _ => false,
    }
}

/// Whether one of `items[i..]` holds a repetition or option of a wildcard.
pub open spec fn any_lazy(g: Seq<SpecRule>, items: Seq<SpecPattern>, i: int, fuel: nat) -> bool
    decreases fuel, items, items.len() - i,
{
    if 0 <= i < items.len() {
        has_lazy(g, items[i], fuel) || any_lazy(g, items, i + 1, fuel)
    } else {
        false
    }
}

/// The members of `s` in `lo..=hi`, largest first.
pub open spec fn desc_in(s: Set<int>, lo: int, hi: int) -> Seq<int>
    decreases hi - lo + 1,
{
    if hi < lo {
        Seq::empty()
    } else if s.contains(hi) {
        seq![hi] + desc_in(s, lo, hi - 1)
    } else {
        desc_in(s, lo, hi - 1)
    }
}

/// What `desc_in` lists.
pub proof fn lemma_desc_in_members(s: Set<int>, lo: int, hi: int)
    ensures
        forall|e: int| #[trigger] desc_in(s, lo, hi).contains(e) <==> lo <= e <= hi && s.contains(e),
    decreases hi - lo + 1,
{
    if hi >= lo {
        lemma_desc_in_members(s, lo, hi - 1);
        let rest = desc_in(s, lo, hi - 1);
        assert forall|e: int| #[trigger] desc_in(s, lo, hi).contains(e) <==> lo <= e <= hi && s.contains(e) by {
            if s.contains(hi) {
                let d = seq![hi] + rest;
                assert(d[0] == hi);
                if d.contains(e) {
                    let j = choose|j: int| 0 <= j < d.len() && d[j] == e;
                    if j > 0 {
                        assert(rest[j - 1] == e);
                    }
                }
                if rest.contains(e) {
                    let j = choose|j: int| 0 <= j < rest.len() && rest[j] == e;
                    assert(d[j + 1] == e);
                }
            }
        }
    }
}

/// The first member of `desc_in(s, lo, hi)` beyond `start` is the largest member of `s` in
/// `lo..=hi`.
pub proof fn lemma_first_of_desc_in(s: Set<int>, lo: int, hi: int, start: int, top: int)
    requires
        hi <= top,
    ensures
        first_beyond(desc_in(s, lo, hi), start, top, 0) matches Some(e) ==> forall|x: int|
            #[trigger] s.contains(x) && lo <= x <= hi ==> x <= e,
    decreases hi - lo + 1,
{
    let d = desc_in(s, lo, hi);
    if hi >= lo {
        if s.contains(hi) {
            if start < hi {
                assert(d[0] == hi);
                assert(first_beyond(d, start, top, 0) == Some(hi));
            } else {
                lemma_first_beyond_range(d, start, top, 0);
                lemma_desc_in_members(s, lo, hi);
            }
        } else {
            lemma_first_of_desc_in(s, lo, hi - 1, start, top);
        }
    }
}

/// The end positions of pattern `p` started at token `pos`, most preferred first, without
/// repeats: longest first when `p` holds no repetition or option of a wildcard. Rule references
/// are expanded at most `fuel` levels deep.
pub open spec fn pref(g: Seq<SpecRule>, nodes: Seq<SpecNode>, p: SpecPattern, pos: int, fuel: nat) -> Seq<int>
    decreases fuel, p, 0int, 0int,
{
    if !has_lazy(g, p, fuel) {
        desc_in(ends(g, nodes, p, pos, fuel), pos, nodes.len() as int)
    } else {
        match p {
            SpecPattern::Token(pred) => if 0 <= pos < nodes.len() && predicate_holds(nodes[pos], pred) {
                seq![pos + 1]
            } else {
                Seq::empty()
            },
            SpecPattern::Wildcard => if 0 <= pos < nodes.len() {
                seq![pos + 1]
            } else {
                Seq::empty()
            },
            SpecPattern::WildcardCapture(_) => if 0 <= pos < nodes.len() {
                seq![pos + 1]
            } else {
                Seq::empty()
            },
            SpecPattern::Sequence(items) => pref_seq(g, nodes, items, 0, seq![pos], fuel),
            SpecPattern::Alternative(alts) => pref_alt(g, nodes, alts, alts.len() as int, pos, fuel),
            SpecPattern::Optional(inner) => if is_lazy(*inner) {
                merge_new(seq![pos], pref(g, nodes, *inner, pos, fuel))
            } else {
                add_new(pref(g, nodes, *inner, pos, fuel), pos)
            },
            SpecPattern::ZeroOrMore(inner) => pref_star(g, nodes, *inner, pos, fuel),
            SpecPattern::OneOrMore(inner) => {
                let es = pref(g, nodes, *inner, pos, fuel);
                plus_cont(g, nodes, *inner, es, es.len() as int, fuel)
            },
            SpecPattern::RuleRef(name) => if fuel == 0 {
                Seq::empty()
            } else {
                match first_rule(g, name) {
                    Some(i) => if 0 <= i < g.len() {
                        pref(g, nodes, g[i].pattern, pos, (fuel - 1) as nat)
                    } else {
                        Seq::empty()
                    },
                    None => Seq::empty(),
                }
            },
        }
    }
}

/// Ends of `items[i..]` matched in turn from the positions `starts`, tried in their order.
pub open spec fn pref_seq(
    g: Seq<SpecRule>,
    nodes: Seq<SpecNode>,
    items: Seq<SpecPattern>,
    i: int,
    starts: Seq<int>,
    fuel: nat,
) -> Seq<int>
    decreases fuel, items, items.len() - i, 0int,
{
    if 0 <= i < items.len() {
        pref_seq(g, nodes, items, i + 1, pref_step(g, nodes, items[i], starts, starts.len() as int, fuel), fuel)
    } else {
        starts
    }
}

/// Ends of one match of `item` from each of `starts[..k]` in turn.
pub open spec fn pref_step(
    g: Seq<SpecRule>,
    nodes: Seq<SpecNode>,
    item: SpecPattern,
    starts: Seq<int>,
    k: int,
    fuel: nat,
) -> Seq<int>
    decreases fuel, item, 1int, k,
{
    if k <= 0 || k > starts.len() {
        Seq::empty()
    } else {
        merge_new(pref_step(g, nodes, item, starts, k - 1, fuel), pref(g, nodes, item, starts[k - 1], fuel))
    }
}

/// Ends of `alts[..k]`, the earlier alternatives first.
pub open spec fn pref_alt(
    g: Seq<SpecRule>,
    nodes: Seq<SpecNode>,
    alts: Seq<SpecPattern>,
    k: int,
    pos: int,
    fuel: nat,
) -> Seq<int>
    decreases fuel, alts, k, 0int,
{
    if k <= 0 || k > alts.len() {
        Seq::empty()
    } else {
        merge_new(pref_alt(g, nodes, alts, k - 1, pos, fuel), pref(g, nodes, alts[k - 1], pos, fuel))
    }
}

/// Ends of zero or more matches of `inner` from `pos`, each consuming at least one token.
pub open spec fn pref_star(g: Seq<SpecRule>, nodes: Seq<SpecNode>, inner: SpecPattern, pos: int, fuel: nat) -> Seq<int>
    decreases fuel, inner, 2 * (nodes.len() - pos) + 3, 0int,
{
    if pos < 0 || pos > nodes.len() {
        Seq::empty()
    } else {
        let es = pref(g, nodes, inner, pos, fuel);
        let more = star_cont(g, nodes, inner, pos, es, es.len() as int, fuel);
        if is_lazy(inner) {
            merge_new(seq![pos], more)
        } else {
            add_new(more, pos)
        }
    }
}

/// Ends of further repetitions after a first match of `inner` from `pos` ending at one of
/// `es[..k]` (those that consume a token), tried in order.
pub open spec fn star_cont(
    g: Seq<SpecRule>,
    nodes: Seq<SpecNode>,
    inner: SpecPattern,
    pos: int,
    es: Seq<int>,
    k: int,
    fuel: nat,
) -> Seq<int>
    decreases fuel, inner, 2 * (nodes.len() - pos) + 2, k,
{
    if k <= 0 || k > es.len() {
        Seq::empty()
    } else {
        let prev = star_cont(g, nodes, inner, pos, es, k - 1, fuel);
        let e = es[k - 1];
        if pos < e <= nodes.len() {
            merge_new(prev, pref_star(g, nodes, inner, e, fuel))
        } else {
            prev
        }
    }
}

/// Ends of one or more matches of `inner` whose first match ends at one of `es[..k]`.
pub open spec fn plus_cont(
    g: Seq<SpecRule>,
    nodes: Seq<SpecNode>,
    inner: SpecPattern,
    es: Seq<int>,
    k: int,
    fuel: nat,
) -> Seq<int>
    decreases fuel, inner, 2 * nodes.len() + 4, k,
{
    if k <= 0 || k > es.len() {
        Seq::empty()
    } else {
        let prev = plus_cont(g, nodes, inner, es, k - 1, fuel);
        let e = es[k - 1];
        if 0 <= e <= nodes.len() {
            merge_new(prev, pref_star(g, nodes, inner, e, fuel))
        } else {
            prev
        }
    }
}

/// The most preferred entry of `s` in `start + 1..=hi`, looking from index `i` on.
pub open spec fn first_beyond(s: Seq<int>, start: int, hi: int, i: int) -> Option<int>
    decreases s.len() - i,
{
    if i < 0 || i >= s.len() {
        None
    } else if start < s[i] <= hi {
        Some(s[i])
    } else {
        first_beyond(s, start, hi, i + 1)
    }
}

/// What `first_beyond` picks is an entry of `s` in `start + 1..=hi`.
pub proof fn lemma_first_beyond_range(s: Seq<int>, start: int, hi: int, i: int)
    requires
        0 <= i,
    ensures
        first_beyond(s, start, hi, i) matches Some(e) ==> start < e <= hi && s.contains(e),
        first_beyond(s, start, hi, i) is None ==> forall|j: int| i <= j < s.len() ==> !(start < #[trigger] s[j] <= hi),
    decreases s.len() - i,
{
    if 0 <= i < s.len() {
        lemma_first_beyond_range(s, start, hi, i + 1);
        if first_beyond(s, start, hi, i) is None {
            assert forall|j: int| i <= j < s.len() implies !(start < #[trigger] s[j] <= hi) by {
                if j == i {
                    assert(!(start < s[i] <= hi));
                }
            }
        }
    }
}

// ── Implementation ─────────────────────────────────────────────────────────

/// Every entry of `v` lies in `lo..=hi`.
pub open spec fn in_range(v: Seq<usize>, lo: int, hi: int) -> bool {
    forall|j: int| 0 <= j < v.len() ==> lo <= #[trigger] v[j] <= hi
}

fn add_new_exec(v: &mut Vec<usize>, x: usize, Ghost(lo): Ghost<int>, Ghost(hi): Ghost<int>)
    requires
        in_range(old(v)@, lo, hi),
        lo <= x <= hi,
    ensures
        int_positions(final(v)@) == add_new(int_positions(old(v)@), x as int),
        in_range(final(v)@, lo, hi),
{
    let ghost before = int_positions(v@);
    let mut i: usize = 0;
    while i < v.len()
        invariant
            i <= v.len(),
            before == int_positions(v@),
            in_range(v@, lo, hi),
            forall|j: int| 0 <= j < i ==> v@[j] != x,
        decreases v.len() - i,
    {
        if v[i] == x {
            assert(before[i as int] == x as int);
            assert(before.contains(x as int));
            return;
        }
        i += 1;
    }
    assert(!before.contains(x as int)) by {
        if before.contains(x as int) {
            let j = choose|j: int| 0 <= j < before.len() && before[j] == x as int;
            assert(v@[j] == x);
        }
    }
    v.push(x);
    assert(int_positions(v@) =~= before.push(x as int));
}

fn merge_new_exec(v: &mut Vec<usize>, t: &Vec<usize>, Ghost(lo): Ghost<int>, Ghost(hi): Ghost<int>)
    requires
        in_range(old(v)@, lo, hi),
        in_range(t@, lo, hi),
    ensures
        int_positions(final(v)@) == merge_new(int_positions(old(v)@), int_positions(t@)),
        in_range(final(v)@, lo, hi),
{
    let ghost start = int_positions(v@);
    let ghost tv = int_positions(t@);
    let mut i: usize = 0;
    assert(tv.take(0) =~= Seq::<int>::empty());
    while i < t.len()
        invariant
            i <= t.len(),
            tv == int_positions(t@),
            in_range(t@, lo, hi),
            in_range(v@, lo, hi),
            int_positions(v@) == merge_new(start, tv.take(i as int)),
        decreases t.len() - i,
    {
        assert(tv.take(i + 1).drop_last() =~= tv.take(i as int));
        assert(tv.take(i + 1).last() == t@[i as int] as int);
        add_new_exec(v, t[i], Ghost(lo), Ghost(hi));
        i += 1;
    }
    assert(tv.take(t.len() as int) =~= tv);
}

fn is_lazy_exec(inner: &PatternExpr) -> (res: bool)
    ensures
        res == is_lazy(inner@),
{
    match inner {
        PatternExpr::Wildcard => true,
        PatternExpr::WildcardCapture(_) => true,
        _ => false,
    }
}

/// Whether `pattern` holds a repetition or option of a wildcard.
#[verifier::loop_isolation(false)]
fn has_lazy_exec(grammar: &Grammar, pattern: &PatternExpr, fuel: usize) -> (res: bool)
    ensures
        res == has_lazy(grammar@, pattern@, fuel as nat),
    decreases fuel, pattern,
{
    let ghost g = grammar@;
    match pattern {
        PatternExpr::Sequence(items) => {
            proof {
                crate::syntax::lemma_group_views(*items);
            }
            let ghost iv = crate::syntax::pattern_views(items@);
            let mut i: usize = 0;
            while i < items.len()
                invariant
                    i <= items.len(),
                    iv == crate::syntax::pattern_views(items@),
                    any_lazy(g, iv, 0, fuel as nat) == any_lazy(g, iv, i as int, fuel as nat),
                decreases items.len() - i,
            {
                proof {
                    assert(decreases_to!(items@ => items@[i as int]));
                }
                assert(iv[i as int] == items@[i as int]@);
                if has_lazy_exec(grammar, &items[i], fuel) {
                    return true;
                }
                i += 1;
            }
            false
        },
        PatternExpr::Alternative(items) => {
            proof {
                crate::syntax::lemma_group_views(*items);
            }
            let ghost iv = crate::syntax::pattern_views(items@);
            let mut i: usize = 0;
            while i < items.len()
                invariant
                    i <= items.len(),
                    iv == crate::syntax::pattern_views(items@),
                    any_lazy(g, iv, 0, fuel as nat) == any_lazy(g, iv, i as int, fuel as nat),
                decreases items.len() - i,
            {
                proof {
                    assert(decreases_to!(items@ => items@[i as int]));
                }
                assert(iv[i as int] == items@[i as int]@);
                if has_lazy_exec(grammar, &items[i], fuel) {
                    return true;
                }
                i += 1;
            }
            false
        },
        PatternExpr::Optional(inner) | PatternExpr::ZeroOrMore(inner) | PatternExpr::OneOrMore(inner) => {
            is_lazy_exec(inner) || has_lazy_exec(grammar, inner, fuel)
        },
        PatternExpr::RuleRef(name) => {
            if fuel == 0 {
                return false;
            }
            let nc = crate::text::chars_of(name.as_str());
            proof {
                lemma_first_rule_from_bounds(g, name@, 0);
            }
            match grammar.find_rule_index(nc.as_slice()) {
                Some(i) => {
                    assert(g[i as int] == grammar.rules@[i as int]@);
                    has_lazy_exec(grammar, &grammar.rules[i].pattern, fuel - 1)
                },
                None => false,
            }
        },
        _ => false,
    }
}

/// The entries of `v`, last first.
fn reversed(v: &Vec<usize>) -> (r: Vec<usize>)
    ensures
        r@ == v@.reverse(),
{
    let mut r: Vec<usize> = Vec::new();
    let mut i: usize = v.len();
    while i > 0
        invariant
            i <= v.len(),
            r@.len() == v.len() - i,
            forall|j: int| 0 <= j < r@.len() ==> r@[j] == v@[v.len() - 1 - j],
        decreases i,
    {
        i -= 1;
        r.push(v[i]);
    }
    assert(r@ =~= v@.reverse());
    r
}

/// Listed last first, a strictly increasing vector holding exactly the members of `s` in
/// `lo..=hi` lists them largest first.
proof fn lemma_desc_in_sorted(v: Seq<usize>, s: Set<int>, lo: int, hi: int)
    requires
        strictly_sorted(v),
        within(v, lo, hi),
        forall|e: int| lo <= e <= hi ==> (s.contains(e) <==> #[trigger] vec_set(v).contains(e)),
    ensures
        int_positions(v).reverse() == desc_in(s, lo, hi),
    decreases hi - lo + 1,
{
    if hi < lo {
        if v.len() > 0 {
            assert(lo <= v[0] <= hi);
        }
        assert(int_positions(v).reverse() =~= Seq::<int>::empty());
    } else {
        let w = if v.len() > 0 && v[v.len() - 1] == hi { v.drop_last() } else { v };
        assert(strictly_sorted(w));
        assert forall|i: int| 0 <= i < w.len() implies lo <= #[trigger] w[i] <= hi - 1 by {
            assert(w[i] == v[i]);
            if w[i] == hi {
                assert(vec_set(v).contains(hi));
                if i < v.len() - 1 {
                    assert(v[i] < v[v.len() - 1]);
                }
            }
        }
        assert forall|e: int| lo <= e <= hi - 1 implies (s.contains(e) <==> #[trigger] vec_set(w).contains(e)) by {
            if vec_set(v).contains(e) {
                let j = choose|j: int| 0 <= j < v.len() && v[j] as int == e;
                assert(w[j] == v[j]);
            }
            if vec_set(w).contains(e) {
                let j = choose|j: int| 0 <= j < w.len() && w[j] as int == e;
                assert(v[j] == w[j]);
            }
            assert(vec_set(v).contains(e) <==> s.contains(e));
        }
        lemma_desc_in_sorted(w, s, lo, hi - 1);
        if s.contains(hi) {
            assert(vec_set(v).contains(hi));
            let j = choose|j: int| 0 <= j < v.len() && v[j] as int == hi;
            if j < v.len() - 1 {
                assert(v[j] < v[v.len() - 1]);
            }
            assert(w =~= v.drop_last());
            assert(int_positions(v).reverse() =~= seq![hi] + int_positions(w).reverse());
        } else {
            if v.len() > 0 && v[v.len() - 1] == hi {
                assert(vec_set(v).contains(hi));
            }
        }
    }
}

/// The end positions of `pattern` started at token `pos`, most preferred first.
#[verifier::loop_isolation(false)]
pub fn preferred_ends(
    grammar: &Grammar,
    pattern: &PatternExpr,
    nodes: &[MecabNode],
    pos: usize,
    fuel: usize,
) -> (res: Vec<usize>)
    requires
        pos <= nodes.len(),
    ensures
        int_positions(res@) == pref(grammar@, node_views(nodes@), pattern@, pos as int, fuel as nat),
        in_range(res@, pos as int, nodes.len() as int),
    decreases fuel, pattern, 0int, 0int,
{
    let ghost g = grammar@;
    let ghost nv = node_views(nodes@);
    let ghost n = nodes.len() as int;
    if !has_lazy_exec(grammar, pattern, fuel) {
        let v = match_at(grammar, pattern, nodes, pos, fuel);
        let r = reversed(&v);
        proof {
            lemma_desc_in_sorted(v@, ends(g, nv, pattern@, pos as int, fuel as nat), pos as int, n);
            assert(int_positions(r@) =~= int_positions(v@).reverse());
            assert forall|j: int| 0 <= j < r@.len() implies pos <= #[trigger] r@[j] <= n by {
                assert(r@[j] == v@[v@.len() - 1 - j]);
            }
        }
        return r;
    }
    match pattern {
        PatternExpr::Token(pred) => {
            let mut r: Vec<usize> = Vec::new();
            if pos < nodes.len() && token_matches(&nodes[pos], pred) {
                r.push(pos + 1);
            }
            proof {
                assert(pattern@ == SpecPattern::Token((**pred)@));
                if pos < nodes.len() {
                    assert(nv[pos as int] == nodes@[pos as int]@);
                }
                assert(int_positions(r@) =~= pref(g, nv, pattern@, pos as int, fuel as nat));
            }
            r
        },
        PatternExpr::Wildcard | PatternExpr::WildcardCapture(_) => {
            let mut r: Vec<usize> = Vec::new();
            if pos < nodes.len() {
                r.push(pos + 1);
            }
            assert(int_positions(r@) =~= pref(g, nv, pattern@, pos as int, fuel as nat));
            r
        },
        PatternExpr::Sequence(items) => {
            proof {
                crate::syntax::lemma_group_views(*items);
            }
            let ghost iv = crate::syntax::pattern_views(items@);
            let mut starts: Vec<usize> = Vec::new();
            starts.push(pos);
            assert(int_positions(starts@) =~= seq![pos as int]);
            let mut i: usize = 0;
            while i < items.len()
                invariant
                    i <= items.len(),
                    iv == crate::syntax::pattern_views(items@),
                    in_range(starts@, pos as int, n),
                    pref(g, nv, pattern@, pos as int, fuel as nat) == pref_seq(g, nv, iv, i as int, int_positions(starts@), fuel as nat),
                decreases items.len() - i,
            {
                proof {
                    assert(decreases_to!(items@ => items@[i as int]));
                }
                let ghost sv = int_positions(starts@);
                let mut next: Vec<usize> = Vec::new();
                let mut j: usize = 0;
                assert(int_positions(next@) =~= pref_step(g, nv, iv[i as int], sv, 0, fuel as nat));
                while j < starts.len()
                    invariant
                        j <= starts.len(),
                        sv == int_positions(starts@),
                        in_range(starts@, pos as int, n),
                        in_range(next@, pos as int, n),
                        int_positions(next@) == pref_step(g, nv, iv[i as int], sv, j as int, fuel as nat),
                    decreases starts.len() - j,
                {
                    let r = preferred_ends(grammar, &items[i], nodes, starts[j], fuel);
                    assert(iv[i as int] == items@[i as int]@);
                    assert(in_range(r@, pos as int, n));
                    merge_new_exec(&mut next, &r, Ghost(pos as int), Ghost(n));
                    j += 1;
                }
                starts = next;
                i += 1;
            }
            starts
        },
        PatternExpr::Alternative(items) => {
            proof {
                crate::syntax::lemma_group_views(*items);
            }
            let ghost iv = crate::syntax::pattern_views(items@);
            let mut acc: Vec<usize> = Vec::new();
            let mut i: usize = 0;
            assert(int_positions(acc@) =~= pref_alt(g, nv, iv, 0, pos as int, fuel as nat));
            while i < items.len()
                invariant
                    i <= items.len(),
                    iv == crate::syntax::pattern_views(items@),
                    in_range(acc@, pos as int, n),
                    int_positions(acc@) == pref_alt(g, nv, iv, i as int, pos as int, fuel as nat),
                decreases items.len() - i,
            {
                proof {
                    assert(decreases_to!(items@ => items@[i as int]));
                }
                let r = preferred_ends(grammar, &items[i], nodes, pos, fuel);
                assert(iv[i as int] == items@[i as int]@);
                merge_new_exec(&mut acc, &r, Ghost(pos as int), Ghost(n));
                i += 1;
            }
            acc
        },
        PatternExpr::Optional(inner) => {
            let r = preferred_ends(grammar, inner, nodes, pos, fuel);
            if is_lazy_exec(inner) {
                let mut v: Vec<usize> = Vec::new();
                v.push(pos);
                assert(int_positions(v@) =~= seq![pos as int]);
                merge_new_exec(&mut v, &r, Ghost(pos as int), Ghost(n));
                v
            } else {
                let mut v = r;
                add_new_exec(&mut v, pos, Ghost(pos as int), Ghost(n));
                v
            }
        },
        PatternExpr::ZeroOrMore(inner) => star_ends(grammar, inner, nodes, pos, fuel),
        PatternExpr::OneOrMore(inner) => {
            let es = preferred_ends(grammar, inner, nodes, pos, fuel);
            let ghost ev = int_positions(es@);
            let mut acc: Vec<usize> = Vec::new();
            let mut k: usize = 0;
            assert(int_positions(acc@) =~= plus_cont(g, nv, inner@, ev, 0, fuel as nat));
            while k < es.len()
                invariant
                    k <= es.len(),
                    ev == int_positions(es@),
                    in_range(es@, pos as int, n),
                    in_range(acc@, pos as int, n),
                    int_positions(acc@) == plus_cont(g, nv, inner@, ev, k as int, fuel as nat),
                decreases es.len() - k,
            {
                let e = es[k];
                let r = star_ends(grammar, inner, nodes, e, fuel);
                merge_new_exec(&mut acc, &r, Ghost(pos as int), Ghost(n));
                k += 1;
            }
            acc
        },
        PatternExpr::RuleRef(name) => {
            if fuel == 0 {
                let r: Vec<usize> = Vec::new();
                assert(int_positions(r@) =~= Seq::<int>::empty());
                return r;
            }
            let nc = crate::text::chars_of(name.as_str());
            proof {
                lemma_first_rule_from_bounds(g, name@, 0);
            }
            match grammar.find_rule_index(nc.as_slice()) {
                Some(i) => {
                    assert(g[i as int] == grammar.rules@[i as int]@);
                    preferred_ends(grammar, &grammar.rules[i].pattern, nodes, pos, fuel - 1)
                },
                None => {
                    let r: Vec<usize> = Vec::new();
                    assert(int_positions(r@) =~= Seq::<int>::empty());
                    r
                },
            }
        },
    }
}

/// The repetition ends from `e`, kept for `e < n` in `table` and for `e == n` in `top`.
pub open spec fn stored(table: Seq<Vec<usize>>, top: Seq<usize>, n: int, e: int) -> Seq<usize> {
    if e == n {
        top
    } else {
        table[e]@
    }
}

/// The repetition ends from `q`, given those from every later position.
#[verifier::loop_isolation(false)]
fn star_entry(
    grammar: &Grammar,
    inner: &PatternExpr,
    nodes: &[MecabNode],
    q: usize,
    fuel: usize,
    table: &Vec<Vec<usize>>,
    top: &Vec<usize>,
) -> (res: Vec<usize>)
    requires
        q <= nodes.len(),
        table@.len() == nodes.len(),
        forall|e: int|
            q < e <= nodes.len() ==> int_positions(#[trigger] stored(table@, top@, nodes.len() as int, e))
                == pref_star(grammar@, node_views(nodes@), inner@, e, fuel as nat) && in_range(
                stored(table@, top@, nodes.len() as int, e),
                e,
                nodes.len() as int,
            ),
    ensures
        int_positions(res@) == pref_star(grammar@, node_views(nodes@), inner@, q as int, fuel as nat),
        in_range(res@, q as int, nodes.len() as int),
    decreases fuel, inner, 1int, 0int,
{
    let ghost g = grammar@;
    let ghost nv = node_views(nodes@);
    let n = nodes.len();
    let es = preferred_ends(grammar, inner, nodes, q, fuel);
    let ghost ev = int_positions(es@);
    let mut cont: Vec<usize> = Vec::new();
    let mut k: usize = 0;
    assert(int_positions(cont@) =~= star_cont(g, nv, inner@, q as int, ev, 0, fuel as nat));
    while k < es.len()
        invariant
            k <= es.len(),
            ev == int_positions(es@),
            in_range(es@, q as int, n as int),
            in_range(cont@, q as int, n as int),
            int_positions(cont@) == star_cont(g, nv, inner@, q as int, ev, k as int, fuel as nat),
        decreases es.len() - k,
    {
        let e = es[k];
        if q < e {
            let ghost te = stored(table@, top@, n as int, e as int);
            assert(in_range(te, e as int, n as int));
            assert(in_range(te, q as int, n as int)) by {
                assert forall|j: int| 0 <= j < te.len() implies q <= #[trigger] te[j] <= n by {
                    assert(e <= te[j]);
                }
            }
            if e == n {
                merge_new_exec(&mut cont, top, Ghost(q as int), Ghost(n as int));
            } else {
                merge_new_exec(&mut cont, &table[e], Ghost(q as int), Ghost(n as int));
            }
        }
        k += 1;
    }
    if is_lazy_exec(inner) {
        let mut v: Vec<usize> = Vec::new();
        v.push(q);
        assert(int_positions(v@) =~= seq![q as int]);
        merge_new_exec(&mut v, &cont, Ghost(q as int), Ghost(n as int));
        v
    } else {
        let mut v = cont;
        add_new_exec(&mut v, q, Ghost(q as int), Ghost(n as int));
        v
    }
}

/// The end positions of zero or more consuming matches of `inner` from `pos`, most preferred
/// first; computed for every start from the end of the tokens back to `pos`.
#[verifier::loop_isolation(false)]
fn star_ends(grammar: &Grammar, inner: &PatternExpr, nodes: &[MecabNode], pos: usize, fuel: usize) -> (res: Vec<usize>)
    requires
        pos <= nodes.len(),
    ensures
        int_positions(res@) == pref_star(grammar@, node_views(nodes@), inner@, pos as int, fuel as nat),
        in_range(res@, pos as int, nodes.len() as int),
    decreases fuel, inner, 2int, 0int,
{
    let ghost g = grammar@;
    let ghost nv = node_views(nodes@);
    let n = nodes.len();
    let mut table: Vec<Vec<usize>> = Vec::new();
    let mut t: usize = 0;
    while t < n
        invariant
            t <= n,
            table@.len() == t,
        decreases n - t,
    {
        table.push(Vec::new());
        t += 1;
    }
    let empty: Vec<usize> = Vec::new();
    let top = star_entry(grammar, inner, nodes, n, fuel, &table, &empty);
    let mut q: usize = n;
    while q > pos
        invariant
            pos <= q <= n,
            table@.len() == n,
            forall|e: int|
                q <= e <= n ==> int_positions(#[trigger] stored(table@, top@, n as int, e)) == pref_star(
                    g,
                    nv,
                    inner@,
                    e,
                    fuel as nat,
                ) && in_range(stored(table@, top@, n as int, e), e, n as int),
        decreases q,
    {
        let entry = star_entry(grammar, inner, nodes, q - 1, fuel, &table, &top);
        let ghost before = table@;
        table.set(q - 1, entry);
        assert forall|e: int| q - 1 <= e <= n implies int_positions(#[trigger] stored(table@, top@, n as int, e))
            == pref_star(g, nv, inner@, e, fuel as nat) && in_range(stored(table@, top@, n as int, e), e, n as int) by {
            if e != q - 1 && e != n {
                assert(table@[e] == before[e]);
                assert(stored(before, top@, n as int, e) == stored(table@, top@, n as int, e));
            }
        }
        q -= 1;
    }
    if pos == n {
        top
    } else {
        assert(stored(table@, top@, n as int, pos as int) == table@[pos as int]@);
        table.remove(pos)
    }
}


// ── Soundness: every preferred end is an end ──────────────────────────────

proof fn lemma_push_contains(s: Seq<int>, x: int, e: int)
    ensures
        s.push(x).contains(e) <==> s.contains(e) || e == x,
{
    if s.contains(e) {
        let j = choose|j: int| 0 <= j < s.len() && s[j] == e;
        assert(s.push(x)[j] == e);
    }
    if e == x {
        assert(s.push(x)[s.len() as int] == x);
    }
    if s.push(x).contains(e) {
        let j = choose|j: int| 0 <= j < s.push(x).len() && s.push(x)[j] == e;
        if j < s.len() {
            assert(s[j] == e);
        }
    }
}

proof fn lemma_add_new_contains(s: Seq<int>, x: int, e: int)
    ensures
        add_new(s, x).contains(e) <==> s.contains(e) || e == x,
{
    lemma_push_contains(s, x, e);
}

proof fn lemma_merge_new_contains(s: Seq<int>, t: Seq<int>, e: int)
    ensures
        merge_new(s, t).contains(e) <==> s.contains(e) || t.contains(e),
    decreases t.len(),
{
    if t.len() > 0 {
        lemma_merge_new_contains(s, t.drop_last(), e);
        lemma_add_new_contains(merge_new(s, t.drop_last()), t.last(), e);
        assert(t.drop_last().push(t.last()) =~= t);
        lemma_push_contains(t.drop_last(), t.last(), e);
    }
}

pub(crate) proof fn lemma_star_k_more_rounds(
    g: Seq<SpecRule>,
    nodes: Seq<SpecNode>,
    inner: SpecPattern,
    from: Set<int>,
    k: nat,
    k2: nat,
    fuel: nat,
)
    requires
        k <= k2,
    ensures
        star_k(g, nodes, inner, from, k, fuel).subset_of(star_k(g, nodes, inner, from, k2, fuel)),
    decreases k2,
{
    if k < k2 {
        lemma_star_k_more_rounds(g, nodes, inner, from, k, (k2 - 1) as nat, fuel);
    }
}

proof fn lemma_star_k_larger_from(
    g: Seq<SpecRule>,
    nodes: Seq<SpecNode>,
    inner: SpecPattern,
    a: Set<int>,
    b: Set<int>,
    k: nat,
    fuel: nat,
)
    requires
        a.subset_of(b),
    ensures
        star_k(g, nodes, inner, a, k, fuel).subset_of(star_k(g, nodes, inner, b, k, fuel)),
    decreases k,
{
    if k > 0 {
        lemma_star_k_larger_from(g, nodes, inner, a, b, (k - 1) as nat, fuel);
        let pa = star_k(g, nodes, inner, a, (k - 1) as nat, fuel);
        let pb = star_k(g, nodes, inner, b, (k - 1) as nat, fuel);
        assert(star_k(g, nodes, inner, a, k, fuel) == pa.union(succ(g, nodes, inner, pa, fuel)));
        assert(star_k(g, nodes, inner, b, k, fuel) == pb.union(succ(g, nodes, inner, pb, fuel)));
        assert forall|e: int| succ(g, nodes, inner, pa, fuel).contains(e) implies succ(g, nodes, inner, pb, fuel).contains(e) by {
            let q = choose|q: int| pa.contains(q) && q < e && ends(g, nodes, inner, q, fuel).contains(e);
            assert(pb.contains(q));
        }
    }
}

/// Repetitions started after one first repetition are repetitions from the start.
pub(crate) proof fn lemma_star_k_compose(
    g: Seq<SpecRule>,
    nodes: Seq<SpecNode>,
    inner: SpecPattern,
    a: Set<int>,
    b: Set<int>,
    m: nat,
    fuel: nat,
)
    requires
        a.subset_of(star_k(g, nodes, inner, b, 1, fuel)),
    ensures
        star_k(g, nodes, inner, a, m, fuel).subset_of(star_k(g, nodes, inner, b, m + 1, fuel)),
    decreases m,
{
    if m > 0 {
        lemma_star_k_compose(g, nodes, inner, a, b, (m - 1) as nat, fuel);
        let pa = star_k(g, nodes, inner, a, (m - 1) as nat, fuel);
        let pb = star_k(g, nodes, inner, b, m, fuel);
        assert(star_k(g, nodes, inner, a, m, fuel) == pa.union(succ(g, nodes, inner, pa, fuel)));
        assert(star_k(g, nodes, inner, b, m + 1, fuel) == pb.union(succ(g, nodes, inner, pb, fuel)));
        assert forall|e: int| succ(g, nodes, inner, pa, fuel).contains(e) implies succ(g, nodes, inner, pb, fuel).contains(e) by {
            let q = choose|q: int| pa.contains(q) && q < e && ends(g, nodes, inner, q, fuel).contains(e);
            assert(pb.contains(q));
        }
    }
}

/// Every end `pref` lists is an end of the pattern.
pub proof fn lemma_pref_sound(g: Seq<SpecRule>, nodes: Seq<SpecNode>, p: SpecPattern, pos: int, fuel: nat)
    ensures
        forall|e: int| #[trigger] pref(g, nodes, p, pos, fuel).contains(e) ==> ends(g, nodes, p, pos, fuel).contains(e),
    decreases fuel, p, 0int, 0int,
{
    let n = nodes.len() as int;
    if !has_lazy(g, p, fuel) {
        lemma_desc_in_members(ends(g, nodes, p, pos, fuel), pos, nodes.len() as int);
    } else {
        match p {
            SpecPattern::Token(_) | SpecPattern::Wildcard | SpecPattern::WildcardCapture(_) => {},
            SpecPattern::Sequence(items) => {
                assert forall|x: int| #[trigger] seq![pos].contains(x) implies set![pos].contains(x) by {
                    if seq![pos].contains(x) {
                        let j = choose|j: int| 0 <= j < 1 && seq![pos][j] == x;
                    }
                }
                lemma_pref_seq_sound(g, nodes, items, 0, seq![pos], set![pos], fuel);
                assert(pref(g, nodes, p, pos, fuel) == pref_seq(g, nodes, items, 0, seq![pos], fuel));
                assert(ends(g, nodes, p, pos, fuel) == seq_ends(g, nodes, items, 0, set![pos], fuel));
            },
            SpecPattern::Alternative(alts) => {
                lemma_pref_alt_sound(g, nodes, alts, alts.len() as int, pos, fuel);
                assert(pref(g, nodes, p, pos, fuel) == pref_alt(g, nodes, alts, alts.len() as int, pos, fuel));
                assert(ends(g, nodes, p, pos, fuel) == alt_ends(g, nodes, alts, 0, pos, fuel));
                assert forall|e: int| #[trigger] pref(g, nodes, p, pos, fuel).contains(e) implies ends(g, nodes, p, pos, fuel).contains(e) by {
                    let j = choose|j: int| 0 <= j < alts.len() && ends(g, nodes, alts[j], pos, fuel).contains(e);
                    lemma_alt_ends_has(g, nodes, alts, 0, j, pos, fuel);
                }
            },
            SpecPattern::Optional(inner) => {
                lemma_pref_sound(g, nodes, *inner, pos, fuel);
                assert forall|e: int| #[trigger] pref(g, nodes, p, pos, fuel).contains(e) implies ends(g, nodes, p, pos, fuel).contains(e) by {
                    lemma_merge_new_contains(seq![pos], pref(g, nodes, *inner, pos, fuel), e);
                    lemma_add_new_contains(pref(g, nodes, *inner, pos, fuel), pos, e);
                    if seq![pos].contains(e) {
                        let j = choose|j: int| 0 <= j < 1 && seq![pos][j] == e;
                    }
                }
            },
            SpecPattern::ZeroOrMore(inner) => {
                assert(pref(g, nodes, p, pos, fuel) == pref_star(g, nodes, *inner, pos, fuel));
                if !(0 <= pos <= n) {
                    assert(pref_star(g, nodes, *inner, pos, fuel) =~= Seq::<int>::empty());
                } else {
                    lemma_pref_star_sound(g, nodes, *inner, pos, fuel);
                    assert(pref(g, nodes, p, pos, fuel) == pref_star(g, nodes, *inner, pos, fuel));
                    assert(ends(g, nodes, p, pos, fuel) == star(g, nodes, *inner, set![pos], fuel));
                    assert forall|e: int| #[trigger] pref(g, nodes, p, pos, fuel).contains(e) implies ends(g, nodes, p, pos, fuel).contains(e) by {
                        lemma_star_k_more_rounds(g, nodes, *inner, set![pos], (e - pos) as nat, (n + 1) as nat, fuel);
                    }
                }
            },
            SpecPattern::OneOrMore(inner) => {
                let es = pref(g, nodes, *inner, pos, fuel);
                let first = ends(g, nodes, *inner, pos, fuel);
                lemma_pref_sound(g, nodes, *inner, pos, fuel);
                lemma_plus_cont_sound(g, nodes, *inner, es, es.len() as int, fuel);
                assert(pref(g, nodes, p, pos, fuel) == plus_cont(g, nodes, *inner, es, es.len() as int, fuel));
                assert(ends(g, nodes, p, pos, fuel) == star(g, nodes, *inner, first, fuel));
                assert forall|e: int| #[trigger] pref(g, nodes, p, pos, fuel).contains(e) implies ends(g, nodes, p, pos, fuel).contains(e) by {
                    let j = choose|j: int|
                        0 <= j < es.len() && 0 <= es[j] <= n && pref_star(g, nodes, *inner, es[j], fuel).contains(e);
                    lemma_pref_star_sound(g, nodes, *inner, es[j], fuel);
                    assert(es.contains(es[j]));
                    assert(set![es[j]].subset_of(first));
                    lemma_star_k_larger_from(g, nodes, *inner, set![es[j]], first, (e - es[j]) as nat, fuel);
                    lemma_star_k_more_rounds(g, nodes, *inner, first, (e - es[j]) as nat, (n + 1) as nat, fuel);
                }
            },
            SpecPattern::RuleRef(name) => {
                let ps = pref(g, nodes, p, pos, fuel);
                if fuel > 0 && first_rule(g, name) is Some && 0 <= first_rule(g, name)->0 < g.len() {
                    let i = first_rule(g, name)->0;
                    lemma_pref_sound(g, nodes, g[i].pattern, pos, (fuel - 1) as nat);
                    assert(ps == pref(g, nodes, g[i].pattern, pos, (fuel - 1) as nat));
                    assert(ends(g, nodes, p, pos, fuel) == ends(g, nodes, g[i].pattern, pos, (fuel - 1) as nat));
                } else {
                    assert(ps =~= Seq::<int>::empty());
                }
            },
        }
    }
}

proof fn lemma_alt_ends_has(
    g: Seq<SpecRule>,
    nodes: Seq<SpecNode>,
    alts: Seq<SpecPattern>,
    i: int,
    j: int,
    pos: int,
    fuel: nat,
)
    requires
        0 <= i <= j < alts.len(),
    ensures
        ends(g, nodes, alts[j], pos, fuel).subset_of(alt_ends(g, nodes, alts, i, pos, fuel)),
    decreases j - i,
{
    if i < j {
        lemma_alt_ends_has(g, nodes, alts, i + 1, j, pos, fuel);
    }
}

proof fn lemma_pref_alt_sound(
    g: Seq<SpecRule>,
    nodes: Seq<SpecNode>,
    alts: Seq<SpecPattern>,
    k: int,
    pos: int,
    fuel: nat,
)
    ensures
        forall|e: int| #[trigger] pref_alt(g, nodes, alts, k, pos, fuel).contains(e) ==> exists|j: int|
            0 <= j < k && j < alts.len() && ends(g, nodes, alts[j], pos, fuel).contains(e),
    decreases fuel, alts, k, 0int,
{
    if 0 < k <= alts.len() {
        lemma_pref_alt_sound(g, nodes, alts, k - 1, pos, fuel);
        lemma_pref_sound(g, nodes, alts[k - 1], pos, fuel);
        assert forall|e: int| #[trigger] pref_alt(g, nodes, alts, k, pos, fuel).contains(e) implies exists|j: int|
            0 <= j < k && j < alts.len() && ends(g, nodes, alts[j], pos, fuel).contains(e) by {
            lemma_merge_new_contains(pref_alt(g, nodes, alts, k - 1, pos, fuel), pref(g, nodes, alts[k - 1], pos, fuel), e);
            if pref(g, nodes, alts[k - 1], pos, fuel).contains(e) {
                assert(ends(g, nodes, alts[k - 1], pos, fuel).contains(e));
            }
        }
    }
}

proof fn lemma_pref_step_sound(
    g: Seq<SpecRule>,
    nodes: Seq<SpecNode>,
    item: SpecPattern,
    starts: Seq<int>,
    k: int,
    fuel: nat,
)
    ensures
        forall|e: int| #[trigger] pref_step(g, nodes, item, starts, k, fuel).contains(e) ==> exists|j: int|
            0 <= j < k && j < starts.len() && ends(g, nodes, item, starts[j], fuel).contains(e),
    decreases fuel, item, 1int, k,
{
    if 0 < k <= starts.len() {
        lemma_pref_step_sound(g, nodes, item, starts, k - 1, fuel);
        lemma_pref_sound(g, nodes, item, starts[k - 1], fuel);
        assert forall|e: int| #[trigger] pref_step(g, nodes, item, starts, k, fuel).contains(e) implies exists|j: int|
            0 <= j < k && j < starts.len() && ends(g, nodes, item, starts[j], fuel).contains(e) by {
            lemma_merge_new_contains(
                pref_step(g, nodes, item, starts, k - 1, fuel),
                pref(g, nodes, item, starts[k - 1], fuel),
                e,
            );
            if pref(g, nodes, item, starts[k - 1], fuel).contains(e) {
                assert(ends(g, nodes, item, starts[k - 1], fuel).contains(e));
            }
        }
    }
}

proof fn lemma_pref_seq_sound(
    g: Seq<SpecRule>,
    nodes: Seq<SpecNode>,
    items: Seq<SpecPattern>,
    i: int,
    starts: Seq<int>,
    from: Set<int>,
    fuel: nat,
)
    requires
        forall|x: int| #[trigger] starts.contains(x) ==> from.contains(x),
    ensures
        forall|e: int| #[trigger] pref_seq(g, nodes, items, i, starts, fuel).contains(e) ==> seq_ends(
            g,
            nodes,
            items,
            i,
            from,
            fuel,
        ).contains(e),
    decreases fuel, items, items.len() - i, 0int,
{
    if 0 <= i < items.len() {
        let next = pref_step(g, nodes, items[i], starts, starts.len() as int, fuel);
        let nf = seq_step(g, nodes, items[i], from, fuel);
        lemma_pref_step_sound(g, nodes, items[i], starts, starts.len() as int, fuel);
        assert forall|x: int| #[trigger] next.contains(x) implies nf.contains(x) by {
            let j = choose|j: int|
                0 <= j < starts.len() && ends(g, nodes, items[i], starts[j], fuel).contains(x);
            assert(starts.contains(starts[j]));
        }
        lemma_pref_seq_sound(g, nodes, items, i + 1, next, nf, fuel);
        assert(pref_seq(g, nodes, items, i, starts, fuel) == pref_seq(g, nodes, items, i + 1, next, fuel));
        assert(seq_ends(g, nodes, items, i, from, fuel) == seq_ends(g, nodes, items, i + 1, nf, fuel));
    }
}

proof fn lemma_star_cont_sound(
    g: Seq<SpecRule>,
    nodes: Seq<SpecNode>,
    inner: SpecPattern,
    pos: int,
    es: Seq<int>,
    k: int,
    fuel: nat,
)
    ensures
        forall|e: int| #[trigger] star_cont(g, nodes, inner, pos, es, k, fuel).contains(e) ==> exists|j: int|
            0 <= j < k && j < es.len() && pos < es[j] <= nodes.len() && pref_star(g, nodes, inner, es[j], fuel).contains(e),
    decreases k,
{
    if 0 < k <= es.len() {
        lemma_star_cont_sound(g, nodes, inner, pos, es, k - 1, fuel);
        assert forall|e: int| #[trigger] star_cont(g, nodes, inner, pos, es, k, fuel).contains(e) implies exists|j: int|
            0 <= j < k && j < es.len() && pos < es[j] <= nodes.len() && pref_star(g, nodes, inner, es[j], fuel).contains(e) by {
            let e1 = es[k - 1];
            if pos < e1 <= nodes.len() {
                lemma_merge_new_contains(
                    star_cont(g, nodes, inner, pos, es, k - 1, fuel),
                    pref_star(g, nodes, inner, e1, fuel),
                    e,
                );
            }
        }
    }
}

proof fn lemma_plus_cont_sound(
    g: Seq<SpecRule>,
    nodes: Seq<SpecNode>,
    inner: SpecPattern,
    es: Seq<int>,
    k: int,
    fuel: nat,
)
    ensures
        forall|e: int| #[trigger] plus_cont(g, nodes, inner, es, k, fuel).contains(e) ==> exists|j: int|
            0 <= j < k && j < es.len() && 0 <= es[j] <= nodes.len() && pref_star(g, nodes, inner, es[j], fuel).contains(e),
    decreases k,
{
    if 0 < k <= es.len() {
        lemma_plus_cont_sound(g, nodes, inner, es, k - 1, fuel);
        assert forall|e: int| #[trigger] plus_cont(g, nodes, inner, es, k, fuel).contains(e) implies exists|j: int|
            0 <= j < k && j < es.len() && 0 <= es[j] <= nodes.len() && pref_star(g, nodes, inner, es[j], fuel).contains(e) by {
            let e1 = es[k - 1];
            let prev = plus_cont(g, nodes, inner, es, k - 1, fuel);
            if 0 <= e1 <= nodes.len() {
                lemma_merge_new_contains(prev, pref_star(g, nodes, inner, e1, fuel), e);
                if pref_star(g, nodes, inner, e1, fuel).contains(e) {
                    assert(0 <= k - 1 < k && k - 1 < es.len() && 0 <= es[k - 1] <= nodes.len()
                        && pref_star(g, nodes, inner, es[k - 1], fuel).contains(e));
                } else {
                    assert(prev.contains(e));
                }
            } else {
                assert(prev.contains(e));
            }
        }
    }
}

/// Each end of a preferred repetition from `pos` lies in `pos..=n` and is reached by at most
/// `e - pos` consuming matches.
proof fn lemma_pref_star_sound(g: Seq<SpecRule>, nodes: Seq<SpecNode>, inner: SpecPattern, pos: int, fuel: nat)
    requires
        0 <= pos <= nodes.len(),
    ensures
        forall|e: int| #[trigger] pref_star(g, nodes, inner, pos, fuel).contains(e) ==> pos <= e <= nodes.len()
            && star_k(g, nodes, inner, set![pos], (e - pos) as nat, fuel).contains(e),
    decreases fuel, inner, 2 * (nodes.len() - pos) + 3, 0int,
{
    let es = pref(g, nodes, inner, pos, fuel);
    let more = star_cont(g, nodes, inner, pos, es, es.len() as int, fuel);
    lemma_pref_sound(g, nodes, inner, pos, fuel);
    lemma_star_cont_sound(g, nodes, inner, pos, es, es.len() as int, fuel);
    assert forall|e: int| #[trigger] pref_star(g, nodes, inner, pos, fuel).contains(e) implies pos <= e <= nodes.len()
        && star_k(g, nodes, inner, set![pos], (e - pos) as nat, fuel).contains(e) by {
        lemma_merge_new_contains(seq![pos], more, e);
        lemma_add_new_contains(more, pos, e);
        if seq![pos].contains(e) {
            let j = choose|j: int| 0 <= j < 1 && seq![pos][j] == e;
        }
        if e != pos {
            assert(more.contains(e));
            let j = choose|j: int|
                0 <= j < es.len() && pos < es[j] <= nodes.len() && pref_star(g, nodes, inner, es[j], fuel).contains(e);
            let mid = es[j];
            lemma_pref_star_sound(g, nodes, inner, mid, fuel);
            assert(es.contains(mid));
            assert(ends(g, nodes, inner, pos, fuel).contains(mid));
            let one = star_k(g, nodes, inner, set![pos], 1, fuel);
            assert(star_k(g, nodes, inner, set![pos], 0, fuel).contains(pos));
            assert(succ(g, nodes, inner, set![pos], fuel).contains(mid));
            assert(set![mid].subset_of(one));
            lemma_star_k_compose(g, nodes, inner, set![mid], set![pos], (e - mid) as nat, fuel);
            lemma_star_k_more_rounds(g, nodes, inner, set![pos], (e - mid + 1) as nat, (e - pos) as nat, fuel);
        }
    }
}


// ── Completeness: every end is a preferred end ────────────────────────────

/// The ends of a pattern started at `pos` lie in `pos..=n`.
pub proof fn lemma_ends_bounds(g: Seq<SpecRule>, nodes: Seq<SpecNode>, p: SpecPattern, pos: int, fuel: nat)
    requires
        0 <= pos <= nodes.len(),
    ensures
        forall|e: int| #[trigger] ends(g, nodes, p, pos, fuel).contains(e) ==> pos <= e <= nodes.len(),
    decreases fuel, p, 0nat, 0nat,
{
    let n = nodes.len() as int;
    match p {
        SpecPattern::Sequence(items) => {
            assert(ends(g, nodes, p, pos, fuel) == seq_ends(g, nodes, items, 0, set![pos], fuel));
            lemma_seq_ends_bounds(g, nodes, items, 0, set![pos], pos, fuel);
        },
        SpecPattern::Alternative(alts) => {
            assert(ends(g, nodes, p, pos, fuel) == alt_ends(g, nodes, alts, 0, pos, fuel));
            lemma_alt_ends_bounds(g, nodes, alts, 0, pos, fuel);
        },
        SpecPattern::Optional(inner) => {
            assert(ends(g, nodes, p, pos, fuel) == set![pos].union(ends(g, nodes, *inner, pos, fuel)));
            lemma_ends_bounds(g, nodes, *inner, pos, fuel);
        },
        SpecPattern::ZeroOrMore(inner) => {
            assert(ends(g, nodes, p, pos, fuel) == star(g, nodes, *inner, set![pos], fuel));
            assert(star(g, nodes, *inner, set![pos], fuel) == star_k(g, nodes, *inner, set![pos], (n + 1) as nat, fuel));
            lemma_star_k_bounds(g, nodes, *inner, set![pos], pos, (n + 1) as nat, fuel);
        },
        SpecPattern::OneOrMore(inner) => {
            let first = ends(g, nodes, *inner, pos, fuel);
            assert(ends(g, nodes, p, pos, fuel) == star(g, nodes, *inner, first, fuel));
            assert(star(g, nodes, *inner, first, fuel) == star_k(g, nodes, *inner, first, (n + 1) as nat, fuel));
            lemma_ends_bounds(g, nodes, *inner, pos, fuel);
            lemma_star_k_bounds(g, nodes, *inner, first, pos, (n + 1) as nat, fuel);
        },
        SpecPattern::RuleRef(name) => {
            if fuel > 0 && first_rule(g, name) is Some && 0 <= first_rule(g, name)->0 < g.len() {
                let i = first_rule(g, name)->0;
                assert(ends(g, nodes, p, pos, fuel) == ends(g, nodes, g[i].pattern, pos, (fuel - 1) as nat));
                lemma_ends_bounds(g, nodes, g[i].pattern, pos, (fuel - 1) as nat);
            } else {
                assert(ends(g, nodes, p, pos, fuel) =~= Set::<int>::empty());
            }
        },
        _ => {},
    }
}

pub(crate) proof fn lemma_seq_ends_bounds(
    g: Seq<SpecRule>,
    nodes: Seq<SpecNode>,
    items: Seq<SpecPattern>,
    i: int,
    from: Set<int>,
    lo: int,
    fuel: nat,
)
    requires
        0 <= lo,
        forall|x: int| #[trigger] from.contains(x) ==> lo <= x <= nodes.len(),
    ensures
        forall|e: int| #[trigger] seq_ends(g, nodes, items, i, from, fuel).contains(e) ==> lo <= e <= nodes.len(),
    decreases fuel, items, items.len() - i, 0nat,
{
    if 0 <= i < items.len() {
        let nf = seq_step(g, nodes, items[i], from, fuel);
        assert forall|x: int| #[trigger] nf.contains(x) implies lo <= x <= nodes.len() by {
            let q = choose|q: int| from.contains(q) && ends(g, nodes, items[i], q, fuel).contains(x);
            lemma_ends_bounds(g, nodes, items[i], q, fuel);
        }
        lemma_seq_ends_bounds(g, nodes, items, i + 1, nf, lo, fuel);
        assert(seq_ends(g, nodes, items, i, from, fuel) == seq_ends(g, nodes, items, i + 1, nf, fuel));
    }
}

proof fn lemma_alt_ends_bounds(
    g: Seq<SpecRule>,
    nodes: Seq<SpecNode>,
    alts: Seq<SpecPattern>,
    i: int,
    pos: int,
    fuel: nat,
)
    requires
        0 <= pos <= nodes.len(),
    ensures
        forall|e: int| #[trigger] alt_ends(g, nodes, alts, i, pos, fuel).contains(e) ==> pos <= e <= nodes.len(),
    decreases fuel, alts, alts.len() - i, 0nat,
{
    if 0 <= i < alts.len() {
        lemma_ends_bounds(g, nodes, alts[i], pos, fuel);
        lemma_alt_ends_bounds(g, nodes, alts, i + 1, pos, fuel);
        assert(alt_ends(g, nodes, alts, i, pos, fuel) == ends(g, nodes, alts[i], pos, fuel).union(
            alt_ends(g, nodes, alts, i + 1, pos, fuel),
        ));
    } else {
        assert(alt_ends(g, nodes, alts, i, pos, fuel) =~= Set::<int>::empty());
    }
}

pub(crate) proof fn lemma_star_k_bounds(
    g: Seq<SpecRule>,
    nodes: Seq<SpecNode>,
    inner: SpecPattern,
    from: Set<int>,
    lo: int,
    k: nat,
    fuel: nat,
)
    requires
        0 <= lo,
        forall|x: int| #[trigger] from.contains(x) ==> lo <= x <= nodes.len(),
    ensures
        forall|e: int| #[trigger] star_k(g, nodes, inner, from, k, fuel).contains(e) ==> lo <= e <= nodes.len(),
    decreases fuel, inner, 2nat, k,
{
    if k > 0 {
        lemma_star_k_bounds(g, nodes, inner, from, lo, (k - 1) as nat, fuel);
        let prev = star_k(g, nodes, inner, from, (k - 1) as nat, fuel);
        assert(star_k(g, nodes, inner, from, k, fuel) == prev.union(succ(g, nodes, inner, prev, fuel)));
        assert forall|e: int| #[trigger] succ(g, nodes, inner, prev, fuel).contains(e) implies lo <= e <= nodes.len() by {
            let q = choose|q: int| prev.contains(q) && q < e && ends(g, nodes, inner, q, fuel).contains(e);
            lemma_ends_bounds(g, nodes, inner, q, fuel);
        }
    }
}

proof fn lemma_pref_alt_has(
    g: Seq<SpecRule>,
    nodes: Seq<SpecNode>,
    alts: Seq<SpecPattern>,
    j: int,
    k: int,
    pos: int,
    fuel: nat,
    e: int,
)
    requires
        0 <= j < k <= alts.len(),
        pref(g, nodes, alts[j], pos, fuel).contains(e),
    ensures
        pref_alt(g, nodes, alts, k, pos, fuel).contains(e),
    decreases k,
{
    lemma_merge_new_contains(pref_alt(g, nodes, alts, k - 1, pos, fuel), pref(g, nodes, alts[k - 1], pos, fuel), e);
    if j < k - 1 {
        lemma_pref_alt_has(g, nodes, alts, j, k - 1, pos, fuel, e);
    }
}

proof fn lemma_pref_step_has(
    g: Seq<SpecRule>,
    nodes: Seq<SpecNode>,
    item: SpecPattern,
    starts: Seq<int>,
    j: int,
    k: int,
    fuel: nat,
    e: int,
)
    requires
        0 <= j < k <= starts.len(),
        pref(g, nodes, item, starts[j], fuel).contains(e),
    ensures
        pref_step(g, nodes, item, starts, k, fuel).contains(e),
    decreases k,
{
    lemma_merge_new_contains(pref_step(g, nodes, item, starts, k - 1, fuel), pref(g, nodes, item, starts[k - 1], fuel), e);
    if j < k - 1 {
        lemma_pref_step_has(g, nodes, item, starts, j, k - 1, fuel, e);
    }
}

proof fn lemma_star_cont_has(
    g: Seq<SpecRule>,
    nodes: Seq<SpecNode>,
    inner: SpecPattern,
    pos: int,
    es: Seq<int>,
    j: int,
    k: int,
    fuel: nat,
    e: int,
)
    requires
        0 <= j < k <= es.len(),
        pos < es[j] <= nodes.len(),
        pref_star(g, nodes, inner, es[j], fuel).contains(e),
    ensures
        star_cont(g, nodes, inner, pos, es, k, fuel).contains(e),
    decreases k,
{
    if j < k - 1 {
        lemma_star_cont_has(g, nodes, inner, pos, es, j, k - 1, fuel, e);
    }
    let prev = star_cont(g, nodes, inner, pos, es, k - 1, fuel);
    if pos < es[k - 1] <= nodes.len() {
        lemma_merge_new_contains(prev, pref_star(g, nodes, inner, es[k - 1], fuel), e);
    }
}

proof fn lemma_plus_cont_has(
    g: Seq<SpecRule>,
    nodes: Seq<SpecNode>,
    inner: SpecPattern,
    es: Seq<int>,
    j: int,
    k: int,
    fuel: nat,
    e: int,
)
    requires
        0 <= j < k <= es.len(),
        0 <= es[j] <= nodes.len(),
        pref_star(g, nodes, inner, es[j], fuel).contains(e),
    ensures
        plus_cont(g, nodes, inner, es, k, fuel).contains(e),
    decreases k,
{
    if j < k - 1 {
        lemma_plus_cont_has(g, nodes, inner, es, j, k - 1, fuel, e);
    }
    let prev = plus_cont(g, nodes, inner, es, k - 1, fuel);
    if 0 <= es[k - 1] <= nodes.len() {
        lemma_merge_new_contains(prev, pref_star(g, nodes, inner, es[k - 1], fuel), e);
    }
}

/// A preferred repetition from `pos` can stop at `pos` itself.
proof fn lemma_pref_star_has_start(g: Seq<SpecRule>, nodes: Seq<SpecNode>, inner: SpecPattern, pos: int, fuel: nat)
    requires
        0 <= pos <= nodes.len(),
    ensures
        pref_star(g, nodes, inner, pos, fuel).contains(pos),
{
    let es = pref(g, nodes, inner, pos, fuel);
    let more = star_cont(g, nodes, inner, pos, es, es.len() as int, fuel);
    lemma_merge_new_contains(seq![pos], more, pos);
    lemma_add_new_contains(more, pos, pos);
    assert(seq![pos][0] == pos);
}

/// Every end of the pattern is among the ends `pref` lists.
proof fn lemma_pref_complete(g: Seq<SpecRule>, nodes: Seq<SpecNode>, p: SpecPattern, pos: int, fuel: nat)
    requires
        0 <= pos <= nodes.len(),
    ensures
        forall|e: int| #[trigger] ends(g, nodes, p, pos, fuel).contains(e) ==> pref(g, nodes, p, pos, fuel).contains(e),
    decreases fuel, p, 0int, 0int,
{
    let n = nodes.len() as int;
    if !has_lazy(g, p, fuel) {
        lemma_desc_in_members(ends(g, nodes, p, pos, fuel), pos, nodes.len() as int);
        lemma_ends_bounds(g, nodes, p, pos, fuel);
    } else {
        match p {
            SpecPattern::Token(_) | SpecPattern::Wildcard | SpecPattern::WildcardCapture(_) => {},
            SpecPattern::Sequence(items) => {
                assert(seq![pos][0] == pos);
                lemma_pref_seq_complete(g, nodes, items, 0, seq![pos], set![pos], pos, fuel);
                assert(pref(g, nodes, p, pos, fuel) == pref_seq(g, nodes, items, 0, seq![pos], fuel));
                assert(ends(g, nodes, p, pos, fuel) == seq_ends(g, nodes, items, 0, set![pos], fuel));
            },
            SpecPattern::Alternative(alts) => {
                assert(pref(g, nodes, p, pos, fuel) == pref_alt(g, nodes, alts, alts.len() as int, pos, fuel));
                assert(ends(g, nodes, p, pos, fuel) == alt_ends(g, nodes, alts, 0, pos, fuel));
                lemma_pref_alt_complete(g, nodes, alts, 0, pos, fuel);
            },
            SpecPattern::Optional(inner) => {
                lemma_pref_complete(g, nodes, *inner, pos, fuel);
                assert(ends(g, nodes, p, pos, fuel) == set![pos].union(ends(g, nodes, *inner, pos, fuel)));
                assert(pref(g, nodes, p, pos, fuel) == (if is_lazy(*inner) {
                    merge_new(seq![pos], pref(g, nodes, *inner, pos, fuel))
                } else {
                    add_new(pref(g, nodes, *inner, pos, fuel), pos)
                }));
                assert forall|e: int| #[trigger] ends(g, nodes, p, pos, fuel).contains(e) implies pref(g, nodes, p, pos, fuel).contains(e) by {
                    lemma_merge_new_contains(seq![pos], pref(g, nodes, *inner, pos, fuel), e);
                    lemma_add_new_contains(pref(g, nodes, *inner, pos, fuel), pos, e);
                    assert(seq![pos][0] == pos);
                }
            },
            SpecPattern::ZeroOrMore(inner) => {
                assert(pref(g, nodes, p, pos, fuel) == pref_star(g, nodes, *inner, pos, fuel));
                assert(ends(g, nodes, p, pos, fuel) == star(g, nodes, *inner, set![pos], fuel));
                assert(star(g, nodes, *inner, set![pos], fuel) == star_k(g, nodes, *inner, set![pos], (n + 1) as nat, fuel));
                lemma_star_k_in_pref_star(g, nodes, *inner, pos, (n + 1) as nat, fuel);
            },
            SpecPattern::OneOrMore(inner) => {
                assert(pref(g, nodes, p, pos, fuel) == plus_cont(g, nodes, *inner, pref(g, nodes, *inner, pos, fuel), pref(g, nodes, *inner, pos, fuel).len() as int, fuel));
                let first = ends(g, nodes, *inner, pos, fuel);
                assert(ends(g, nodes, p, pos, fuel) == star(g, nodes, *inner, first, fuel));
                assert(star(g, nodes, *inner, first, fuel) == star_k(g, nodes, *inner, first, (n + 1) as nat, fuel));
                lemma_star_k_in_plus_cont(g, nodes, *inner, pos, (n + 1) as nat, fuel);
            },
            SpecPattern::RuleRef(name) => {
                if fuel > 0 && first_rule(g, name) is Some && 0 <= first_rule(g, name)->0 < g.len() {
                    let i = first_rule(g, name)->0;
                    lemma_pref_complete(g, nodes, g[i].pattern, pos, (fuel - 1) as nat);
                    assert(pref(g, nodes, p, pos, fuel) == pref(g, nodes, g[i].pattern, pos, (fuel - 1) as nat));
                    assert(ends(g, nodes, p, pos, fuel) == ends(g, nodes, g[i].pattern, pos, (fuel - 1) as nat));
                } else {
                    assert(ends(g, nodes, p, pos, fuel) =~= Set::<int>::empty());
                }
            },
        }
    }
}

proof fn lemma_pref_alt_complete(
    g: Seq<SpecRule>,
    nodes: Seq<SpecNode>,
    alts: Seq<SpecPattern>,
    i: int,
    pos: int,
    fuel: nat,
)
    requires
        0 <= pos <= nodes.len(),
        0 <= i,
    ensures
        forall|e: int| #[trigger] alt_ends(g, nodes, alts, i, pos, fuel).contains(e) ==> pref_alt(
            g,
            nodes,
            alts,
            alts.len() as int,
            pos,
            fuel,
        ).contains(e),
    decreases fuel, alts, alts.len() - i, 0int,
{
    if 0 <= i < alts.len() {
        lemma_pref_alt_complete(g, nodes, alts, i + 1, pos, fuel);
        lemma_pref_complete(g, nodes, alts[i], pos, fuel);
        assert(alt_ends(g, nodes, alts, i, pos, fuel) == ends(g, nodes, alts[i], pos, fuel).union(
            alt_ends(g, nodes, alts, i + 1, pos, fuel),
        ));
        assert forall|e: int| #[trigger] alt_ends(g, nodes, alts, i, pos, fuel).contains(e) implies pref_alt(
            g,
            nodes,
            alts,
            alts.len() as int,
            pos,
            fuel,
        ).contains(e) by {
            if ends(g, nodes, alts[i], pos, fuel).contains(e) {
                lemma_pref_alt_has(g, nodes, alts, i, alts.len() as int, pos, fuel, e);
            }
        }
    }
}

proof fn lemma_pref_seq_complete(
    g: Seq<SpecRule>,
    nodes: Seq<SpecNode>,
    items: Seq<SpecPattern>,
    i: int,
    starts: Seq<int>,
    from: Set<int>,
    lo: int,
    fuel: nat,
)
    requires
        0 <= lo,
        forall|x: int| #[trigger] from.contains(x) ==> lo <= x <= nodes.len() && starts.contains(x),
    ensures
        forall|e: int| #[trigger] seq_ends(g, nodes, items, i, from, fuel).contains(e) ==> pref_seq(
            g,
            nodes,
            items,
            i,
            starts,
            fuel,
        ).contains(e),
    decreases fuel, items, items.len() - i, 0int,
{
    if 0 <= i < items.len() {
        let next = pref_step(g, nodes, items[i], starts, starts.len() as int, fuel);
        let nf = seq_step(g, nodes, items[i], from, fuel);
        assert forall|x: int| #[trigger] nf.contains(x) implies lo <= x <= nodes.len() && next.contains(x) by {
            let q = choose|q: int| from.contains(q) && ends(g, nodes, items[i], q, fuel).contains(x);
            lemma_ends_bounds(g, nodes, items[i], q, fuel);
            lemma_pref_complete(g, nodes, items[i], q, fuel);
            let j = choose|j: int| 0 <= j < starts.len() && starts[j] == q;
            lemma_pref_step_has(g, nodes, items[i], starts, j, starts.len() as int, fuel, x);
        }
        lemma_pref_seq_complete(g, nodes, items, i + 1, next, nf, lo, fuel);
        assert(pref_seq(g, nodes, items, i, starts, fuel) == pref_seq(g, nodes, items, i + 1, next, fuel));
        assert(seq_ends(g, nodes, items, i, from, fuel) == seq_ends(g, nodes, items, i + 1, nf, fuel));
    }
}

/// A preferred repetition is closed under one more consuming match.
proof fn lemma_pref_star_closed(
    g: Seq<SpecRule>,
    nodes: Seq<SpecNode>,
    inner: SpecPattern,
    pos: int,
    q: int,
    e: int,
    fuel: nat,
)
    requires
        0 <= pos <= nodes.len(),
        pref_star(g, nodes, inner, pos, fuel).contains(q),
        q < e,
        ends(g, nodes, inner, q, fuel).contains(e),
    ensures
        pref_star(g, nodes, inner, pos, fuel).contains(e),
    decreases fuel, inner, 2 * (nodes.len() - pos) + 3, 0int,
{
    let n = nodes.len() as int;
    let es = pref(g, nodes, inner, pos, fuel);
    let more = star_cont(g, nodes, inner, pos, es, es.len() as int, fuel);
    lemma_pref_star_sound(g, nodes, inner, pos, fuel);
    lemma_merge_new_contains(seq![pos], more, q);
    lemma_add_new_contains(more, pos, q);
    lemma_merge_new_contains(seq![pos], more, e);
    lemma_add_new_contains(more, pos, e);
    if q == pos {
        lemma_ends_bounds(g, nodes, inner, pos, fuel);
        lemma_pref_complete(g, nodes, inner, pos, fuel);
        let j = choose|j: int| 0 <= j < es.len() && es[j] == e;
        lemma_pref_star_has_start(g, nodes, inner, e, fuel);
        lemma_star_cont_has(g, nodes, inner, pos, es, j, es.len() as int, fuel, e);
    } else {
        if seq![pos].contains(q) {
            let j = choose|j: int| 0 <= j < 1 && seq![pos][j] == q;
        }
        assert(more.contains(q));
        lemma_star_cont_sound(g, nodes, inner, pos, es, es.len() as int, fuel);
        let j = choose|j: int|
            0 <= j < es.len() && pos < es[j] <= nodes.len() && pref_star(g, nodes, inner, es[j], fuel).contains(q);
        lemma_pref_star_closed(g, nodes, inner, es[j], q, e, fuel);
        lemma_star_cont_has(g, nodes, inner, pos, es, j, es.len() as int, fuel, e);
    }
}

proof fn lemma_star_k_in_pref_star(
    g: Seq<SpecRule>,
    nodes: Seq<SpecNode>,
    inner: SpecPattern,
    pos: int,
    k: nat,
    fuel: nat,
)
    requires
        0 <= pos <= nodes.len(),
    ensures
        forall|e: int| #[trigger] star_k(g, nodes, inner, set![pos], k, fuel).contains(e) ==> pref_star(
            g,
            nodes,
            inner,
            pos,
            fuel,
        ).contains(e),
    decreases fuel, inner, (2 * nodes.len() + 5) as int, k,
{
    if k == 0 {
        lemma_pref_star_has_start(g, nodes, inner, pos, fuel);
    } else {
        lemma_star_k_in_pref_star(g, nodes, inner, pos, (k - 1) as nat, fuel);
        let prev = star_k(g, nodes, inner, set![pos], (k - 1) as nat, fuel);
        assert(star_k(g, nodes, inner, set![pos], k, fuel) == prev.union(succ(g, nodes, inner, prev, fuel)));
        assert forall|e: int| #[trigger] succ(g, nodes, inner, prev, fuel).contains(e) implies pref_star(
            g,
            nodes,
            inner,
            pos,
            fuel,
        ).contains(e) by {
            let q = choose|q: int| prev.contains(q) && q < e && ends(g, nodes, inner, q, fuel).contains(e);
            lemma_pref_star_closed(g, nodes, inner, pos, q, e, fuel);
        }
    }
}

proof fn lemma_star_k_in_plus_cont(
    g: Seq<SpecRule>,
    nodes: Seq<SpecNode>,
    inner: SpecPattern,
    pos: int,
    k: nat,
    fuel: nat,
)
    requires
        0 <= pos <= nodes.len(),
    ensures
        forall|e: int| #[trigger] star_k(g, nodes, inner, ends(g, nodes, inner, pos, fuel), k, fuel).contains(e)
            ==> plus_cont(
            g,
            nodes,
            inner,
            pref(g, nodes, inner, pos, fuel),
            pref(g, nodes, inner, pos, fuel).len() as int,
            fuel,
        ).contains(e),
    decreases fuel, inner, (2 * nodes.len() + 5) as int, k,
{
    let es = pref(g, nodes, inner, pos, fuel);
    let first = ends(g, nodes, inner, pos, fuel);
    let pc = plus_cont(g, nodes, inner, es, es.len() as int, fuel);
    if k == 0 {
        lemma_ends_bounds(g, nodes, inner, pos, fuel);
        lemma_pref_complete(g, nodes, inner, pos, fuel);
        assert forall|e: int| #[trigger] first.contains(e) implies pc.contains(e) by {
            let j = choose|j: int| 0 <= j < es.len() && es[j] == e;
            lemma_pref_star_has_start(g, nodes, inner, e, fuel);
            lemma_plus_cont_has(g, nodes, inner, es, j, es.len() as int, fuel, e);
        }
    } else {
        lemma_star_k_in_plus_cont(g, nodes, inner, pos, (k - 1) as nat, fuel);
        let prev = star_k(g, nodes, inner, first, (k - 1) as nat, fuel);
        assert(star_k(g, nodes, inner, first, k, fuel) == prev.union(succ(g, nodes, inner, prev, fuel)));
        lemma_plus_cont_sound(g, nodes, inner, es, es.len() as int, fuel);
        assert forall|e: int| #[trigger] succ(g, nodes, inner, prev, fuel).contains(e) implies pc.contains(e) by {
            let q = choose|q: int| prev.contains(q) && q < e && ends(g, nodes, inner, q, fuel).contains(e);
            assert(pc.contains(q));
            let j = choose|j: int|
                0 <= j < es.len() && 0 <= es[j] <= nodes.len() && pref_star(g, nodes, inner, es[j], fuel).contains(q);
            lemma_pref_star_closed(g, nodes, inner, es[j], q, e, fuel);
            lemma_plus_cont_has(g, nodes, inner, es, j, es.len() as int, fuel, e);
        }
    }
}


/// Preference only orders the ends: from a token inside the sequence (or just past it), the
/// ends `preferred_ends` lists are exactly the ends `match_at` lists.
pub proof fn law_preferred_ends_are_ends(g: Seq<SpecRule>, nodes: Seq<SpecNode>, p: SpecPattern, pos: int, fuel: nat)
    requires
        0 <= pos <= nodes.len(),
    ensures
        forall|e: int| #[trigger] pref(g, nodes, p, pos, fuel).contains(e) <==> ends(g, nodes, p, pos, fuel).contains(e),
{
    lemma_pref_sound(g, nodes, p, pos, fuel);
    lemma_pref_complete(g, nodes, p, pos, fuel);
}

} // verus!
