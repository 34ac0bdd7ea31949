//! Pattern matching engine: which token spans a grammar pattern matches.
use vstd::prelude::*;
use crate::node::{node_views, MecabNode, SpecNode};
use crate::positions::{
    contains_pos, insert_pos, lemma_sorted_len_bound, strictly_sorted, union_into, vec_set, within,
};
use crate::syntax::{
    copy_examples, copy_opt_string, copy_strings,
    example_views, first_rule, lemma_first_rule_from_bounds, opt_string_view, string_views, Example, Grammar,
    PatternExpr, RuleMetadata, SpecExample, SpecMetadata, SpecPattern, SpecRule,
};
use crate::prefer::{
    desc_in, first_beyond, has_lazy, in_range, lemma_first_of_desc_in, law_preferred_ends_are_ends, lemma_ends_bounds, lemma_first_beyond_range, lemma_pref_sound,
    pref, preferred_ends,
};
use crate::text::chars_of;
use crate::token::{predicate_holds, token_matches};

verus! {

// ── Semantics ──────────────────────────────────────────────────────────────

/// The positions just after one token at `pos`, if there is one.
pub open spec fn one_token(nodes: Seq<SpecNode>, pos: int) -> Set<int> {
    if 0 <= pos < nodes.len() {
        set![pos + 1]
    } else {
        Set::empty()
    }
}

/// The end positions at which pattern `p`, started at token `pos`, can stop.
/// Rule references are expanded at most `fuel` levels deep; a reference met with no fuel left
/// matches nothing (only a rule that can reach itself without consuming a token nests that deep).
pub open spec fn ends(
    g: Seq<SpecRule>,
    nodes: Seq<SpecNode>,
    p: SpecPattern,
    pos: int,
    fuel: nat,
) -> Set<int>
    decreases fuel, p, 0nat, 0nat,
{
    match p {
        SpecPattern::Token(pred) => if 0 <= pos < nodes.len() && predicate_holds(nodes[pos], pred) {
            set![pos + 1]
        } else {
            Set::empty()
        },
        SpecPattern::Wildcard => one_token(nodes, pos),
        SpecPattern::WildcardCapture(_) => one_token(nodes, pos),
        SpecPattern::Sequence(items) => seq_ends(g, nodes, items, 0, set![pos], fuel),
        SpecPattern::Alternative(alts) => alt_ends(g, nodes, alts, 0, pos, fuel),
        SpecPattern::Optional(inner) => set![pos].union(ends(g, nodes, *inner, pos, fuel)),
        SpecPattern::ZeroOrMore(inner) => star(g, nodes, *inner, set![pos], fuel),
        SpecPattern::OneOrMore(inner) => star(g, nodes, *inner, ends(g, nodes, *inner, pos, fuel), fuel),
        SpecPattern::RuleRef(name) => if fuel == 0 {
            Set::empty()
        } else {
            match first_rule(g, name) {
                Some(i) => if 0 <= i < g.len() {
                    ends(g, nodes, g[i].pattern, pos, (fuel - 1) as nat)
                } else {
                    Set::empty()
                },
                None => Set::empty(),
            }
        },
    }
}

/// Positions reached by matching `items[i..]` in turn, starting from any position in `from`.
pub open spec fn seq_ends(
    g: Seq<SpecRule>,
    nodes: Seq<SpecNode>,
    items: Seq<SpecPattern>,
    i: int,
    from: Set<int>,
    fuel: nat,
) -> Set<int>
    decreases fuel, items, items.len() - i, 0nat,
{
    if 0 <= i < items.len() {
        seq_ends(g, nodes, items, i + 1, seq_step(g, nodes, items[i], from, fuel), fuel)
    } else {
        from
    }
}

/// Positions reached by one match of `item` from any position in `from`.
pub open spec fn seq_step(
    g: Seq<SpecRule>,
    nodes: Seq<SpecNode>,
    item: SpecPattern,
    from: Set<int>,
    fuel: nat,
) -> Set<int>
    decreases fuel, item, 1nat, 0nat,
{
    Set::new(|e: int| exists|q: int| from.contains(q) && ends(g, nodes, item, q, fuel).contains(e))
}

/// Positions reached by any of `alts[i..]` from `pos`.
pub open spec fn alt_ends(
    g: Seq<SpecRule>,
    nodes: Seq<SpecNode>,
    alts: Seq<SpecPattern>,
    i: int,
    pos: int,
    fuel: nat,
) -> Set<int>
    decreases fuel, alts, alts.len() - i, 0nat,
{
    if 0 <= i < alts.len() {
        ends(g, nodes, alts[i], pos, fuel).union(alt_ends(g, nodes, alts, i + 1, pos, fuel))
    } else {
        Set::empty()
    }
}

/// Positions reached from `from` by at most `k` further matches of `inner`, each of which
/// consumes at least one token.
pub open spec fn star_k(
    g: Seq<SpecRule>,
    nodes: Seq<SpecNode>,
    inner: SpecPattern,
    from: Set<int>,
    k: nat,
    fuel: nat,
) -> Set<int>
    decreases fuel, inner, 2nat, k,
{
    if k == 0 {
        from
    } else {
        let prev = star_k(g, nodes, inner, from, (k - 1) as nat, fuel);
        prev.union(succ(g, nodes, inner, prev, fuel))
    }
}

/// Positions reached from `from` by one match of `inner` that consumes at least one token.
pub open spec fn succ(
    g: Seq<SpecRule>,
    nodes: Seq<SpecNode>,
    inner: SpecPattern,
    from: Set<int>,
    fuel: nat,
) -> Set<int>
    decreases fuel, inner, 1nat, 0nat,
{
    Set::new(
        |e: int| exists|q: int| from.contains(q) && q < e && ends(g, nodes, inner, q, fuel).contains(e),
    )
}

/// The positions that repeated consuming matches of `inner` reach from `from` (each match
/// advances, so `nodes.len() + 1` rounds reach all of them).
pub open spec fn star(
    g: Seq<SpecRule>,
    nodes: Seq<SpecNode>,
    inner: SpecPattern,
    from: Set<int>,
    fuel: nat,
) -> Set<int>
    decreases fuel, inner, 3nat, 0nat,
{
    star_k(g, nodes, inner, from, nodes.len() + 1, fuel)
}

// ── Lemmas ─────────────────────────────────────────────────────────────────

/// Once a round adds nothing, later rounds add nothing either.
proof fn lemma_star_k_stable(
    g: Seq<SpecRule>,
    nodes: Seq<SpecNode>,
    inner: SpecPattern,
    from: Set<int>,
    k: nat,
    j: nat,
    fuel: nat,
)
    requires
        k <= j,
        succ(g, nodes, inner, star_k(g, nodes, inner, from, k, fuel), fuel).subset_of(
            star_k(g, nodes, inner, from, k, fuel),
        ),
    ensures
        star_k(g, nodes, inner, from, j, fuel) == star_k(g, nodes, inner, from, k, fuel),
    decreases j - k,
{
    if j > k {
        lemma_star_k_stable(g, nodes, inner, from, k, (j - 1) as nat, fuel);
        let prev = star_k(g, nodes, inner, from, (j - 1) as nat, fuel);
        assert(star_k(g, nodes, inner, from, j, fuel) =~= prev);
    }
}

/// Positions reached from any of the first `j` entries of `from` by one match of `item`.
pub open spec fn partial_step(
    g: Seq<SpecRule>,
    nodes: Seq<SpecNode>,
    item: SpecPattern,
    from: Seq<usize>,
    j: int,
    fuel: nat,
) -> Set<int> {
    Set::new(
        |e: int|
            exists|jj: int|
                0 <= jj < j && jj < from.len() && #[trigger] ends(g, nodes, item, from[jj] as int, fuel).contains(e),
    )
}

/// Positions reached from any of the first `j` entries of `from` by one consuming match of `inner`.
pub open spec fn partial_succ(
    g: Seq<SpecRule>,
    nodes: Seq<SpecNode>,
    inner: SpecPattern,
    from: Seq<usize>,
    j: int,
    fuel: nat,
) -> Set<int> {
    Set::new(
        |e: int|
            exists|jj: int|
                0 <= jj < j && jj < from.len() && from[jj] < e && #[trigger] ends(
                    g,
                    nodes,
                    inner,
                    from[jj] as int,
                    fuel,
                ).contains(e),
    )
}

/// The positions of `v` beyond `p`.
pub open spec fn above(v: Seq<usize>, p: int) -> Set<int> {
    Set::new(|e: int| vec_set(v).contains(e) && e > p)
}

// ── Matching ───────────────────────────────────────────────────────────────

/// Adds the positions of `cands` beyond `p` to `visited`, and those of them that were not yet
/// visited to `next`.
fn add_candidates(visited: &mut Vec<usize>, next: &mut Vec<usize>, cands: &Vec<usize>, p: usize)
    requires
        strictly_sorted(old(visited)@),
        strictly_sorted(old(next)@),
        vec_set(old(next)@).subset_of(vec_set(old(visited)@)),
    ensures
        strictly_sorted(final(visited)@),
        strictly_sorted(final(next)@),
        vec_set(final(visited)@) == vec_set(old(visited)@).union(above(cands@, p as int)),
        vec_set(final(next)@) == vec_set(old(next)@).union(
            above(cands@, p as int).difference(vec_set(old(visited)@)),
        ),
        vec_set(final(next)@).subset_of(vec_set(final(visited)@)),
        final(visited)@.len() - old(visited)@.len() == final(next)@.len() - old(next)@.len(),
        forall|i: int|
            0 <= i < final(visited)@.len() ==> vec_set(old(visited)@).contains(
                final(visited)@[i] as int,
            ) || vec_set(cands@).contains(final(visited)@[i] as int),
        forall|i: int|
            0 <= i < final(next)@.len() ==> vec_set(old(next)@).contains(final(next)@[i] as int)
                || vec_set(cands@).contains(final(next)@[i] as int),
{
    let ghost v0 = visited@;
    let ghost n0 = next@;
    let mut m: usize = 0;
    while m < cands.len()
        invariant
            m <= cands.len(),
            strictly_sorted(visited@),
            strictly_sorted(next@),
            vec_set(visited@) == vec_set(v0).union(
                Set::new(|e: int| exists|mm: int| 0 <= mm < m && cands@[mm] as int == e && e > p),
            ),
            vec_set(next@) == vec_set(n0).union(
                Set::new(
                    |e: int|
                        exists|mm: int| 0 <= mm < m && cands@[mm] as int == e && e > p,
                ).difference(vec_set(v0)),
            ),
            vec_set(next@).subset_of(vec_set(visited@)),
            vec_set(n0).subset_of(vec_set(v0)),
            visited@.len() - v0.len() == next@.len() - n0.len(),
            forall|i: int|
                0 <= i < visited@.len() ==> vec_set(v0).contains(visited@[i] as int) || vec_set(
                    cands@,
                ).contains(visited@[i] as int),
            forall|i: int|
                0 <= i < next@.len() ==> vec_set(n0).contains(next@[i] as int) || vec_set(
                    cands@,
                ).contains(next@[i] as int),
        decreases cands.len() - m,
    {
        let e = cands[m];
        let ghost vb = visited@;
        let ghost nb = next@;
        let ghost old_prefix = Set::new(
            |x: int| exists|mm: int| 0 <= mm < m && cands@[mm] as int == x && x > p,
        );
        let ghost new_prefix = Set::new(
            |x: int| exists|mm: int| 0 <= mm < m + 1 && cands@[mm] as int == x && x > p,
        );
        if e > p {
            assert(new_prefix =~= old_prefix.insert(e as int));
            let added = insert_pos(visited, e);
            if added {
                insert_pos(next, e);
                assert(!vec_set(nb).contains(e as int));
            }
            proof {
                assert(vec_set(cands@).contains(e as int));
                assert(vec_set(visited@) =~= vec_set(v0).union(new_prefix));
                assert(vec_set(next@) =~= vec_set(n0).union(new_prefix.difference(vec_set(v0))));
                assert forall|i: int| 0 <= i < visited@.len() implies vec_set(v0).contains(visited@[i] as int) || vec_set(cands@).contains(visited@[i] as int) by {
                    if visited@[i] != e {
                        let j = choose|j: int| 0 <= j < vb.len() && #[trigger] vb[j] as int == visited@[i] as int;
                        assert(vb[j] == visited@[i]);
                    }
                }
                assert forall|i: int| 0 <= i < next@.len() implies vec_set(n0).contains(next@[i] as int) || vec_set(cands@).contains(next@[i] as int) by {
                    if next@[i] != e {
                        let j = choose|j: int| 0 <= j < nb.len() && #[trigger] nb[j] as int == next@[i] as int;
                        assert(nb[j] == next@[i]);
                    }
                }
            }
        } else {
            assert(new_prefix =~= old_prefix);
        }
        m += 1;
    }
    proof {
        let pre = Set::new(|e: int| exists|mm: int| 0 <= mm < cands.len() && cands@[mm] as int == e && e > p);
        assert(pre =~= above(cands@, p as int));
    }
}

/// Positions reached by one match of `item` from any position of `from`.
fn step_set(
    grammar: &Grammar,
    item: &PatternExpr,
    nodes: &[MecabNode],
    from: &Vec<usize>,
    fuel: usize,
    Ghost(lo): Ghost<int>,
) -> (res: Vec<usize>)
    requires
        0 <= lo,
        within(from@, lo, nodes.len() as int),
    ensures
        strictly_sorted(res@),
        within(res@, lo, nodes.len() as int),
        vec_set(res@) == seq_step(grammar@, node_views(nodes@), item@, vec_set(from@), fuel as nat),
    decreases fuel, item, 1nat,
{
    let ghost g = grammar@;
    let ghost nv = node_views(nodes@);
    let mut acc: Vec<usize> = Vec::new();
    let mut j: usize = 0;
    while j < from.len()
        invariant
            j <= from.len(),
            0 <= lo,
            within(from@, lo, nodes.len() as int),
            g == grammar@,
            nv == node_views(nodes@),
            strictly_sorted(acc@),
            within(acc@, lo, nodes.len() as int),
            vec_set(acc@) == partial_step(g, nv, item@, from@, j as int, fuel as nat),
        decreases from.len() - j,
    {
        assert(lo <= from@[j as int] <= nodes.len());
        let r = match_at(grammar, item, nodes, from[j], fuel);
        let ghost before = acc@;
        union_into(&mut acc, &r);
        proof {
            assert(vec_set(acc@) =~= partial_step(g, nv, item@, from@, j + 1, fuel as nat)) by {
                assert forall|e: int| partial_step(g, nv, item@, from@, j + 1, fuel as nat).contains(e)
                    implies vec_set(acc@).contains(e) by {
                    let jj = choose|jj: int| 0 <= jj < j + 1 && jj < from@.len() && #[trigger] ends(g, nv, item@, from@[jj] as int, fuel as nat).contains(e);
                    if jj < j {
                        assert(partial_step(g, nv, item@, from@, j as int, fuel as nat).contains(e));
                    }
                }
                assert forall|e: int| vec_set(acc@).contains(e)
                    implies partial_step(g, nv, item@, from@, j + 1, fuel as nat).contains(e) by {
                    if vec_set(before).contains(e) {
                        let jj = choose|jj: int| 0 <= jj < j && jj < from@.len() && #[trigger] ends(g, nv, item@, from@[jj] as int, fuel as nat).contains(e);
                    } else {
                        assert(ends(g, nv, item@, from@[j as int] as int, fuel as nat).contains(e));
                    }
                }
            }
            assert forall|i: int| 0 <= i < acc@.len() implies lo <= #[trigger] acc@[i] <= nodes.len() by {
                if vec_set(before).contains(acc@[i] as int) {
                    let k = choose|k: int| 0 <= k < before.len() && #[trigger] before[k] as int == acc@[i] as int;
                    assert(lo <= before[k]);
                } else {
                    let k = choose|k: int| 0 <= k < r@.len() && #[trigger] r@[k] as int == acc@[i] as int;
                    assert(from@[j as int] <= r@[k]);
                }
            }
        }
        j += 1;
    }
    proof {
        assert(partial_step(g, nv, item@, from@, from.len() as int, fuel as nat) =~= seq_step(g, nv, item@, vec_set(from@), fuel as nat)) by {
            assert forall|e: int| seq_step(g, nv, item@, vec_set(from@), fuel as nat).contains(e)
                implies partial_step(g, nv, item@, from@, from.len() as int, fuel as nat).contains(e) by {
                let q = choose|q: int| vec_set(from@).contains(q) && ends(g, nv, item@, q, fuel as nat).contains(e);
                let jj = choose|jj: int| 0 <= jj < from@.len() && #[trigger] from@[jj] as int == q;
                assert(ends(g, nv, item@, from@[jj] as int, fuel as nat).contains(e));
            }
            assert forall|e: int| partial_step(g, nv, item@, from@, from.len() as int, fuel as nat).contains(e)
                implies seq_step(g, nv, item@, vec_set(from@), fuel as nat).contains(e) by {
                let jj = choose|jj: int| 0 <= jj < from.len() && jj < from@.len() && #[trigger] ends(g, nv, item@, from@[jj] as int, fuel as nat).contains(e);
                assert(vec_set(from@).contains(from@[jj] as int));
            }
        }
    }
    acc
}

/// Expands a search frontier by one consuming match of `inner`: `visited` gains every position
/// reached, and the positions that are new are returned.
fn expand_frontier(
    grammar: &Grammar,
    inner: &PatternExpr,
    nodes: &[MecabNode],
    frontier: &Vec<usize>,
    visited: &mut Vec<usize>,
    fuel: usize,
    Ghost(lo): Ghost<int>,
) -> (next: Vec<usize>)
    requires
        0 <= lo,
        within(frontier@, lo, nodes.len() as int),
        within(old(visited)@, lo, nodes.len() as int),
        strictly_sorted(old(visited)@),
    ensures
        strictly_sorted(final(visited)@),
        strictly_sorted(next@),
        within(final(visited)@, lo, nodes.len() as int),
        within(next@, lo, nodes.len() as int),
        vec_set(final(visited)@) == vec_set(old(visited)@).union(
            succ(grammar@, node_views(nodes@), inner@, vec_set(frontier@), fuel as nat),
        ),
        vec_set(next@) == succ(
            grammar@,
            node_views(nodes@),
            inner@,
            vec_set(frontier@),
            fuel as nat,
        ).difference(vec_set(old(visited)@)),
        final(visited)@.len() == old(visited)@.len() + next@.len(),
    decreases fuel, inner, 1nat,
{
    let ghost g = grammar@;
    let ghost nv = node_views(nodes@);
    let ghost v0 = visited@;
    let mut next: Vec<usize> = Vec::new();
    let mut j: usize = 0;
    while j < frontier.len()
        invariant
            j <= frontier.len(),
            0 <= lo,
            within(frontier@, lo, nodes.len() as int),
            g == grammar@,
            nv == node_views(nodes@),
            strictly_sorted(visited@),
            strictly_sorted(next@),
            within(visited@, lo, nodes.len() as int),
            within(next@, lo, nodes.len() as int),
            vec_set(visited@) == vec_set(v0).union(partial_succ(g, nv, inner@, frontier@, j as int, fuel as nat)),
            vec_set(next@) == partial_succ(g, nv, inner@, frontier@, j as int, fuel as nat).difference(vec_set(v0)),
            vec_set(next@).subset_of(vec_set(visited@)),
            visited@.len() == v0.len() + next@.len(),
        decreases frontier.len() - j,
    {
        let p = frontier[j];
        assert(lo <= frontier@[j as int] <= nodes.len());
        let r = match_at(grammar, inner, nodes, p, fuel);
        let ghost vb = visited@;
        let ghost nb = next@;
        add_candidates(visited, &mut next, &r, p);
        proof {
            let ps = partial_succ(g, nv, inner@, frontier@, j as int, fuel as nat);
            let ps1 = partial_succ(g, nv, inner@, frontier@, j + 1, fuel as nat);
            assert(ps1 =~= ps.union(above(r@, p as int))) by {
                assert forall|e: int| ps1.contains(e) implies ps.union(above(r@, p as int)).contains(e) by {
                    let jj = choose|jj: int| 0 <= jj < j + 1 && jj < frontier@.len() && frontier@[jj] < e && #[trigger] ends(g, nv, inner@, frontier@[jj] as int, fuel as nat).contains(e);
                    if jj < j {
                        assert(ps.contains(e));
                    } else {
                        assert(above(r@, p as int).contains(e));
                    }
                }
                assert forall|e: int| ps.union(above(r@, p as int)).contains(e) implies ps1.contains(e) by {
                    if ps.contains(e) {
                        let jj = choose|jj: int| 0 <= jj < j && jj < frontier@.len() && frontier@[jj] < e && #[trigger] ends(g, nv, inner@, frontier@[jj] as int, fuel as nat).contains(e);
                    } else {
                        assert(ends(g, nv, inner@, frontier@[j as int] as int, fuel as nat).contains(e));
                    }
                }
            }
            assert(vec_set(visited@) =~= vec_set(v0).union(ps1));
            assert(vec_set(next@) =~= ps1.difference(vec_set(v0)));
            assert forall|i: int| 0 <= i < visited@.len() implies lo <= #[trigger] visited@[i] <= nodes.len() by {
                if vec_set(vb).contains(visited@[i] as int) {
                    let k = choose|k: int| 0 <= k < vb.len() && #[trigger] vb[k] as int == visited@[i] as int;
                    assert(lo <= vb[k]);
                } else {
                    let k = choose|k: int| 0 <= k < r@.len() && #[trigger] r@[k] as int == visited@[i] as int;
                    assert(p <= r@[k]);
                }
            }
            assert forall|i: int| 0 <= i < next@.len() implies lo <= #[trigger] next@[i] <= nodes.len() by {
                if vec_set(nb).contains(next@[i] as int) {
                    let k = choose|k: int| 0 <= k < nb.len() && #[trigger] nb[k] as int == next@[i] as int;
                    assert(lo <= nb[k]);
                } else {
                    let k = choose|k: int| 0 <= k < r@.len() && #[trigger] r@[k] as int == next@[i] as int;
                    assert(p <= r@[k]);
                }
            }
        }
        j += 1;
    }
    proof {
        let ps = partial_succ(g, nv, inner@, frontier@, frontier.len() as int, fuel as nat);
        assert(ps =~= succ(g, nv, inner@, vec_set(frontier@), fuel as nat)) by {
            assert forall|e: int| succ(g, nv, inner@, vec_set(frontier@), fuel as nat).contains(e) implies ps.contains(e) by {
                let q = choose|q: int| vec_set(frontier@).contains(q) && q < e && ends(g, nv, inner@, q, fuel as nat).contains(e);
                let jj = choose|jj: int| 0 <= jj < frontier@.len() && #[trigger] frontier@[jj] as int == q;
                assert(ends(g, nv, inner@, frontier@[jj] as int, fuel as nat).contains(e));
            }
            assert forall|e: int| ps.contains(e) implies succ(g, nv, inner@, vec_set(frontier@), fuel as nat).contains(e) by {
                let jj = choose|jj: int| 0 <= jj < frontier.len() && jj < frontier@.len() && frontier@[jj] < e && #[trigger] ends(g, nv, inner@, frontier@[jj] as int, fuel as nat).contains(e);
                assert(vec_set(frontier@).contains(frontier@[jj] as int));
            }
        }
    }
    next
}

/// The positions that repeated consuming matches of `inner` reach from the positions of `start`.
fn star_from(
    grammar: &Grammar,
    inner: &PatternExpr,
    nodes: &[MecabNode],
    start: Vec<usize>,
    fuel: usize,
    Ghost(lo): Ghost<int>,
) -> (res: Vec<usize>)
    requires
        0 <= lo,
        strictly_sorted(start@),
        within(start@, lo, nodes.len() as int),
    ensures
        strictly_sorted(res@),
        within(res@, lo, nodes.len() as int),
        vec_set(res@) == star(grammar@, node_views(nodes@), inner@, vec_set(start@), fuel as nat),
    decreases fuel, inner, 2nat,
{
    let ghost g = grammar@;
    let ghost nv = node_views(nodes@);
    let ghost s0 = vec_set(start@);
    let n = nodes.len();
    let mut visited: Vec<usize> = Vec::new();
    union_into(&mut visited, &start);
    let mut frontier = start;
    let ghost mut k: nat = 0;
    assert(vec_set(visited@) =~= s0);
    proof {
        if frontier@.len() > 0 {
            assert(vec_set(frontier@).contains(frontier@[0] as int));
            assert(vec_set(visited@).contains(frontier@[0] as int));
        }
        lemma_sorted_len_bound(visited@, lo, n as int);
    }
    while frontier.len() > 0
        invariant
            0 <= lo,
            n == nodes.len(),
            g == grammar@,
            nv == node_views(nodes@),
            strictly_sorted(visited@),
            within(visited@, lo, n as int),
            within(frontier@, lo, n as int),
            visited@.len() <= n + 1,
            k <= visited@.len(),
            frontier@.len() > 0 ==> k < visited@.len(),
            vec_set(visited@) == star_k(g, nv, inner@, s0, k, fuel as nat),
            vec_set(frontier@).subset_of(vec_set(visited@)),
            s0.subset_of(vec_set(visited@)),
            succ(g, nv, inner@, vec_set(visited@).difference(vec_set(frontier@)), fuel as nat).subset_of(
                vec_set(visited@),
            ),
        decreases 2 * (n + 1 - visited@.len()) + (if frontier@.len() > 0 { 1int } else { 0int }),
    {
        let ghost vb = visited@;
        let ghost fb = frontier@;
        let next = expand_frontier(grammar, inner, nodes, &frontier, &mut visited, fuel, Ghost(lo));
        proof {
            let vs = vec_set(vb);
            let fs = vec_set(fb);
            let sf = succ(g, nv, inner@, fs, fuel as nat);
            let sv = succ(g, nv, inner@, vs, fuel as nat);
            let svf = succ(g, nv, inner@, vs.difference(fs), fuel as nat);
            assert(sv =~= sf.union(svf)) by {
                assert forall|e: int| sv.contains(e) implies sf.union(svf).contains(e) by {
                    let q = choose|q: int| vs.contains(q) && q < e && ends(g, nv, inner@, q, fuel as nat).contains(e);
                    if fs.contains(q) {
                        assert(sf.contains(e));
                    } else {
                        assert(vs.difference(fs).contains(q));
                        assert(svf.contains(e));
                    }
                }
                assert forall|e: int| sf.union(svf).contains(e) implies sv.contains(e) by {
                    if sf.contains(e) {
                        let q = choose|q: int| fs.contains(q) && q < e && ends(g, nv, inner@, q, fuel as nat).contains(e);
                        assert(vs.contains(q));
                    } else {
                        let q = choose|q: int| vs.difference(fs).contains(q) && q < e && ends(g, nv, inner@, q, fuel as nat).contains(e);
                    }
                }
            }
            assert(vec_set(visited@) =~= star_k(g, nv, inner@, s0, k + 1, fuel as nat));
            k = k + 1;
            let nvs = vec_set(visited@);
            let nfs = vec_set(next@);
            assert(succ(g, nv, inner@, nvs.difference(nfs), fuel as nat).subset_of(nvs)) by {
                assert forall|e: int| succ(g, nv, inner@, nvs.difference(nfs), fuel as nat).contains(e) implies nvs.contains(e) by {
                    let q = choose|q: int| nvs.difference(nfs).contains(q) && q < e && ends(g, nv, inner@, q, fuel as nat).contains(e);
                    assert(vs.contains(q));
                    if fs.contains(q) {
                        assert(sf.contains(e));
                    } else {
                        assert(vs.difference(fs).contains(q));
                        assert(svf.contains(e));
                    }
                }
            }
            lemma_sorted_len_bound(visited@, lo, n as int);
        }
        frontier = next;
    }
    proof {
        let vs = vec_set(visited@);
        assert(vs.difference(vec_set(frontier@)) =~= vs);
        lemma_sorted_len_bound(visited@, lo, n as int);
        lemma_star_k_stable(g, nv, inner@, s0, k, (n + 1) as nat, fuel as nat);
    }
    visited
}

/// Try to match `pattern` starting at `nodes[pos]`: the positions where a match can end, in
/// ascending order.
#[verifier::loop_isolation(false)]
pub fn match_at(
    grammar: &Grammar,
    pattern: &PatternExpr,
    nodes: &[MecabNode],
    pos: usize,
    fuel: usize,
) -> (res: Vec<usize>)
    requires
        pos <= nodes.len(),
    ensures
        strictly_sorted(res@),
        within(res@, pos as int, nodes.len() as int),
        vec_set(res@) == ends(grammar@, node_views(nodes@), pattern@, pos as int, fuel as nat),
    decreases fuel, pattern, 0nat,
{
    let ghost g = grammar@;
    let ghost nv = node_views(nodes@);
    let ghost target = ends(g, nv, pattern@, pos as int, fuel as nat);
    match pattern {
        PatternExpr::Token(pred) => {
            let mut r: Vec<usize> = Vec::new();
            if pos < nodes.len() && token_matches(&nodes[pos], pred) {
                r.push(pos + 1);
            }
            proof {
                assert(pattern@ == SpecPattern::Token((**pred)@));
                if pos < nodes.len() {
                    assert(nv[pos as int] == nodes@[pos as int]@);
                    if r@.len() > 0 {
                        assert(r@[0] == pos + 1);
                    }
                }
                assert(vec_set(r@) =~= target);
            }
            r
        },
        PatternExpr::Wildcard | PatternExpr::WildcardCapture(_) => {
            let mut r: Vec<usize> = Vec::new();
            if pos < nodes.len() {
                r.push(pos + 1);
                assert(r@[0] == pos + 1);
            }
            assert(pattern@ is Wildcard || pattern@ is WildcardCapture);
            assert(vec_set(r@) =~= target);
            r
        },
        PatternExpr::Sequence(items) => {
            let ghost iv = pattern_items(pattern@);
            let mut current: Vec<usize> = Vec::new();
            current.push(pos);
            assert(current@[0] == pos);
            assert(vec_set(current@) =~= set![pos as int]);
            let mut k: usize = 0;
            while k < items.len()
                invariant
                    k <= items.len(),
                    pos <= nodes.len(),
                    g == grammar@,
                    nv == node_views(nodes@),
                    iv.len() == items.len(),
                    forall|j: int| 0 <= j < items.len() ==> iv[j] == (#[trigger] items@[j])@,
                    strictly_sorted(current@),
                    within(current@, pos as int, nodes.len() as int),
                    seq_ends(g, nv, iv, k as int, vec_set(current@), fuel as nat) == seq_ends(
                        g,
                        nv,
                        iv,
                        0,
                        set![pos as int],
                        fuel as nat,
                    ),
                decreases items.len() - k,
            {
                proof {
                    assert(decreases_to!(items@ => items@[k as int]));
                }
                let next = step_set(grammar, &items[k], nodes, &current, fuel, Ghost(pos as int));
                current = next;
                k += 1;
            }
            current
        },
        PatternExpr::Alternative(alts) => {
            let ghost av = pattern_items(pattern@);
            let mut acc: Vec<usize> = Vec::new();
            let mut k: usize = 0;
            assert(vec_set(acc@) =~= Set::<int>::empty());
            while k < alts.len()
                invariant
                    k <= alts.len(),
                    pos <= nodes.len(),
                    g == grammar@,
                    nv == node_views(nodes@),
                    av.len() == alts.len(),
                    forall|j: int| 0 <= j < alts.len() ==> av[j] == (#[trigger] alts@[j])@,
                    strictly_sorted(acc@),
                    within(acc@, pos as int, nodes.len() as int),
                    vec_set(acc@).union(alt_ends(g, nv, av, k as int, pos as int, fuel as nat))
                        == alt_ends(g, nv, av, 0, pos as int, fuel as nat),
                decreases alts.len() - k,
            {
                proof {
                    assert(decreases_to!(alts@ => alts@[k as int]));
                }
                let r = match_at(grammar, &alts[k], nodes, pos, fuel);
                let ghost before = acc@;
                union_into(&mut acc, &r);
                proof {
                    assert(vec_set(acc@).union(alt_ends(g, nv, av, k + 1, pos as int, fuel as nat))
                        =~= vec_set(before).union(alt_ends(g, nv, av, k as int, pos as int, fuel as nat)));
                    assert forall|i: int| 0 <= i < acc@.len() implies pos <= #[trigger] acc@[i] <= nodes.len() by {
                        if vec_set(before).contains(acc@[i] as int) {
                            let j = choose|j: int| 0 <= j < before.len() && #[trigger] before[j] as int == acc@[i] as int;
                            assert(pos <= before[j]);
                        } else {
                            let j = choose|j: int| 0 <= j < r@.len() && #[trigger] r@[j] as int == acc@[i] as int;
                            assert(pos <= r@[j]);
                        }
                    }
                }
                k += 1;
            }
            assert(vec_set(acc@) =~= target);
            acc
        },
        PatternExpr::Optional(inner) => {
            let mut r = match_at(grammar, inner, nodes, pos, fuel);
            let ghost before = r@;
            insert_pos(&mut r, pos);
            proof {
                assert(vec_set(r@) =~= target);
                assert forall|i: int| 0 <= i < r@.len() implies pos <= #[trigger] r@[i] <= nodes.len() by {
                    if r@[i] != pos {
                        let j = choose|j: int| 0 <= j < before.len() && #[trigger] before[j] as int == r@[i] as int;
                        assert(pos <= before[j]);
                    }
                }
            }
            r
        },
        PatternExpr::ZeroOrMore(inner) => {
            let mut start: Vec<usize> = Vec::new();
            start.push(pos);
            assert(start@[0] == pos);
            assert(vec_set(start@) =~= set![pos as int]);
            let r = star_from(grammar, inner, nodes, start, fuel, Ghost(pos as int));
            assert(pattern@ == SpecPattern::ZeroOrMore(Box::new((**inner)@)));

            r
        },
        PatternExpr::OneOrMore(inner) => {
            let first = match_at(grammar, inner, nodes, pos, fuel);
            let r = star_from(grammar, inner, nodes, first, fuel, Ghost(pos as int));
            assert(pattern@ == SpecPattern::OneOrMore(Box::new((**inner)@)));

            r
        },
        PatternExpr::RuleRef(name) => {
            if fuel == 0 {
                let r: Vec<usize> = Vec::new();
                assert(vec_set(r@) =~= target);
                return r;
            }
            let nc = chars_of(name.as_str());
            proof {
                lemma_first_rule_from_bounds(g, name@, 0);
            }
            match grammar.find_rule_index(nc.as_slice()) {
                Some(i) => {
                    assert(g[i as int].pattern == grammar.rules@[i as int].pattern@);
                    match_at(grammar, &grammar.rules[i].pattern, nodes, pos, fuel - 1)
                },
                None => {
                    let r: Vec<usize> = Vec::new();
                    assert(vec_set(r@) =~= target);
                    r
                },
            }
        },
    }
}

/// The sub-patterns of a sequence or an alternative.
pub open spec fn pattern_items(p: SpecPattern) -> Seq<SpecPattern> {
    match p {
        SpecPattern::Sequence(items) => items,
        SpecPattern::Alternative(items) => items,
        _ => Seq::empty(),
    }
}


// ── Fixed positions ────────────────────────────────────────────────────────

/// The positions of the tokens that fixed (non-wildcard) elements of `p` consume when `p`
/// matches exactly `nodes[pos..end]`: the first way found, trying end positions of the parts in
/// ascending order and alternatives left to right; `None` when no way exists.
pub open spec fn trace(
    g: Seq<SpecRule>,
    nodes: Seq<SpecNode>,
    p: SpecPattern,
    pos: int,
    end: int,
    fuel: nat,
) -> Option<Seq<int>>
    decreases fuel, p, 0int, 0int,
{
    match p {
        SpecPattern::Token(pred) => if 0 <= pos < nodes.len() && pos + 1 == end && predicate_holds(
            nodes[pos],
            pred,
        ) {
            Some(seq![pos])
        } else {
            None
        },
        SpecPattern::Wildcard => if 0 <= pos < nodes.len() && pos + 1 == end {
            Some(Seq::empty())
        } else {
            None
        },
        SpecPattern::WildcardCapture(_) => if 0 <= pos < nodes.len() && pos + 1 == end {
            Some(Seq::empty())
        } else {
            None
        },
        SpecPattern::Sequence(items) => trace_seq(g, nodes, items, 0, pos, end, fuel),
        SpecPattern::Alternative(alts) => trace_alt(g, nodes, alts, 0, pos, end, fuel),
        SpecPattern::Optional(inner) => if pos == end {
            Some(Seq::empty())
        } else {
            trace(g, nodes, *inner, pos, end, fuel)
        },
        SpecPattern::ZeroOrMore(inner) => if pos == end {
            Some(Seq::empty())
        } else {
            scan_star(g, nodes, *inner, pos, end, pos + 1, fuel)
        },
        SpecPattern::OneOrMore(inner) => scan_star(g, nodes, *inner, pos, end, pos + 1, fuel),
        SpecPattern::RuleRef(name) => if fuel == 0 {
            None
        } else {
            match first_rule(g, name) {
                Some(i) => if 0 <= i < g.len() {
                    trace(g, nodes, g[i].pattern, pos, end, (fuel - 1) as nat)
                } else {
                    None
                },
                None => None,
            }
        },
    }
}

/// Fixed positions for `items[i..]` matching exactly `nodes[pos..end]`.
pub open spec fn trace_seq(
    g: Seq<SpecRule>,
    nodes: Seq<SpecNode>,
    items: Seq<SpecPattern>,
    i: int,
    pos: int,
    end: int,
    fuel: nat,
) -> Option<Seq<int>>
    decreases fuel, items, items.len() - i, end - pos + 2,
{
    if i < 0 || i >= items.len() {
        if pos == end {
            Some(Seq::empty())
        } else {
            None
        }
    } else if pos > end {
        None
    } else {
        scan_seq(g, nodes, items, i, pos, end, pos, fuel)
    }
}

/// `trace_seq`, trying the end positions `mid..=end` of `items[i]`.
pub open spec fn scan_seq(
    g: Seq<SpecRule>,
    nodes: Seq<SpecNode>,
    items: Seq<SpecPattern>,
    i: int,
    pos: int,
    end: int,
    mid: int,
    fuel: nat,
) -> Option<Seq<int>>
    decreases fuel, items, items.len() - i, end + 1 - mid,
{
    if i < 0 || i >= items.len() || mid > end || mid < pos {
        None
    } else if ends(g, nodes, items[i], pos, fuel).contains(mid) && trace(
        g,
        nodes,
        items[i],
        pos,
        mid,
        fuel,
    ) is Some && trace_seq(g, nodes, items, i + 1, mid, end, fuel) is Some {
        Some(
            trace(g, nodes, items[i], pos, mid, fuel)->0 + trace_seq(
                g,
                nodes,
                items,
                i + 1,
                mid,
                end,
                fuel,
            )->0,
        )
    } else {
        scan_seq(g, nodes, items, i, pos, end, mid + 1, fuel)
    }
}

/// Fixed positions from the first of `alts[i..]` that matches exactly `nodes[pos..end]`.
pub open spec fn trace_alt(
    g: Seq<SpecRule>,
    nodes: Seq<SpecNode>,
    alts: Seq<SpecPattern>,
    i: int,
    pos: int,
    end: int,
    fuel: nat,
) -> Option<Seq<int>>
    decreases fuel, alts, alts.len() - i, 0int,
{
    if i < 0 || i >= alts.len() {
        None
    } else {
        match trace(g, nodes, alts[i], pos, end, fuel) {
            Some(f) => Some(f),
            None => trace_alt(g, nodes, alts, i + 1, pos, end, fuel),
        }
    }
}

/// Fixed positions for one or more consuming matches of `inner` covering exactly
/// `nodes[pos..end]`, trying first-match end positions `mid..=end` in ascending order.
pub open spec fn scan_star(
    g: Seq<SpecRule>,
    nodes: Seq<SpecNode>,
    inner: SpecPattern,
    pos: int,
    end: int,
    mid: int,
    fuel: nat,
) -> Option<Seq<int>>
    decreases fuel, inner, end - pos, end + 1 - mid,
{
    if mid > end || mid <= pos {
        None
    } else if ends(g, nodes, inner, pos, fuel).contains(mid) && trace(
        g,
        nodes,
        inner,
        pos,
        mid,
        fuel,
    ) is Some && (mid == end || scan_star(g, nodes, inner, mid, end, mid + 1, fuel) is Some) {
        Some(
            trace(g, nodes, inner, pos, mid, fuel)->0 + (if mid == end {
                Seq::empty()
            } else {
                scan_star(g, nodes, inner, mid, end, mid + 1, fuel)->0
            }),
        )
    } else {
        scan_star(g, nodes, inner, pos, end, mid + 1, fuel)
    }
}

/// The positions of a vector, as integers.
pub open spec fn int_positions(v: Seq<usize>) -> Seq<int> {
    v.map_values(|x: usize| x as int)
}

/// Whether an exec result stands for a spec result.
pub open spec fn same_trace(res: Option<Vec<usize>>, spec: Option<Seq<int>>) -> bool {
    match res {
        Some(v) => spec == Some(int_positions(v@)),
        None => spec is None,
    }
}

proof fn lemma_int_positions_append(a: Seq<usize>, b: Seq<usize>)
    ensures
        int_positions(a + b) == int_positions(a) + int_positions(b),
{
    assert(int_positions(a + b) =~= int_positions(a) + int_positions(b));
}

/// Trace which node indices are matched by fixed (non-wildcard) patterns when `pattern`
/// matches exactly `nodes[pos..end]`.
#[verifier::loop_isolation(false)]
pub fn trace_fixed(
    grammar: &Grammar,
    pattern: &PatternExpr,
    nodes: &[MecabNode],
    pos: usize,
    end: usize,
    fuel: usize,
) -> (res: Option<Vec<usize>>)
    requires
        pos <= nodes.len(),
        end <= nodes.len(),
    ensures
        same_trace(res, trace(grammar@, node_views(nodes@), pattern@, pos as int, end as int, fuel as nat)),
    decreases fuel, pattern, 0int, 0int,
{
    let ghost g = grammar@;
    let ghost nv = node_views(nodes@);
    let ghost target = trace(g, nv, pattern@, pos as int, end as int, fuel as nat);
    match pattern {
        PatternExpr::Token(pred) => {
            assert(pattern@ == SpecPattern::Token((**pred)@));
            let hit = pos < nodes.len() && pos + 1 == end && token_matches(&nodes[pos], pred);
            proof {
                if pos < nodes.len() {
                    assert(nv[pos as int] == nodes@[pos as int]@);
                }
            }
            if hit {
                let mut v: Vec<usize> = Vec::new();
                v.push(pos);
                assert(int_positions(v@) =~= seq![pos as int]);
                assert(target == Some(seq![pos as int]));
                Some(v)
            } else {
                assert(target is None);
                None
            }
        },
        PatternExpr::Wildcard | PatternExpr::WildcardCapture(_) => {
            assert(pattern@ is Wildcard || pattern@ is WildcardCapture);
            if pos < nodes.len() && pos + 1 == end {
                let v: Vec<usize> = Vec::new();
                assert(int_positions(v@) =~= Seq::<int>::empty());
                assert(target == Some(Seq::<int>::empty()));
                Some(v)
            } else {
                assert(target is None);
                None
            }
        },
        PatternExpr::Sequence(items) => {
            assert(pattern@ == SpecPattern::Sequence(pattern_items(pattern@)));
            assert(target == trace_seq(g, nv, pattern_items(pattern@), 0, pos as int, end as int, fuel as nat));
            trace_sequence(grammar, items, nodes, 0, pos, end, fuel, Ghost(pattern_items(pattern@)))
        },
        PatternExpr::Alternative(alts) => {
            let ghost av = pattern_items(pattern@);
            let mut k: usize = 0;
            while k < alts.len()
                invariant
                    k <= alts.len(),
                    av.len() == alts.len(),
                    forall|j: int| 0 <= j < alts.len() ==> av[j] == (#[trigger] alts@[j])@,
                    trace_alt(g, nv, av, k as int, pos as int, end as int, fuel as nat) == target,
                decreases alts.len() - k,
            {
                proof {
                    assert(decreases_to!(alts@ => alts@[k as int]));
                }
                let r = trace_fixed(grammar, &alts[k], nodes, pos, end, fuel);
                if r.is_some() {
                    assert(target == trace(g, nv, av[k as int], pos as int, end as int, fuel as nat));
                    return r;
                }
                k += 1;
            }
            assert(target is None);
            None
        },
        PatternExpr::Optional(inner) => {
            assert(pattern@ == SpecPattern::Optional(Box::new((**inner)@)));
            if pos == end {
                let v: Vec<usize> = Vec::new();
                assert(int_positions(v@) =~= Seq::<int>::empty());
                assert(target == Some(Seq::<int>::empty()));
                Some(v)
            } else {
                assert(target == trace(g, nv, (**inner)@, pos as int, end as int, fuel as nat));
                trace_fixed(grammar, inner, nodes, pos, end, fuel)
            }
        },
        PatternExpr::ZeroOrMore(inner) => {
            assert(pattern@ == SpecPattern::ZeroOrMore(Box::new((**inner)@)));
            if pos == end {
                let v: Vec<usize> = Vec::new();
                assert(int_positions(v@) =~= Seq::<int>::empty());
                assert(target == Some(Seq::<int>::empty()));
                Some(v)
            } else if pos > end {
                assert(target is None);
                None
            } else {
                assert(target == scan_star(g, nv, (**inner)@, pos as int, end as int, pos + 1, fuel as nat));
                trace_repeat(grammar, inner, nodes, pos, end, fuel)
            }
        },
        PatternExpr::OneOrMore(inner) => {
            assert(pattern@ == SpecPattern::OneOrMore(Box::new((**inner)@)));
            if pos >= end {
                assert(target is None);
                None
            } else {
                assert(target == scan_star(g, nv, (**inner)@, pos as int, end as int, pos + 1, fuel as nat));
                trace_repeat(grammar, inner, nodes, pos, end, fuel)
            }
        },
        PatternExpr::RuleRef(name) => {
            if fuel == 0 {
                assert(target is None);
                return None;
            }
            let nc = chars_of(name.as_str());
            proof {
                lemma_first_rule_from_bounds(g, name@, 0);
            }
            match grammar.find_rule_index(nc.as_slice()) {
                Some(i) => {
                    assert(g[i as int].pattern == grammar.rules@[i as int].pattern@);
                    trace_fixed(grammar, &grammar.rules[i].pattern, nodes, pos, end, fuel - 1)
                },
                None => {
                    assert(target is None);
                    None
                },
            }
        },
    }
}

/// Trace fixed indices for `items[i..]` matching exactly `nodes[pos..end]`.
#[verifier::loop_isolation(false)]
fn trace_sequence(
    grammar: &Grammar,
    items: &Vec<PatternExpr>,
    nodes: &[MecabNode],
    i: usize,
    pos: usize,
    end: usize,
    fuel: usize,
    Ghost(iv): Ghost<Seq<SpecPattern>>,
) -> (res: Option<Vec<usize>>)
    requires
        pos <= nodes.len(),
        end <= nodes.len(),
        i <= items.len(),
        iv.len() == items.len(),
        forall|j: int| 0 <= j < items.len() ==> iv[j] == (#[trigger] items@[j])@,
    ensures
        same_trace(res, trace_seq(grammar@, node_views(nodes@), iv, i as int, pos as int, end as int, fuel as nat)),
    decreases fuel, items, items.len() - i, 0int,
{
    let ghost g = grammar@;
    let ghost nv = node_views(nodes@);
    if i >= items.len() {
        if pos == end {
            let v: Vec<usize> = Vec::new();
            assert(int_positions(v@) =~= Seq::<int>::empty());
            return Some(v);
        } else {
            return None;
        }
    }
    if pos > end {
        return None;
    }
    proof {
        assert(decreases_to!(items@ => items@[i as int]));
    }
    let first_ends = match_at(grammar, &items[i], nodes, pos, fuel);
    let mut mid = pos;
    loop
        invariant
            pos <= mid <= end,
            scan_seq(g, nv, iv, i as int, pos as int, end as int, mid as int, fuel as nat)
                == trace_seq(g, nv, iv, i as int, pos as int, end as int, fuel as nat),
        decreases end - mid,
    {
        if contains_pos(&first_ends, mid) {
            let f = trace_fixed(grammar, &items[i], nodes, pos, mid, fuel);
            match f {
                Some(mut fv) => {
                    let r = trace_sequence(grammar, items, nodes, i + 1, mid, end, fuel, Ghost(iv));
                    match r {
                        Some(mut rv) => {
                            let ghost a = fv@;
                            let ghost b = rv@;
                            fv.append(&mut rv);
                            proof {
                                lemma_int_positions_append(a, b);
                            }
                            return Some(fv);
                        },
                        None => {},
                    }
                },
                None => {},
            }
        }
        if mid == end {
            assert(scan_seq(g, nv, iv, i as int, pos as int, end as int, end + 1, fuel as nat) is None);
            break;
        }
        mid += 1;
    }
    None
}

/// Trace fixed indices for one or more consuming matches of `inner` covering exactly
/// `nodes[pos..end]`.
#[verifier::loop_isolation(false)]
fn trace_repeat(
    grammar: &Grammar,
    inner: &PatternExpr,
    nodes: &[MecabNode],
    pos: usize,
    end: usize,
    fuel: usize,
) -> (res: Option<Vec<usize>>)
    requires
        pos < end <= nodes.len(),
    ensures
        same_trace(res, scan_star(grammar@, node_views(nodes@), inner@, pos as int, end as int, pos + 1, fuel as nat)),
    decreases fuel, inner, end - pos, 0int,
{
    let ghost g = grammar@;
    let ghost nv = node_views(nodes@);
    let first_ends = match_at(grammar, inner, nodes, pos, fuel);
    let mut mid = pos + 1;
    loop
        invariant
            pos < mid <= end,
            scan_star(g, nv, inner@, pos as int, end as int, mid as int, fuel as nat)
                == scan_star(g, nv, inner@, pos as int, end as int, pos + 1, fuel as nat),
        decreases end - mid,
    {
        if contains_pos(&first_ends, mid) {
            let f = trace_fixed(grammar, inner, nodes, pos, mid, fuel);
            match f {
                Some(mut fv) => {
                    if mid == end {
                        proof {
                            assert(fv@ + Seq::<usize>::empty() =~= fv@);
                        }
                        return Some(fv);
                    }
                    let r = trace_repeat(grammar, inner, nodes, mid, end, fuel);
                    match r {
                        Some(mut rv) => {
                            let ghost a = fv@;
                            let ghost b = rv@;
                            fv.append(&mut rv);
                            proof {
                                lemma_int_positions_append(a, b);
                            }
                            return Some(fv);
                        },
                        None => {},
                    }
                },
                None => {},
            }
        }
        if mid == end {
            assert(scan_star(g, nv, inner@, pos as int, end as int, end + 1, fuel as nat) is None);
            break;
        }
        mid += 1;
    }
    None
}


// ── Searching a token stream ───────────────────────────────────────────────

/// A single match found in the token stream.
#[derive(Debug)]
pub struct MatchResult {
    pub rule_name: String,
    pub start: usize,
    pub end: usize,
    /// Indices of nodes matched by fixed (non-wildcard) pattern elements.
    pub fixed_indices: Vec<usize>,
    pub levels: Vec<String>,
    pub description: Option<String>,
    pub connection: Option<String>,
    pub examples: Vec<Example>,
}

pub struct SpecMatch {
    pub rule_name: Seq<char>,
    pub start: int,
    pub end: int,
    pub fixed_indices: Seq<int>,
    pub levels: Seq<Seq<char>>,
    pub description: Option<Seq<char>>,
    pub connection: Option<Seq<char>>,
    pub examples: Seq<SpecExample>,
}

impl View for MatchResult {
    type V = SpecMatch;

    open spec fn view(&self) -> SpecMatch {
        SpecMatch {
            rule_name: self.rule_name@,
            start: self.start as int,
            end: self.end as int,
            fixed_indices: int_positions(self.fixed_indices@),
            levels: string_views(self.levels@),
            description: opt_string_view(self.description),
            connection: opt_string_view(self.connection),
            examples: example_views(self.examples@),
        }
    }
}

pub open spec fn match_views(v: Seq<MatchResult>) -> Seq<SpecMatch> {
    v.map_values(|m: MatchResult| m@)
}

/// How deep rule references are expanded when matching against `n` tokens with `r` rules: a
/// chain of references that never repeats a rule at one position nests at most this deep.
pub open spec fn rule_depth(n: int, r: int) -> nat {
    if (n + 1) * (r + 1) <= usize::MAX {
        ((n + 1) * (r + 1)) as nat
    } else {
        usize::MAX as nat
    }
}

/// The match reported for `rule` over `nodes[start..end]`.
pub open spec fn spec_match(
    g: Seq<SpecRule>,
    nodes: Seq<SpecNode>,
    name: Seq<char>,
    rule: SpecRule,
    start: int,
    end: int,
    fuel: nat,
) -> SpecMatch {
    SpecMatch {
        rule_name: name,
        start,
        end,
        fixed_indices: match trace(g, nodes, rule.pattern, start, end, fuel) {
            Some(f) => f,
            None => Seq::empty(),
        },
        levels: match rule.metadata {
            Some(m) => m.levels,
            None => Seq::empty(),
        },
        description: match rule.metadata {
            Some(m) => m.description,
            None => None,
        },
        connection: match rule.metadata {
            Some(m) => m.connection,
            None => None,
        },
        examples: match rule.metadata {
            Some(m) => m.examples,
            None => Seq::empty(),
        },
    }
}

/// The non-overlapping matches of `rule` from token `start` on: at each start position the
/// most preferred end that consumes at least one token is taken (the longest, unless the
/// pattern holds a non-greedy repetition or option of a wildcard), and the search resumes at
/// that end.
#[verifier::opaque]
pub open spec fn scan_matches(
    g: Seq<SpecRule>,
    nodes: Seq<SpecNode>,
    name: Seq<char>,
    rule: SpecRule,
    start: int,
    fuel: nat,
) -> Seq<SpecMatch>
    decreases nodes.len() - start,
{
    if start < 0 || start >= nodes.len() {
        Seq::empty()
    } else {
        match first_beyond(pref(g, nodes, rule.pattern, start, fuel), start, nodes.len() as int, 0) {
            Some(end) => if start < end <= nodes.len() {
                seq![spec_match(g, nodes, name, rule, start, end, fuel)] + scan_matches(
                    g,
                    nodes,
                    name,
                    rule,
                    end,
                    fuel,
                )
            } else {
                Seq::empty()
            },
            None => scan_matches(g, nodes, name, rule, start + 1, fuel),
        }
    }
}

/// All non-overlapping matches of the first rule named `name`; none when there is no such rule.
pub open spec fn spec_find_matches(g: Seq<SpecRule>, name: Seq<char>, nodes: Seq<SpecNode>) -> Seq<SpecMatch> {
    match first_rule(g, name) {
        Some(i) => if 0 <= i < g.len() {
            scan_matches(g, nodes, name, g[i], 0, rule_depth(nodes.len() as int, g.len() as int))
        } else {
            Seq::empty()
        },
        None => Seq::empty(),
    }
}

/// The match result for `rule` over `nodes[start..end]` with the given fixed positions.
fn make_match(rule: &crate::syntax::Rule, rule_name: &str, start: usize, end: usize, fixed: Vec<usize>) -> (mr: MatchResult)
    ensures
        mr.rule_name@ == rule_name@,
        mr.start == start,
        mr.end == end,
        mr.fixed_indices@ == fixed@,
        mr@.levels == (match rule@.metadata { Some(m) => m.levels, None => Seq::empty() }),
        mr@.description == (match rule@.metadata { Some(m) => m.description, None => None }),
        mr@.connection == (match rule@.metadata { Some(m) => m.connection, None => None }),
        mr@.examples == (match rule@.metadata { Some(m) => m.examples, None => Seq::empty() }),
{
    let (levels, description, connection, examples) = match &rule.metadata {
        Some(m) => (copy_strings(&m.levels), copy_opt_string(&m.description), copy_opt_string(&m.connection), copy_examples(&m.examples)),
        None => (Vec::new(), None, None, Vec::new()),
    };
    assert(string_views(Seq::<String>::empty()) =~= Seq::<Seq<char>>::empty());
    assert(example_views(Seq::<Example>::empty()) =~= Seq::<SpecExample>::empty());
    MatchResult {
        rule_name: rule_name.to_string(),
        start,
        end,
        fixed_indices: fixed,
        levels,
        description,
        connection,
        examples,
    }
}

/// The depth to which rule references are expanded for `n` tokens and `r` rules.
pub fn depth_limit(n: usize, r: usize) -> (d: usize)
    ensures
        d == rule_depth(n as int, r as int),
{
    let a = n.checked_add(1);
    let b = r.checked_add(1);
    match (a, b) {
        (Some(a), Some(b)) => match a.checked_mul(b) {
            Some(d) => d,
            None => usize::MAX,
        },
        _ => {
            assert((n + 1) * (r + 1) > usize::MAX) by (nonlinear_arith)
                requires
                    n + 1 > usize::MAX || r + 1 > usize::MAX,
                    n >= 0,
                    r >= 0,
            ;
            usize::MAX
        },
    }
}

proof fn lemma_scan_take(
    g: Seq<SpecRule>,
    nodes: Seq<SpecNode>,
    name: Seq<char>,
    rule: SpecRule,
    start: int,
    end: int,
    fuel: nat,
)
    requires
        0 <= start < end <= nodes.len(),
        first_beyond(pref(g, nodes, rule.pattern, start, fuel), start, nodes.len() as int, 0) == Some(end),
    ensures
        scan_matches(g, nodes, name, rule, start, fuel) == seq![
            spec_match(g, nodes, name, rule, start, end, fuel),
        ] + scan_matches(g, nodes, name, rule, end, fuel),
{
    reveal(scan_matches);
}

proof fn lemma_scan_skip(
    g: Seq<SpecRule>,
    nodes: Seq<SpecNode>,
    name: Seq<char>,
    rule: SpecRule,
    start: int,
    fuel: nat,
)
    requires
        0 <= start < nodes.len(),
        first_beyond(pref(g, nodes, rule.pattern, start, fuel), start, nodes.len() as int, 0) is None,
    ensures
        scan_matches(g, nodes, name, rule, start, fuel) == scan_matches(g, nodes, name, rule, start + 1, fuel),
{
    reveal(scan_matches);
}

/// The first entry of `v` beyond `start`; every entry of `v` lies in `start..=hi`.
fn first_after(v: &Vec<usize>, start: usize, Ghost(hi): Ghost<int>) -> (res: Option<usize>)
    requires
        in_range(v@, start as int, hi),
    ensures
        res matches Some(e) ==> first_beyond(int_positions(v@), start as int, hi, 0) == Some(e as int),
        res is None ==> first_beyond(int_positions(v@), start as int, hi, 0) is None,
{
    let ghost iv = int_positions(v@);
    let mut i: usize = 0;
    while i < v.len()
        invariant
            i <= v.len(),
            iv == int_positions(v@),
            in_range(v@, start as int, hi),
            first_beyond(iv, start as int, hi, 0) == first_beyond(iv, start as int, hi, i as int),
        decreases v.len() - i,
    {
        if v[i] > start {
            assert(v@[i as int] <= hi);
            return Some(v[i]);
        }
        i += 1;
    }
    None
}

/// Find all non-overlapping matches of a specific rule in the token stream.
#[verifier::rlimit(40)]
pub fn find_matches(grammar: &Grammar, rule_name: &str, nodes: &[MecabNode]) -> (res: Vec<MatchResult>)
    ensures
        match_views(res@) == spec_find_matches(grammar@, rule_name@, node_views(nodes@)),
{
    let ghost g = grammar@;
    let ghost nv = node_views(nodes@);
    let nc = chars_of(rule_name);
    proof {
        lemma_first_rule_from_bounds(g, rule_name@, 0);
    }
    let ri = match grammar.find_rule_index(nc.as_slice()) {
        Some(i) => i,
        None => {
            let r: Vec<MatchResult> = Vec::new();
            assert(match_views(r@) =~= Seq::<SpecMatch>::empty());
            return r;
        },
    };
    let rule = &grammar.rules[ri];
    let ghost rv = g[ri as int];
    assert(rv == rule@);
    let fuel = depth_limit(nodes.len(), grammar.rules.len());
    let mut matches: Vec<MatchResult> = Vec::new();
    let mut start: usize = 0;
    assert(match_views(matches@) + scan_matches(g, nv, rule_name@, rv, 0, fuel as nat) =~= scan_matches(g, nv, rule_name@, rv, 0, fuel as nat));
    while start < nodes.len()
        invariant
            start <= nodes.len(),
            g == grammar@,
            nv == node_views(nodes@),
            rv == rule@,
            match_views(matches@) + scan_matches(g, nv, rule_name@, rv, start as int, fuel as nat)
                == scan_matches(g, nv, rule_name@, rv, 0, fuel as nat),
        decreases nodes.len() - start,
    {
        let pe = preferred_ends(grammar, &rule.pattern, nodes, start, fuel);
        match first_after(&pe, start, Ghost(nodes.len() as int)) {
            Some(end) => {
                proof {
                    lemma_first_beyond_range(int_positions(pe@), start as int, nodes.len() as int, 0);
                    lemma_scan_take(g, nv, rule_name@, rv, start as int, end as int, fuel as nat);
                }
                let fixed = match trace_fixed(grammar, &rule.pattern, nodes, start, end, fuel) {
                    Some(f) => f,
                    None => Vec::new(),
                };
                let mr = make_match(rule, rule_name, start, end, fixed);
                proof {
                    assert(int_positions(Seq::<usize>::empty()) =~= Seq::<int>::empty());
                    assert(mr@ == spec_match(g, nv, rule_name@, rv, start as int, end as int, fuel as nat));
                }
                let ghost before = matches@;
                matches.push(mr);
                assert(match_views(matches@) =~= match_views(before).push(mr@));
                assert(match_views(matches@) + scan_matches(g, nv, rule_name@, rv, end as int, fuel as nat)
                    =~= match_views(before) + scan_matches(g, nv, rule_name@, rv, start as int, fuel as nat));
                start = end;
            },
            None => {
                proof {
                    lemma_scan_skip(g, nv, rule_name@, rv, start as int, fuel as nat);
                }
                start += 1;
            },
        }
    }
    assert(scan_matches(g, nv, rule_name@, rv, nodes.len() as int, fuel as nat) == Seq::<SpecMatch>::empty()) by {
        reveal(scan_matches);
    }
    assert(match_views(matches@) =~= scan_matches(g, nv, rule_name@, rv, 0, fuel as nat));
    matches
}

/// Order of reported matches: by start position, longer span first.
pub open spec fn match_before(a: SpecMatch, b: SpecMatch) -> bool {
    a.start < b.start || (a.start == b.start && a.end > b.end)
}

/// Inserts `x` into `s` after every entry among `s[..j]` that does not come after it.
pub open spec fn insert_match(s: Seq<SpecMatch>, x: SpecMatch, j: int) -> Seq<SpecMatch>
    decreases j,
{
    if j <= 0 || j > s.len() || !match_before(x, s[j - 1]) {
        s.insert(if 0 <= j <= s.len() { j } else { s.len() as int }, x)
    } else {
        insert_match(s, x, j - 1)
    }
}

/// The stable sort of `s` by `match_before` (entries with equal keys keep their order).
pub open spec fn sort_matches(s: Seq<SpecMatch>) -> Seq<SpecMatch>
    decreases s.len(),
{
    if s.len() == 0 {
        Seq::empty()
    } else {
        let t = sort_matches(s.drop_last());
        insert_match(t, s.last(), t.len() as int)
    }
}

/// The matches of each of the first `k` rules (found by name), rule after rule.
pub open spec fn rules_matches(g: Seq<SpecRule>, nodes: Seq<SpecNode>, k: int) -> Seq<SpecMatch>
    decreases k,
{
    if k <= 0 || k > g.len() {
        Seq::empty()
    } else {
        rules_matches(g, nodes, k - 1) + spec_find_matches(g, g[k - 1].name, nodes)
    }
}

/// All matches of all rules, ordered by start position and then by longer span.
pub open spec fn spec_find_all_matches(g: Seq<SpecRule>, nodes: Seq<SpecNode>) -> Seq<SpecMatch> {
    sort_matches(rules_matches(g, nodes, g.len() as int))
}

fn before_exec(a: &MatchResult, b: &MatchResult) -> (res: bool)
    ensures
        res == match_before(a@, b@),
{
    a.start < b.start || (a.start == b.start && a.end > b.end)
}

proof fn lemma_views_insert(v: Seq<MatchResult>, j: int, x: MatchResult)
    requires
        0 <= j <= v.len(),
    ensures
        match_views(v.insert(j, x)) == match_views(v).insert(j, x@),
{
    v.insert_ensures(j, x);
    match_views(v).insert_ensures(j, x@);
    assert(match_views(v.insert(j, x)) =~= match_views(v).insert(j, x@));
}

/// Inserts a match into a sorted list after all entries that do not come after it.
fn insert_sorted_match(sorted: &mut Vec<MatchResult>, m: MatchResult)
    ensures
        match_views(final(sorted)@) == insert_match(
            match_views(old(sorted)@),
            m@,
            old(sorted)@.len() as int,
        ),
        final(sorted)@.len() == old(sorted)@.len() + 1,
{
    let ghost sv = match_views(sorted@);
    let mut j = sorted.len();
    while j > 0 && before_exec(&m, &sorted[j - 1])
        invariant
            j <= sorted.len(),
            sv == match_views(sorted@),
            insert_match(sv, m@, j as int) == insert_match(sv, m@, sorted.len() as int),
        decreases j,
    {
        j -= 1;
    }
    proof {
        lemma_views_insert(sorted@, j as int, m);
    }
    sorted.insert(j, m);
}

/// Find all non-overlapping matches of ALL rules in the token stream, sorted by start
/// position and then by longest span.
pub fn find_all_matches(grammar: &Grammar, nodes: &[MecabNode]) -> (res: Vec<MatchResult>)
    ensures
        match_views(res@) == spec_find_all_matches(grammar@, node_views(nodes@)),
{
    let ghost g = grammar@;
    let ghost nv = node_views(nodes@);
    let mut all: Vec<MatchResult> = Vec::new();
    let mut i: usize = 0;
    assert(match_views(all@) =~= rules_matches(g, nv, 0));
    while i < grammar.rules.len()
        invariant
            i <= grammar.rules.len(),
            g == grammar@,
            nv == node_views(nodes@),
            match_views(all@) == rules_matches(g, nv, i as int),
        decreases grammar.rules.len() - i,
    {
        let mut ms = find_matches(grammar, grammar.rules[i].name.as_str(), nodes);
        let ghost before = all@;
        let ghost add = ms@;
        assert(g[i as int].name == grammar.rules@[i as int].name@);
        all.append(&mut ms);
        assert(match_views(all@) =~= match_views(before) + match_views(add));
        i += 1;
    }
    let ghost av = match_views(all@);
    let mut sorted: Vec<MatchResult> = Vec::new();
    let mut rest = all;
    assert(match_views(sorted@) =~= sort_matches(av.take(0)));
    while rest.len() > 0
        invariant
            rest@.len() + sorted@.len() == av.len(),
            match_views(sorted@) == sort_matches(av.take(sorted@.len() as int)),
            forall|j: int| 0 <= j < rest@.len() ==> (#[trigger] rest@[j])@ == av[sorted@.len() + j],
        decreases rest@.len(),
    {
        let m = rest.remove(0);
        let ghost k = sorted@.len();
        assert(m@ == av[k as int]);
        assert(av.take((k + 1) as int).drop_last() =~= av.take(k as int));
        assert(av.take((k + 1) as int).last() == av[k as int]);
        insert_sorted_match(&mut sorted, m);
    }
    assert(av.take(av.len() as int) =~= av);
    sorted
}


// ── Laws ───────────────────────────────────────────────────────────────────

/// Positions strictly increasing, each in `lo..hi`.
pub open spec fn positions_within(f: Seq<int>, lo: int, hi: int) -> bool {
    &&& forall|i: int| 0 <= i < f.len() ==> lo <= #[trigger] f[i] < hi
    &&& forall|i: int, j: int| 0 <= i < j < f.len() ==> #[trigger] f[i] < #[trigger] f[j]
}

proof fn lemma_positions_concat(a: Seq<int>, b: Seq<int>, lo: int, mid: int, hi: int)
    requires
        lo <= mid <= hi,
        positions_within(a, lo, mid),
        positions_within(b, mid, hi),
    ensures
        positions_within(a + b, lo, hi),
{
    let c = a + b;
    assert forall|i: int, j: int| 0 <= i < j < c.len() implies #[trigger] c[i] < #[trigger] c[j] by {
        if j < a.len() {
        } else if i >= a.len() {
            assert(c[i] == b[i - a.len()] && c[j] == b[j - a.len()]);
        } else {
            assert(c[i] == a[i] && c[j] == b[j - a.len()]);
        }
    }
    assert forall|i: int| 0 <= i < c.len() implies lo <= #[trigger] c[i] < hi by {
        if i >= a.len() {
            assert(c[i] == b[i - a.len()]);
        } else {
            assert(c[i] == a[i]);
        }
    }
}

/// The fixed positions of a match lie, in increasing order, inside the matched span.
pub proof fn lemma_trace_within(
    g: Seq<SpecRule>,
    nodes: Seq<SpecNode>,
    p: SpecPattern,
    pos: int,
    end: int,
    fuel: nat,
)
    ensures
        trace(g, nodes, p, pos, end, fuel) matches Some(f) ==> positions_within(f, pos, end),
    decreases fuel, p, 0int, 0int,
{
    match p {
        SpecPattern::Sequence(items) => lemma_trace_seq_within(g, nodes, items, 0, pos, end, fuel),
        SpecPattern::Alternative(alts) => lemma_trace_alt_within(g, nodes, alts, 0, pos, end, fuel),
        SpecPattern::Optional(inner) => lemma_trace_within(g, nodes, *inner, pos, end, fuel),
        SpecPattern::ZeroOrMore(inner) => lemma_scan_star_within(g, nodes, *inner, pos, end, pos + 1, fuel),
        SpecPattern::OneOrMore(inner) => lemma_scan_star_within(g, nodes, *inner, pos, end, pos + 1, fuel),
        SpecPattern::RuleRef(name) => {
            if fuel > 0 {
                if let Some(i) = first_rule(g, name) {
                    if 0 <= i < g.len() {
                        lemma_trace_within(g, nodes, g[i].pattern, pos, end, (fuel - 1) as nat);
                    }
                }
            }
        },
        _ => {},
    }
}

proof fn lemma_trace_seq_within(
    g: Seq<SpecRule>,
    nodes: Seq<SpecNode>,
    items: Seq<SpecPattern>,
    i: int,
    pos: int,
    end: int,
    fuel: nat,
)
    ensures
        trace_seq(g, nodes, items, i, pos, end, fuel) matches Some(f) ==> positions_within(f, pos, end),
    decreases fuel, items, items.len() - i, end - pos + 2,
{
    if 0 <= i < items.len() && pos <= end {
        lemma_scan_seq_within(g, nodes, items, i, pos, end, pos, fuel);
    }
}

proof fn lemma_scan_seq_within(
    g: Seq<SpecRule>,
    nodes: Seq<SpecNode>,
    items: Seq<SpecPattern>,
    i: int,
    pos: int,
    end: int,
    mid: int,
    fuel: nat,
)
    ensures
        scan_seq(g, nodes, items, i, pos, end, mid, fuel) matches Some(f) ==> positions_within(f, pos, end),
    decreases fuel, items, items.len() - i, end + 1 - mid,
{
    if 0 <= i < items.len() && pos <= mid <= end {
        lemma_trace_within(g, nodes, items[i], pos, mid, fuel);
        lemma_trace_seq_within(g, nodes, items, i + 1, mid, end, fuel);
        if let Some(a) = trace(g, nodes, items[i], pos, mid, fuel) {
            if let Some(b) = trace_seq(g, nodes, items, i + 1, mid, end, fuel) {
                lemma_positions_concat(a, b, pos, mid, end);
            }
        }
        lemma_scan_seq_within(g, nodes, items, i, pos, end, mid + 1, fuel);
    }
}

proof fn lemma_trace_alt_within(
    g: Seq<SpecRule>,
    nodes: Seq<SpecNode>,
    alts: Seq<SpecPattern>,
    i: int,
    pos: int,
    end: int,
    fuel: nat,
)
    ensures
        trace_alt(g, nodes, alts, i, pos, end, fuel) matches Some(f) ==> positions_within(f, pos, end),
    decreases fuel, alts, alts.len() - i, 0int,
{
    if 0 <= i < alts.len() {
        lemma_trace_within(g, nodes, alts[i], pos, end, fuel);
        lemma_trace_alt_within(g, nodes, alts, i + 1, pos, end, fuel);
    }
}

proof fn lemma_scan_star_within(
    g: Seq<SpecRule>,
    nodes: Seq<SpecNode>,
    inner: SpecPattern,
    pos: int,
    end: int,
    mid: int,
    fuel: nat,
)
    ensures
        scan_star(g, nodes, inner, pos, end, mid, fuel) matches Some(f) ==> positions_within(f, pos, end),
    decreases fuel, inner, end - pos, end + 1 - mid,
{
    if pos < mid <= end {
        lemma_trace_within(g, nodes, inner, pos, mid, fuel);
        if mid < end {
            lemma_scan_star_within(g, nodes, inner, mid, end, mid + 1, fuel);
        }
        if let Some(a) = trace(g, nodes, inner, pos, mid, fuel) {
            if mid == end {
                assert(a + Seq::<int>::empty() =~= a);
            } else if let Some(b) = scan_star(g, nodes, inner, mid, end, mid + 1, fuel) {
                lemma_positions_concat(a, b, pos, mid, end);
            }
        }
        lemma_scan_star_within(g, nodes, inner, pos, end, mid + 1, fuel);
    }
}

/// Matches of one rule: each spans a nonempty range of tokens from `lo` on, inside the token
/// sequence of length `n`, with its fixed positions increasing inside that span; each ends
/// before the next starts.
pub open spec fn spans_ordered(ms: Seq<SpecMatch>, lo: int, n: int) -> bool {
    &&& forall|i: int| 0 <= i < ms.len() ==> lo <= (#[trigger] ms[i]).start < ms[i].end <= n
        && positions_within(ms[i].fixed_indices, ms[i].start, ms[i].end)
    &&& forall|i: int, j: int| 0 <= i < j < ms.len() ==> (#[trigger] ms[i]).end <= (#[trigger] ms[j]).start
}

proof fn lemma_scan_spans(
    g: Seq<SpecRule>,
    nodes: Seq<SpecNode>,
    name: Seq<char>,
    rule: SpecRule,
    start: int,
    fuel: nat,
)
    ensures
        spans_ordered(scan_matches(g, nodes, name, rule, start, fuel), start, nodes.len() as int),
        forall|i: int| 0 <= i < scan_matches(g, nodes, name, rule, start, fuel).len() ==> (#[trigger] scan_matches(
            g,
            nodes,
            name,
            rule,
            start,
            fuel,
        )[i]).rule_name == name,
    decreases nodes.len() - start,
{
    reveal(scan_matches);
    if 0 <= start < nodes.len() {
        if let Some(end) = first_beyond(pref(g, nodes, rule.pattern, start, fuel), start, nodes.len() as int, 0) {
            if start < end <= nodes.len() {
                lemma_scan_spans(g, nodes, name, rule, end, fuel);
                let m = spec_match(g, nodes, name, rule, start, end, fuel);
                let rest = scan_matches(g, nodes, name, rule, end, fuel);
                let all = seq![m] + rest;
                lemma_trace_within(g, nodes, rule.pattern, start, end, fuel);
                assert(positions_within(Seq::<int>::empty(), start, end));
                assert forall|i: int| 0 <= i < all.len() implies start <= (#[trigger] all[i]).start < all[i].end
                    <= nodes.len() && positions_within(all[i].fixed_indices, all[i].start, all[i].end)
                    && all[i].rule_name == name by {
                    if i > 0 {
                        assert(all[i] == rest[i - 1]);
                    }
                }
                assert forall|i: int, j: int| 0 <= i < j < all.len() implies (#[trigger] all[i]).end <= (
                #[trigger] all[j]).start by {
                    assert(all[j] == rest[j - 1]);
                    if i > 0 {
                        assert(all[i] == rest[i - 1]);
                    }
                }
            }
        } else {
            lemma_scan_spans(g, nodes, name, rule, start + 1, fuel);
        }
    }
}

/// The matches of a rule are reported in order, without overlap: each spans a nonempty range
/// of tokens inside the sequence, with its fixed positions increasing inside that span, and
/// each carries the rule's name.
pub proof fn law_find_matches_spans(g: Seq<SpecRule>, name: Seq<char>, nodes: Seq<SpecNode>)
    ensures
        spans_ordered(spec_find_matches(g, name, nodes), 0, nodes.len() as int),
        forall|i: int| 0 <= i < spec_find_matches(g, name, nodes).len() ==> (#[trigger] spec_find_matches(
            g,
            name,
            nodes,
        )[i]).rule_name == name,
{
    if let Some(i) = first_rule(g, name) {
        if 0 <= i < g.len() {
            lemma_scan_spans(g, nodes, name, g[i], 0, rule_depth(nodes.len() as int, g.len() as int));
        }
    }
}


proof fn lemma_scan_ends(
    g: Seq<SpecRule>,
    nodes: Seq<SpecNode>,
    name: Seq<char>,
    rule: SpecRule,
    start: int,
    fuel: nat,
)
    ensures
        forall|i: int| 0 <= i < scan_matches(g, nodes, name, rule, start, fuel).len() ==> ends(
            g,
            nodes,
            rule.pattern,
            (#[trigger] scan_matches(g, nodes, name, rule, start, fuel)[i]).start,
            fuel,
        ).contains(scan_matches(g, nodes, name, rule, start, fuel)[i].end),
    decreases nodes.len() - start,
{
    reveal(scan_matches);
    if 0 <= start < nodes.len() {
        let ps = pref(g, nodes, rule.pattern, start, fuel);
        lemma_first_beyond_range(ps, start, nodes.len() as int, 0);
        if let Some(end) = first_beyond(ps, start, nodes.len() as int, 0) {
            lemma_scan_ends(g, nodes, name, rule, end, fuel);
            lemma_pref_sound(g, nodes, rule.pattern, start, fuel);
            let rest = scan_matches(g, nodes, name, rule, end, fuel);
            let all = scan_matches(g, nodes, name, rule, start, fuel);
            assert(all == seq![spec_match(g, nodes, name, rule, start, end, fuel)] + rest);
            assert forall|i: int| 0 <= i < all.len() implies ends(g, nodes, rule.pattern, (#[trigger] all[i]).start, fuel).contains(
                all[i].end,
            ) by {
                if i > 0 {
                    assert(all[i] == rest[i - 1]);
                }
            }
        } else {
            lemma_scan_ends(g, nodes, name, rule, start + 1, fuel);
        }
    }
}

/// Every match ends where the rule's pattern, started at the match's first token, can end:
/// its end is one of the ends that `match_at` lists.
pub proof fn law_find_matches_ends(g: Seq<SpecRule>, name: Seq<char>, nodes: Seq<SpecNode>)
    ensures
        forall|r: int, i: int|
            first_rule(g, name) == Some(r) && 0 <= r < g.len() && 0 <= i < spec_find_matches(g, name, nodes).len()
                ==> #[trigger] ends(
                g,
                nodes,
                g[r].pattern,
                spec_find_matches(g, name, nodes)[i].start,
                rule_depth(nodes.len() as int, g.len() as int),
            ).contains(spec_find_matches(g, name, nodes)[i].end),
{
    if let Some(r) = first_rule(g, name) {
        if 0 <= r < g.len() {
            lemma_scan_ends(g, nodes, name, g[r], 0, rule_depth(nodes.len() as int, g.len() as int));
        }
    }
}

proof fn lemma_scan_longest(
    g: Seq<SpecRule>,
    nodes: Seq<SpecNode>,
    name: Seq<char>,
    rule: SpecRule,
    start: int,
    fuel: nat,
)
    requires
        0 <= start,
        !has_lazy(g, rule.pattern, fuel),
    ensures
        forall|i: int, e: int|
            0 <= i < scan_matches(g, nodes, name, rule, start, fuel).len() && #[trigger] ends(
                g,
                nodes,
                rule.pattern,
                scan_matches(g, nodes, name, rule, start, fuel)[i].start,
                fuel,
            ).contains(e) ==> e <= scan_matches(g, nodes, name, rule, start, fuel)[i].end,
    decreases nodes.len() - start,
{
    reveal(scan_matches);
    if 0 <= start < nodes.len() {
        let n = nodes.len() as int;
        let ps = pref(g, nodes, rule.pattern, start, fuel);
        let es = ends(g, nodes, rule.pattern, start, fuel);
        lemma_first_beyond_range(ps, start, n, 0);
        if let Some(end) = first_beyond(ps, start, n, 0) {
            lemma_scan_longest(g, nodes, name, rule, end, fuel);
            assert(ps == desc_in(es, start, n));
            lemma_first_of_desc_in(es, start, n, start, n);
            lemma_ends_bounds(g, nodes, rule.pattern, start, fuel);
            let rest = scan_matches(g, nodes, name, rule, end, fuel);
            let all = scan_matches(g, nodes, name, rule, start, fuel);
            assert(all == seq![spec_match(g, nodes, name, rule, start, end, fuel)] + rest);
            assert forall|i: int, e: int|
                0 <= i < all.len() && #[trigger] ends(g, nodes, rule.pattern, all[i].start, fuel).contains(e) implies e
                <= all[i].end by {
                if i > 0 {
                    assert(all[i] == rest[i - 1]);
                } else {
                    assert(es.contains(e));
                }
            }
        } else {
            lemma_scan_longest(g, nodes, name, rule, start + 1, fuel);
        }
    }
}

/// Unless its pattern holds a non-greedy repetition or option of a wildcard, a rule's match
/// takes the longest end: none of the ends `match_at` lists from the match's start lies beyond
/// the match's end.
pub proof fn law_find_matches_longest(g: Seq<SpecRule>, name: Seq<char>, nodes: Seq<SpecNode>)
    ensures
        forall|r: int, i: int, e: int|
            first_rule(g, name) == Some(r) && 0 <= r < g.len() && !has_lazy(
                g,
                g[r].pattern,
                rule_depth(nodes.len() as int, g.len() as int),
            ) && 0 <= i < spec_find_matches(g, name, nodes).len() && #[trigger] ends(
                g,
                nodes,
                g[r].pattern,
                spec_find_matches(g, name, nodes)[i].start,
                rule_depth(nodes.len() as int, g.len() as int),
            ).contains(e) ==> e <= spec_find_matches(g, name, nodes)[i].end,
{
    if let Some(r) = first_rule(g, name) {
        if 0 <= r < g.len() && !has_lazy(g, g[r].pattern, rule_depth(nodes.len() as int, g.len() as int)) {
            lemma_scan_longest(g, nodes, name, g[r], 0, rule_depth(nodes.len() as int, g.len() as int));
        }
    }
}

/// Whether token `s` lies inside one of the matches `ms`.
pub open spec fn covered(ms: Seq<SpecMatch>, s: int) -> bool {
    exists|i: int| 0 <= i < ms.len() && (#[trigger] ms[i]).start <= s < ms[i].end
}

proof fn lemma_scan_no_miss(
    g: Seq<SpecRule>,
    nodes: Seq<SpecNode>,
    name: Seq<char>,
    rule: SpecRule,
    start: int,
    fuel: nat,
    s: int,
)
    requires
        0 <= start <= s < nodes.len(),
        !covered(scan_matches(g, nodes, name, rule, start, fuel), s),
    ensures
        first_beyond(pref(g, nodes, rule.pattern, s, fuel), s, nodes.len() as int, 0) is None,
    decreases nodes.len() - start,
{
    reveal(scan_matches);
    let n = nodes.len() as int;
    let ms = scan_matches(g, nodes, name, rule, start, fuel);
    lemma_first_beyond_range(pref(g, nodes, rule.pattern, start, fuel), start, n, 0);
    match first_beyond(pref(g, nodes, rule.pattern, start, fuel), start, n, 0) {
        Some(end) => {
            let rest = scan_matches(g, nodes, name, rule, end, fuel);
            assert(ms == seq![spec_match(g, nodes, name, rule, start, end, fuel)] + rest);
            if s < end {
                assert(ms[0].start <= s < ms[0].end);
            } else {
                if covered(rest, s) {
                    let i = choose|i: int| 0 <= i < rest.len() && (#[trigger] rest[i]).start <= s < rest[i].end;
                    assert(ms[i + 1] == rest[i]);
                }
                lemma_scan_no_miss(g, nodes, name, rule, end, fuel, s);
            }
        },
        None => {
            if start < s {
                lemma_scan_no_miss(g, nodes, name, rule, start + 1, fuel, s);
            }
        },
    }
}

/// No match is missed: from a token that lies inside none of the matches of a rule, the rule's
/// pattern has no end beyond that token (none of the ends `match_at` lists lies beyond it).
pub proof fn law_find_matches_no_miss(g: Seq<SpecRule>, name: Seq<char>, nodes: Seq<SpecNode>, s: int)
    requires
        0 <= s < nodes.len(),
        !covered(spec_find_matches(g, name, nodes), s),
    ensures
        forall|i: int, e: int|
            first_rule(g, name) == Some(i) && 0 <= i < g.len() && #[trigger] ends(
                g,
                nodes,
                g[i].pattern,
                s,
                rule_depth(nodes.len() as int, g.len() as int),
            ).contains(e) ==> e <= s,
{
    if let Some(i) = first_rule(g, name) {
        if 0 <= i < g.len() {
            let fuel = rule_depth(nodes.len() as int, g.len() as int);
            let ps = pref(g, nodes, g[i].pattern, s, fuel);
            lemma_scan_no_miss(g, nodes, name, g[i], 0, fuel, s);
            lemma_first_beyond_range(ps, s, nodes.len() as int, 0);
            law_preferred_ends_are_ends(g, nodes, g[i].pattern, s, fuel);
            lemma_ends_bounds(g, nodes, g[i].pattern, s, fuel);
            assert forall|e: int| #[trigger] ends(g, nodes, g[i].pattern, s, fuel).contains(e) implies e <= s by {
                assert(ps.contains(e));
                let j = choose|j: int| 0 <= j < ps.len() && ps[j] == e;
            }
        }
    }
}

/// Whether matches are in reporting order: by start position, longer span first.
pub open spec fn matches_sorted(ms: Seq<SpecMatch>) -> bool {
    forall|i: int, j: int| 0 <= i < j < ms.len() ==> !match_before(#[trigger] ms[j], #[trigger] ms[i])
}

proof fn lemma_insert_match(s: Seq<SpecMatch>, x: SpecMatch, j: int)
    requires
        0 <= j <= s.len(),
        matches_sorted(s),
        forall|k: int| j <= k < s.len() ==> match_before(x, #[trigger] s[k]),
    ensures
        matches_sorted(insert_match(s, x, j)),
        insert_match(s, x, j).to_multiset() == s.to_multiset().insert(x),
    decreases j,
{
    if j <= 0 || !match_before(x, s[j - 1]) {
        let r = s.insert(j, x);
        assert(r == insert_match(s, x, j));
        vstd::seq_lib::to_multiset_insert(s, j, x);
        assert forall|a: int, b: int| 0 <= a < b < r.len() implies !match_before(#[trigger] r[b], #[trigger] r[a]) by {
            if b < j {
                assert(r[a] == s[a] && r[b] == s[b]);
            } else if b == j {
                assert(r[b] == x && r[a] == s[a]);
                assert(!match_before(s[j - 1], s[a]) || a == j - 1);
            } else if a == j {
                assert(r[a] == x && r[b] == s[b - 1]);
            } else if a > j {
                assert(r[a] == s[a - 1] && r[b] == s[b - 1]);
            } else {
                assert(r[a] == s[a] && r[b] == s[b - 1]);
                if j > 0 {
                    assert(!match_before(s[j - 1], s[a]) || a == j - 1);
                }
                assert(match_before(x, s[b - 1]));
            }
        }
    } else {
        lemma_insert_match(s, x, j - 1);
    }
}

proof fn lemma_sort_matches(s: Seq<SpecMatch>)
    ensures
        matches_sorted(sort_matches(s)),
        sort_matches(s).to_multiset() == s.to_multiset(),
        sort_matches(s).len() == s.len(),
    decreases s.len(),
{
    if s.len() > 0 {
        let t = sort_matches(s.drop_last());
        lemma_sort_matches(s.drop_last());
        lemma_insert_match(t, s.last(), t.len() as int);
        vstd::seq_lib::to_multiset_build(s.drop_last(), s.last());
        assert(s.drop_last().push(s.last()) =~= s);
        vstd::seq_lib::to_multiset_len(sort_matches(s));
        vstd::seq_lib::to_multiset_len(s);
        assert(t.to_multiset() == s.drop_last().to_multiset());
        assert(sort_matches(s).to_multiset() == t.to_multiset().insert(s.last()));
    } else {
        assert(sort_matches(s) =~= s);
    }
}

/// The matches of all rules are reported in order (by start position, longer span first), and
/// they are exactly the matches of the rules one by one, each as often.
pub proof fn law_find_all_sorted(g: Seq<SpecRule>, nodes: Seq<SpecNode>)
    ensures
        matches_sorted(spec_find_all_matches(g, nodes)),
        spec_find_all_matches(g, nodes).to_multiset() == rules_matches(g, nodes, g.len() as int).to_multiset(),
{
    lemma_sort_matches(rules_matches(g, nodes, g.len() as int));
}


/// Whether a match covers exactly tokens `a..b`.
pub open spec fn same_span(a: int, b: int) -> spec_fn(SpecMatch) -> bool {
    |m: SpecMatch| m.start == a && m.end == b
}

proof fn lemma_filter_none(s: Seq<SpecMatch>, p: spec_fn(SpecMatch) -> bool)
    requires
        forall|k: int| 0 <= k < s.len() ==> !p(#[trigger] s[k]),
    ensures
        s.filter(p) == Seq::<SpecMatch>::empty(),
    decreases s.len(),
{
    reveal(Seq::filter);
    if s.len() > 0 {
        lemma_filter_none(s.drop_last(), p);
        assert(!p(s[s.len() - 1]));
    }
}

proof fn lemma_insert_match_filter(t: Seq<SpecMatch>, x: SpecMatch, j: int, a: int, b: int)
    requires
        0 <= j <= t.len(),
        forall|k: int| j <= k < t.len() ==> match_before(x, #[trigger] t[k]),
    ensures
        insert_match(t, x, j).filter(same_span(a, b)) == (if same_span(a, b)(x) {
            t.filter(same_span(a, b)).push(x)
        } else {
            t.filter(same_span(a, b))
        }),
    decreases j,
{
    let p = same_span(a, b);
    if j <= 0 || !match_before(x, t[j - 1]) {
        let head = t.take(j);
        let tail = t.skip(j);
        assert(insert_match(t, x, j) =~= head + seq![x] + tail);
        assert(t =~= head + tail);
        Seq::filter_distributes_over_add(head + seq![x], tail, p);
        Seq::filter_distributes_over_add(head, seq![x], p);
        Seq::filter_distributes_over_add(head, tail, p);
        reveal(Seq::filter);
        assert(seq![x].drop_last() =~= Seq::<SpecMatch>::empty());
        assert(seq![x].drop_last().filter(p) =~= Seq::<SpecMatch>::empty());
        assert(seq![x].last() == x);
        if p(x) {
            assert forall|k: int| 0 <= k < tail.len() implies !p(#[trigger] tail[k]) by {
                assert(tail[k] == t[j + k]);
            }
            lemma_filter_none(tail, p);
            assert(seq![x].filter(p) =~= seq![x]);
        } else {
            assert(seq![x].filter(p) =~= Seq::<SpecMatch>::empty());
        }
    } else {
        lemma_insert_match_filter(t, x, j - 1, a, b);
    }
}

proof fn lemma_sort_filter(s: Seq<SpecMatch>, a: int, b: int)
    ensures
        sort_matches(s).filter(same_span(a, b)) == s.filter(same_span(a, b)),
    decreases s.len(),
{
    reveal(Seq::filter);
    if s.len() > 0 {
        let t = sort_matches(s.drop_last());
        lemma_sort_filter(s.drop_last(), a, b);
        lemma_insert_match_filter(t, s.last(), t.len() as int, a, b);
    }
}

/// The order of all matches is stable: matches that cover the same span come out in the order
/// in which the rules, one by one, found them.
pub proof fn law_find_all_stable(g: Seq<SpecRule>, nodes: Seq<SpecNode>, a: int, b: int)
    ensures
        spec_find_all_matches(g, nodes).filter(same_span(a, b)) == rules_matches(
            g,
            nodes,
            g.len() as int,
        ).filter(same_span(a, b)),
{
    lemma_sort_filter(rules_matches(g, nodes, g.len() as int), a, b);
}

/// Every match spans a nonempty range of tokens inside a sequence of `n` tokens.
pub open spec fn spans_within(ms: Seq<SpecMatch>, n: int) -> bool {
    forall|i: int| 0 <= i < ms.len() ==> 0 <= (#[trigger] ms[i]).start < ms[i].end <= n
}

proof fn lemma_rules_matches_within(g: Seq<SpecRule>, nodes: Seq<SpecNode>, k: int)
    ensures
        spans_within(rules_matches(g, nodes, k), nodes.len() as int),
    decreases k,
{
    if 0 < k <= g.len() {
        lemma_rules_matches_within(g, nodes, k - 1);
        law_find_matches_spans(g, g[k - 1].name, nodes);
        let a = rules_matches(g, nodes, k - 1);
        let b = spec_find_matches(g, g[k - 1].name, nodes);
        assert forall|i: int| 0 <= i < (a + b).len() implies 0 <= (#[trigger] (a + b)[i]).start < (a + b)[i].end
            <= nodes.len() by {
            if i >= a.len() {
                assert((a + b)[i] == b[i - a.len()]);
            }
        }
    }
}

/// Every match reported for all rules spans a nonempty range of tokens inside the sequence.
pub proof fn law_find_all_bounds(g: Seq<SpecRule>, nodes: Seq<SpecNode>)
    ensures
        spans_within(spec_find_all_matches(g, nodes), nodes.len() as int),
{
    let all = rules_matches(g, nodes, g.len() as int);
    let sorted = spec_find_all_matches(g, nodes);
    lemma_rules_matches_within(g, nodes, g.len() as int);
    lemma_sort_matches(all);
    assert forall|i: int| 0 <= i < sorted.len() implies 0 <= (#[trigger] sorted[i]).start < sorted[i].end
        <= nodes.len() by {
        vstd::seq_lib::to_multiset_contains(sorted, sorted[i]);
        vstd::seq_lib::to_multiset_contains(all, sorted[i]);
        assert(sorted.contains(sorted[i]));
        let j = choose|j: int| 0 <= j < all.len() && all[j] == sorted[i];
        assert(all[j] == sorted[i]);
    }
}

} // verus!
