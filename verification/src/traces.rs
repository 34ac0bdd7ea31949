//! How the fixed positions of a match relate to the ends of its pattern.
use vstd::prelude::*;
use crate::matcher::{alt_ends, ends, scan_seq, scan_star, seq_ends, seq_step, star, star_k, succ, trace, trace_alt, trace_seq};
use crate::node::SpecNode;
use crate::prefer::{
    lemma_ends_bounds, lemma_seq_ends_bounds, lemma_star_k_bounds, lemma_star_k_compose, lemma_star_k_more_rounds,
};
use crate::syntax::{first_rule, SpecPattern, SpecRule};

verus! {

// ── Every end is traced ────────────────────────────────────────────────────

/// Whether each `+` repetition met in `p` (following rule references `fuel` deep) can only
/// repeat a part that consumes at least one token.
pub open spec fn plus_consumes(g: Seq<SpecRule>, nodes: Seq<SpecNode>, p: SpecPattern, fuel: nat) -> bool
    decreases fuel, p, 0int,
{
    match p {
        SpecPattern::Sequence(items) => all_plus_consume(g, nodes, items, 0, fuel),
        SpecPattern::Alternative(alts) => all_plus_consume(g, nodes, alts, 0, fuel),
        SpecPattern::Optional(inner) => plus_consumes(g, nodes, *inner, fuel),
        SpecPattern::ZeroOrMore(inner) => plus_consumes(g, nodes, *inner, fuel),
        SpecPattern::OneOrMore(inner) => plus_consumes(g, nodes, *inner, fuel) && forall|q: int|
            0 <= q <= nodes.len() ==> !(#[trigger] ends(g, nodes, *inner, q, fuel)).contains(q),
        SpecPattern::RuleRef(name) => if fuel == 0 {
            true
        } else {
            match first_rule(g, name) {
                Some(i) => if 0 <= i < g.len() {
                    plus_consumes(g, nodes, g[i].pattern, (fuel - 1) as nat)
                } else {
                    true
                },
                None => true,
            }
        },
        _ => true,
    }
}

/// `plus_consumes` for each of `items[i..]`.
pub open spec fn all_plus_consume(g: Seq<SpecRule>, nodes: Seq<SpecNode>, items: Seq<SpecPattern>, i: int, fuel: nat) -> bool
    decreases fuel, items, items.len() - i,
{
    if 0 <= i < items.len() {
        plus_consumes(g, nodes, items[i], fuel) && all_plus_consume(g, nodes, items, i + 1, fuel)
    } else {
        true
    }
}

proof fn lemma_all_plus_consume(g: Seq<SpecRule>, nodes: Seq<SpecNode>, items: Seq<SpecPattern>, i: int, j: int, fuel: nat)
    requires
        0 <= i <= j < items.len(),
        all_plus_consume(g, nodes, items, i, fuel),
    ensures
        plus_consumes(g, nodes, items[j], fuel),
    decreases j - i,
{
    if i < j {
        lemma_all_plus_consume(g, nodes, items, i + 1, j, fuel);
    }
}

proof fn lemma_seq_ends_larger_from(
    g: Seq<SpecRule>,
    nodes: Seq<SpecNode>,
    items: Seq<SpecPattern>,
    i: int,
    a: Set<int>,
    b: Set<int>,
    fuel: nat,
)
    requires
        a.subset_of(b),
    ensures
        seq_ends(g, nodes, items, i, a, fuel).subset_of(seq_ends(g, nodes, items, i, b, fuel)),
    decreases items.len() - i,
{
    if 0 <= i < items.len() {
        let sa = seq_step(g, nodes, items[i], a, fuel);
        let sb = seq_step(g, nodes, items[i], b, fuel);
        assert forall|x: int| sa.contains(x) implies sb.contains(x) by {
            let q = choose|q: int| a.contains(q) && ends(g, nodes, items[i], q, fuel).contains(x);
            assert(b.contains(q));
        }
        lemma_seq_ends_larger_from(g, nodes, items, i + 1, sa, sb, fuel);
        assert(seq_ends(g, nodes, items, i, a, fuel) == seq_ends(g, nodes, items, i + 1, sa, fuel));
        assert(seq_ends(g, nodes, items, i, b, fuel) == seq_ends(g, nodes, items, i + 1, sb, fuel));
    }
}

/// An end of `items[i..]` from a set of starts is an end from one of them.
proof fn lemma_seq_ends_split(
    g: Seq<SpecRule>,
    nodes: Seq<SpecNode>,
    items: Seq<SpecPattern>,
    i: int,
    from: Set<int>,
    e: int,
    fuel: nat,
)
    requires
        seq_ends(g, nodes, items, i, from, fuel).contains(e),
    ensures
        exists|q: int| from.contains(q) && #[trigger] seq_ends(g, nodes, items, i, set![q], fuel).contains(e),
    decreases items.len() - i,
{
    if 0 <= i < items.len() {
        let nf = seq_step(g, nodes, items[i], from, fuel);
        assert(seq_ends(g, nodes, items, i, from, fuel) == seq_ends(g, nodes, items, i + 1, nf, fuel));
        lemma_seq_ends_split(g, nodes, items, i + 1, nf, e, fuel);
        let q1 = choose|q1: int| nf.contains(q1) && #[trigger] seq_ends(g, nodes, items, i + 1, set![q1], fuel).contains(e);
        let q = choose|q: int| from.contains(q) && ends(g, nodes, items[i], q, fuel).contains(q1);
        let sq = seq_step(g, nodes, items[i], set![q], fuel);
        assert(set![q].contains(q));
        assert(sq.contains(q1));
        assert(set![q1].subset_of(sq));
        lemma_seq_ends_larger_from(g, nodes, items, i + 1, set![q1], sq, fuel);
        assert(seq_ends(g, nodes, items, i, set![q], fuel) == seq_ends(g, nodes, items, i + 1, sq, fuel));
        assert(seq_ends(g, nodes, items, i, set![q], fuel).contains(e));
    } else {
        assert(seq_ends(g, nodes, items, i, set![e], fuel).contains(e));
    }
}

/// A position reached by repetitions from `from` is in `from`, or is reached from the end of a
/// first consuming match.
proof fn lemma_star_k_first(
    g: Seq<SpecRule>,
    nodes: Seq<SpecNode>,
    inner: SpecPattern,
    from: Set<int>,
    k: nat,
    e: int,
    fuel: nat,
)
    requires
        star_k(g, nodes, inner, from, k, fuel).contains(e),
    ensures
        from.contains(e) || (k > 0 && exists|q: int, mid: int|
            from.contains(q) && q < mid && #[trigger] ends(g, nodes, inner, q, fuel).contains(mid) && #[trigger] star_k(
                g,
                nodes,
                inner,
                set![mid],
                (k - 1) as nat,
                fuel,
            ).contains(e)),
    decreases k,
{
    if k > 0 {
        let prev = star_k(g, nodes, inner, from, (k - 1) as nat, fuel);
        assert(star_k(g, nodes, inner, from, k, fuel) == prev.union(succ(g, nodes, inner, prev, fuel)));
        if prev.contains(e) {
            lemma_star_k_first(g, nodes, inner, from, (k - 1) as nat, e, fuel);
            if !from.contains(e) {
                let (q, mid) = choose|q: int, mid: int|
                    from.contains(q) && q < mid && #[trigger] ends(g, nodes, inner, q, fuel).contains(mid) && #[trigger] star_k(
                        g,
                        nodes,
                        inner,
                        set![mid],
                        (k - 2) as nat,
                        fuel,
                    ).contains(e);
                lemma_star_k_more_rounds(g, nodes, inner, set![mid], (k - 2) as nat, (k - 1) as nat, fuel);
                assert(star_k(g, nodes, inner, set![mid], (k - 1) as nat, fuel).contains(e));
            }
        } else {
            let q1 = choose|q1: int| prev.contains(q1) && q1 < e && ends(g, nodes, inner, q1, fuel).contains(e);
            lemma_star_k_first(g, nodes, inner, from, (k - 1) as nat, q1, fuel);
            if from.contains(q1) {
                assert(star_k(g, nodes, inner, set![e], 0, fuel).contains(e));
                lemma_star_k_more_rounds(g, nodes, inner, set![e], 0, (k - 1) as nat, fuel);
                assert(star_k(g, nodes, inner, set![e], (k - 1) as nat, fuel).contains(e));
            } else {
                let (q, mid) = choose|q: int, mid: int|
                    from.contains(q) && q < mid && #[trigger] ends(g, nodes, inner, q, fuel).contains(mid) && #[trigger] star_k(
                        g,
                        nodes,
                        inner,
                        set![mid],
                        (k - 2) as nat,
                        fuel,
                    ).contains(q1);
                let pm = star_k(g, nodes, inner, set![mid], (k - 2) as nat, fuel);
                assert(succ(g, nodes, inner, pm, fuel).contains(e));
                assert(star_k(g, nodes, inner, set![mid], (k - 1) as nat, fuel) == pm.union(succ(g, nodes, inner, pm, fuel)));
                assert(star_k(g, nodes, inner, set![mid], (k - 1) as nat, fuel).contains(e));
            }
        }
    }
}

proof fn lemma_scan_seq_finds(
    g: Seq<SpecRule>,
    nodes: Seq<SpecNode>,
    items: Seq<SpecPattern>,
    i: int,
    pos: int,
    end: int,
    m: int,
    mid: int,
    fuel: nat,
)
    requires
        0 <= i < items.len(),
        pos <= m <= mid <= end,
        ends(g, nodes, items[i], pos, fuel).contains(mid),
        trace(g, nodes, items[i], pos, mid, fuel) is Some,
        trace_seq(g, nodes, items, i + 1, mid, end, fuel) is Some,
    ensures
        scan_seq(g, nodes, items, i, pos, end, m, fuel) is Some,
    decreases mid - m,
{
    if m < mid {
        lemma_scan_seq_finds(g, nodes, items, i, pos, end, m + 1, mid, fuel);
    }
}

proof fn lemma_scan_star_finds(
    g: Seq<SpecRule>,
    nodes: Seq<SpecNode>,
    inner: SpecPattern,
    pos: int,
    end: int,
    m: int,
    mid: int,
    fuel: nat,
)
    requires
        pos < m <= mid <= end,
        ends(g, nodes, inner, pos, fuel).contains(mid),
        trace(g, nodes, inner, pos, mid, fuel) is Some,
        mid == end || scan_star(g, nodes, inner, mid, end, mid + 1, fuel) is Some,
    ensures
        scan_star(g, nodes, inner, pos, end, m, fuel) is Some,
    decreases mid - m,
{
    if m < mid {
        lemma_scan_star_finds(g, nodes, inner, pos, end, m + 1, mid, fuel);
    }
}

/// Every end of the pattern is traced, when each `+` repeats only consuming parts.
proof fn lemma_ends_traced(g: Seq<SpecRule>, nodes: Seq<SpecNode>, p: SpecPattern, pos: int, end: int, fuel: nat)
    requires
        0 <= pos <= nodes.len(),
        ends(g, nodes, p, pos, fuel).contains(end),
        plus_consumes(g, nodes, p, fuel),
    ensures
        trace(g, nodes, p, pos, end, fuel) is Some,
    decreases fuel, p, 0int, 0int,
{
    let n = nodes.len() as int;
    lemma_ends_bounds(g, nodes, p, pos, fuel);
    match p {
        SpecPattern::Token(_) => {},
        SpecPattern::Wildcard => {},
        SpecPattern::WildcardCapture(_) => {},
        SpecPattern::Sequence(items) => {
            assert(ends(g, nodes, p, pos, fuel) == seq_ends(g, nodes, items, 0, set![pos], fuel));
            assert(trace(g, nodes, p, pos, end, fuel) == trace_seq(g, nodes, items, 0, pos, end, fuel));
            lemma_seq_traced(g, nodes, items, 0, pos, end, fuel);
        },
        SpecPattern::Alternative(alts) => {
            assert(ends(g, nodes, p, pos, fuel) == alt_ends(g, nodes, alts, 0, pos, fuel));
            assert(trace(g, nodes, p, pos, end, fuel) == trace_alt(g, nodes, alts, 0, pos, end, fuel));
            lemma_alt_traced(g, nodes, alts, 0, pos, end, fuel);
        },
        SpecPattern::Optional(inner) => {
            if pos != end {
                lemma_ends_traced(g, nodes, *inner, pos, end, fuel);
            }
        },
        SpecPattern::ZeroOrMore(inner) => {
            assert(ends(g, nodes, p, pos, fuel) == star(g, nodes, *inner, set![pos], fuel));
            assert(star(g, nodes, *inner, set![pos], fuel) == star_k(g, nodes, *inner, set![pos], (n + 1) as nat, fuel));
            if pos != end {
                lemma_star_traced(g, nodes, *inner, pos, end, (n + 1) as nat, fuel);
            }
        },
        SpecPattern::OneOrMore(inner) => {
            let first = ends(g, nodes, *inner, pos, fuel);
            let k = (n + 1) as nat;
            assert(ends(g, nodes, p, pos, fuel) == star(g, nodes, *inner, first, fuel));
            assert(star(g, nodes, *inner, first, fuel) == star_k(g, nodes, *inner, first, k, fuel));
            lemma_ends_bounds(g, nodes, *inner, pos, fuel);
            assert(!first.contains(pos));
            assert forall|x: int| #[trigger] first.contains(x) implies pos + 1 <= x <= nodes.len() by {}
            lemma_star_k_bounds(g, nodes, *inner, first, pos + 1, k, fuel);
            lemma_star_k_first(g, nodes, *inner, first, k, end, fuel);
            let mid: int = if first.contains(end) {
                end
            } else {
                let (q, mid1) = choose|q: int, mid1: int|
                    first.contains(q) && q < mid1 && #[trigger] ends(g, nodes, *inner, q, fuel).contains(mid1) && #[trigger] star_k(
                        g,
                        nodes,
                        *inner,
                        set![mid1],
                        (k - 1) as nat,
                        fuel,
                    ).contains(end);
                lemma_ends_bounds(g, nodes, *inner, q, fuel);
                assert forall|x: int| #[trigger] set![mid1].contains(x) implies mid1 <= x <= nodes.len() by {}
                lemma_star_k_bounds(g, nodes, *inner, set![mid1], mid1, (k - 1) as nat, fuel);
                q
            };
            assert(pos < mid <= end);
            assert(first.contains(mid));
            lemma_ends_traced(g, nodes, *inner, pos, mid, fuel);
            if mid < end {
                let (q, mid1) = choose|q: int, mid1: int|
                    first.contains(q) && q < mid1 && #[trigger] ends(g, nodes, *inner, q, fuel).contains(mid1) && #[trigger] star_k(
                        g,
                        nodes,
                        *inner,
                        set![mid1],
                        (k - 1) as nat,
                        fuel,
                    ).contains(end);
                assert(star_k(g, nodes, *inner, set![mid], 0, fuel).contains(mid));
                assert(succ(g, nodes, *inner, set![mid], fuel).contains(mid1));
                assert(set![mid1].subset_of(star_k(g, nodes, *inner, set![mid], 1, fuel)));
                lemma_star_k_compose(g, nodes, *inner, set![mid1], set![mid], (k - 1) as nat, fuel);
                lemma_star_traced(g, nodes, *inner, mid, end, k, fuel);
            }
            lemma_scan_star_finds(g, nodes, *inner, pos, end, pos + 1, mid, fuel);
        },
        SpecPattern::RuleRef(name) => {
            if fuel > 0 && first_rule(g, name) is Some && 0 <= first_rule(g, name)->0 < g.len() {
                let i = first_rule(g, name)->0;
                assert(trace(g, nodes, p, pos, end, fuel) == trace(g, nodes, g[i].pattern, pos, end, (fuel - 1) as nat));
                assert(ends(g, nodes, p, pos, fuel) == ends(g, nodes, g[i].pattern, pos, (fuel - 1) as nat));
                lemma_ends_traced(g, nodes, g[i].pattern, pos, end, (fuel - 1) as nat);
            }
        },
    }
}

proof fn lemma_alt_traced(
    g: Seq<SpecRule>,
    nodes: Seq<SpecNode>,
    alts: Seq<SpecPattern>,
    i: int,
    pos: int,
    end: int,
    fuel: nat,
)
    requires
        0 <= pos <= nodes.len(),
        0 <= i,
        alt_ends(g, nodes, alts, i, pos, fuel).contains(end),
        all_plus_consume(g, nodes, alts, i, fuel),
    ensures
        trace_alt(g, nodes, alts, i, pos, end, fuel) is Some,
    decreases fuel, alts, alts.len() - i, 0int,
{
    if 0 <= i < alts.len() {
        assert(alt_ends(g, nodes, alts, i, pos, fuel) == ends(g, nodes, alts[i], pos, fuel).union(
            alt_ends(g, nodes, alts, i + 1, pos, fuel),
        ));
        if ends(g, nodes, alts[i], pos, fuel).contains(end) {
            lemma_ends_traced(g, nodes, alts[i], pos, end, fuel);
        } else {
            lemma_alt_traced(g, nodes, alts, i + 1, pos, end, fuel);
        }
    }
}

proof fn lemma_seq_traced(
    g: Seq<SpecRule>,
    nodes: Seq<SpecNode>,
    items: Seq<SpecPattern>,
    i: int,
    pos: int,
    end: int,
    fuel: nat,
)
    requires
        0 <= pos <= nodes.len(),
        0 <= i,
        seq_ends(g, nodes, items, i, set![pos], fuel).contains(end),
        all_plus_consume(g, nodes, items, i, fuel),
    ensures
        trace_seq(g, nodes, items, i, pos, end, fuel) is Some,
    decreases fuel, items, items.len() - i, 0int,
{
    if i < items.len() {
        let nf = seq_step(g, nodes, items[i], set![pos], fuel);
        assert(seq_ends(g, nodes, items, i, set![pos], fuel) == seq_ends(g, nodes, items, i + 1, nf, fuel));
        lemma_seq_ends_split(g, nodes, items, i + 1, nf, end, fuel);
        let mid = choose|mid: int| nf.contains(mid) && #[trigger] seq_ends(g, nodes, items, i + 1, set![mid], fuel).contains(end);
        assert(ends(g, nodes, items[i], pos, fuel).contains(mid));
        lemma_ends_bounds(g, nodes, items[i], pos, fuel);
        lemma_seq_ends_bounds(g, nodes, items, i + 1, set![mid], mid, fuel);
        lemma_ends_traced(g, nodes, items[i], pos, mid, fuel);
        lemma_seq_traced(g, nodes, items, i + 1, mid, end, fuel);
        lemma_scan_seq_finds(g, nodes, items, i, pos, end, pos, mid, fuel);
        lemma_seq_ends_bounds(g, nodes, items, i, set![pos], pos, fuel);
    }
}

/// A repetition from `pos` that reaches `end > pos` in `k` rounds is traced.
proof fn lemma_star_traced(g: Seq<SpecRule>, nodes: Seq<SpecNode>, inner: SpecPattern, pos: int, end: int, k: nat, fuel: nat)
    requires
        0 <= pos < end,
        pos <= nodes.len(),
        star_k(g, nodes, inner, set![pos], k, fuel).contains(end),
        plus_consumes(g, nodes, inner, fuel),
    ensures
        scan_star(g, nodes, inner, pos, end, pos + 1, fuel) is Some,
    decreases fuel, inner, 1int, end - pos,
{
    lemma_star_k_first(g, nodes, inner, set![pos], k, end, fuel);
    let (q, mid) = choose|q: int, mid: int|
        set![pos].contains(q) && q < mid && #[trigger] ends(g, nodes, inner, q, fuel).contains(mid) && #[trigger] star_k(
            g,
            nodes,
            inner,
            set![mid],
            (k - 1) as nat,
            fuel,
        ).contains(end);
    assert(q == pos);
    lemma_ends_bounds(g, nodes, inner, pos, fuel);
    assert forall|x: int| #[trigger] set![mid].contains(x) implies mid <= x <= nodes.len() by {}
    lemma_star_k_bounds(g, nodes, inner, set![mid], mid, (k - 1) as nat, fuel);
    lemma_ends_traced(g, nodes, inner, pos, mid, fuel);
    if mid < end {
        lemma_star_traced(g, nodes, inner, mid, end, (k - 1) as nat, fuel);
    }
    lemma_scan_star_finds(g, nodes, inner, pos, end, pos + 1, mid, fuel);
}


// ── Ends reached by consuming repetitions ─────────────────────────────────

/// The ends of `p` from `pos` along derivations in which every repeat of a `+` or `*`
/// consumes at least one token (the first repeat of a `+` included), each part counted by
/// these ends too. They differ from `ends` only where a `+` would have to repeat a part that
/// matches nothing.
pub open spec fn cends(g: Seq<SpecRule>, nodes: Seq<SpecNode>, p: SpecPattern, pos: int, fuel: nat) -> Set<int>
    decreases fuel, p, 0nat, 0nat,
{
    match p {
        SpecPattern::Sequence(items) => cseq_ends(g, nodes, items, 0, set![pos], fuel),
        SpecPattern::Alternative(alts) => calt_ends(g, nodes, alts, 0, pos, fuel),
        SpecPattern::Optional(inner) => set![pos].union(cends(g, nodes, *inner, pos, fuel)),
        SpecPattern::ZeroOrMore(inner) => cstar_k(g, nodes, *inner, set![pos], nodes.len() + 1, fuel),
        SpecPattern::OneOrMore(inner) => cstar_k(
            g,
            nodes,
            *inner,
            csucc(g, nodes, *inner, set![pos], fuel),
            nodes.len() + 1,
            fuel,
        ),
        SpecPattern::RuleRef(name) => if fuel == 0 {
            Set::empty()
        } else {
            match first_rule(g, name) {
                Some(i) => if 0 <= i < g.len() {
                    cends(g, nodes, g[i].pattern, pos, (fuel - 1) as nat)
                } else {
                    Set::empty()
                },
                None => Set::empty(),
            }
        },
        _ => ends(g, nodes, p, pos, fuel),
    }
}

/// `cends` of `items[i..]` matched in turn from any position in `from`.
pub open spec fn cseq_ends(
    g: Seq<SpecRule>,
    nodes: Seq<SpecNode>,
    items: Seq<SpecPattern>,
    i: int,
    from: Set<int>,
    fuel: nat,
) -> Set<int>
    decreases fuel, items, items.len() - i, 0nat,
{
    if 0 <= i < items.len() {
        cseq_ends(g, nodes, items, i + 1, cseq_step(g, nodes, items[i], from, fuel), fuel)
    } else {
        from
    }
}

/// `cends` of one match of `item` from any position in `from`.
pub open spec fn cseq_step(g: Seq<SpecRule>, nodes: Seq<SpecNode>, item: SpecPattern, from: Set<int>, fuel: nat) -> Set<int>
    decreases fuel, item, 1nat, 0nat,
{
    Set::new(|e: int| exists|q: int| from.contains(q) && cends(g, nodes, item, q, fuel).contains(e))
}

/// `cends` of any of `alts[i..]` from `pos`.
pub open spec fn calt_ends(
    g: Seq<SpecRule>,
    nodes: Seq<SpecNode>,
    alts: Seq<SpecPattern>,
    i: int,
    pos: int,
    fuel: nat,
) -> Set<int>
    decreases fuel, alts, alts.len() - i, 0nat,
{
    if 0 <= i < alts.len() {
        cends(g, nodes, alts[i], pos, fuel).union(calt_ends(g, nodes, alts, i + 1, pos, fuel))
    } else {
        Set::empty()
    }
}

/// Positions reached from `from` by at most `k` consuming matches of `inner` (by `cends`).
pub open spec fn cstar_k(
    g: Seq<SpecRule>,
    nodes: Seq<SpecNode>,
    inner: SpecPattern,
    from: Set<int>,
    k: nat,
    fuel: nat,
) -> Set<int>
    decreases fuel, inner, 2nat, k,
{
    if k == 0 {
        from
    } else {
        let prev = cstar_k(g, nodes, inner, from, (k - 1) as nat, fuel);
        prev.union(csucc(g, nodes, inner, prev, fuel))
    }
}

/// Positions reached from `from` by one consuming match of `inner` (by `cends`).
pub open spec fn csucc(g: Seq<SpecRule>, nodes: Seq<SpecNode>, inner: SpecPattern, from: Set<int>, fuel: nat) -> Set<int>
    decreases fuel, inner, 1nat, 0nat,
{
    Set::new(|e: int| exists|q: int| from.contains(q) && q < e && cends(g, nodes, inner, q, fuel).contains(e))
}

proof fn lemma_cstar_k_more_rounds(
    g: Seq<SpecRule>,
    nodes: Seq<SpecNode>,
    inner: SpecPattern,
    from: Set<int>,
    k: nat,
    k2: nat,
    fuel: nat,
)
    requires
        k <= k2,
    ensures
        cstar_k(g, nodes, inner, from, k, fuel).subset_of(cstar_k(g, nodes, inner, from, k2, fuel)),
    decreases k2,
{
    if k < k2 {
        lemma_cstar_k_more_rounds(g, nodes, inner, from, k, (k2 - 1) as nat, fuel);
    }
}

proof fn lemma_cstar_k_larger_from(
    g: Seq<SpecRule>,
    nodes: Seq<SpecNode>,
    inner: SpecPattern,
    a: Set<int>,
    b: Set<int>,
    k: nat,
    fuel: nat,
)
    requires
        a.subset_of(b),
    ensures
        cstar_k(g, nodes, inner, a, k, fuel).subset_of(cstar_k(g, nodes, inner, b, k, fuel)),
    decreases k,
{
    if k > 0 {
        lemma_cstar_k_larger_from(g, nodes, inner, a, b, (k - 1) as nat, fuel);
        let pa = cstar_k(g, nodes, inner, a, (k - 1) as nat, fuel);
        let pb = cstar_k(g, nodes, inner, b, (k - 1) as nat, fuel);
        assert(cstar_k(g, nodes, inner, a, k, fuel) == pa.union(csucc(g, nodes, inner, pa, fuel)));
        assert(cstar_k(g, nodes, inner, b, k, fuel) == pb.union(csucc(g, nodes, inner, pb, fuel)));
        assert forall|e: int| csucc(g, nodes, inner, pa, fuel).contains(e) implies csucc(g, nodes, inner, pb, fuel).contains(e) by {
            let q = choose|q: int| pa.contains(q) && q < e && cends(g, nodes, inner, q, fuel).contains(e);
            assert(pb.contains(q));
        }
    }
}

proof fn lemma_cstar_k_compose(
    g: Seq<SpecRule>,
    nodes: Seq<SpecNode>,
    inner: SpecPattern,
    a: Set<int>,
    b: Set<int>,
    m: nat,
    fuel: nat,
)
    requires
        a.subset_of(cstar_k(g, nodes, inner, b, 1, fuel)),
    ensures
        cstar_k(g, nodes, inner, a, m, fuel).subset_of(cstar_k(g, nodes, inner, b, m + 1, fuel)),
    decreases m,
{
    if m > 0 {
        lemma_cstar_k_compose(g, nodes, inner, a, b, (m - 1) as nat, fuel);
        let pa = cstar_k(g, nodes, inner, a, (m - 1) as nat, fuel);
        let pb = cstar_k(g, nodes, inner, b, m, fuel);
        assert(cstar_k(g, nodes, inner, a, m, fuel) == pa.union(csucc(g, nodes, inner, pa, fuel)));
        assert(cstar_k(g, nodes, inner, b, m + 1, fuel) == pb.union(csucc(g, nodes, inner, pb, fuel)));
        assert forall|e: int| csucc(g, nodes, inner, pa, fuel).contains(e) implies csucc(g, nodes, inner, pb, fuel).contains(e) by {
            let q = choose|q: int| pa.contains(q) && q < e && cends(g, nodes, inner, q, fuel).contains(e);
            assert(pb.contains(q));
        }
    }
}

// ── cends ⊆ ends ───────────────────────────────────────────────────────────

/// Every consuming end is an end.
proof fn lemma_cends_in_ends(g: Seq<SpecRule>, nodes: Seq<SpecNode>, p: SpecPattern, pos: int, fuel: nat)
    ensures
        cends(g, nodes, p, pos, fuel).subset_of(ends(g, nodes, p, pos, fuel)),
    decreases fuel, p, 0nat, 0nat,
{
    let n = nodes.len() as int;
    match p {
        SpecPattern::Sequence(items) => {
            assert(cends(g, nodes, p, pos, fuel) == cseq_ends(g, nodes, items, 0, set![pos], fuel));
            assert(ends(g, nodes, p, pos, fuel) == seq_ends(g, nodes, items, 0, set![pos], fuel));
            lemma_cseq_in_seq(g, nodes, items, 0, set![pos], set![pos], fuel);
        },
        SpecPattern::Alternative(alts) => {
            assert(cends(g, nodes, p, pos, fuel) == calt_ends(g, nodes, alts, 0, pos, fuel));
            assert(ends(g, nodes, p, pos, fuel) == alt_ends(g, nodes, alts, 0, pos, fuel));
            lemma_calt_in_alt(g, nodes, alts, 0, pos, fuel);
        },
        SpecPattern::Optional(inner) => {
            lemma_cends_in_ends(g, nodes, *inner, pos, fuel);
        },
        SpecPattern::ZeroOrMore(inner) => {
            assert(ends(g, nodes, p, pos, fuel) == star(g, nodes, *inner, set![pos], fuel));
            assert(star(g, nodes, *inner, set![pos], fuel) == star_k(g, nodes, *inner, set![pos], (n + 1) as nat, fuel));
            lemma_cstar_in_star(g, nodes, *inner, set![pos], set![pos], (n + 1) as nat, fuel);
        },
        SpecPattern::OneOrMore(inner) => {
            let first = ends(g, nodes, *inner, pos, fuel);
            let cfirst = csucc(g, nodes, *inner, set![pos], fuel);
            assert(ends(g, nodes, p, pos, fuel) == star(g, nodes, *inner, first, fuel));
            assert(star(g, nodes, *inner, first, fuel) == star_k(g, nodes, *inner, first, (n + 1) as nat, fuel));
            lemma_cends_in_ends(g, nodes, *inner, pos, fuel);
            assert forall|x: int| cfirst.contains(x) implies first.contains(x) by {
                let q = choose|q: int| set![pos].contains(q) && q < x && cends(g, nodes, *inner, q, fuel).contains(x);
                assert(q == pos);
            }
            lemma_cstar_in_star(g, nodes, *inner, cfirst, first, (n + 1) as nat, fuel);
        },
        SpecPattern::RuleRef(name) => {
            if fuel > 0 && first_rule(g, name) is Some && 0 <= first_rule(g, name)->0 < g.len() {
                let i = first_rule(g, name)->0;
                assert(cends(g, nodes, p, pos, fuel) == cends(g, nodes, g[i].pattern, pos, (fuel - 1) as nat));
                assert(ends(g, nodes, p, pos, fuel) == ends(g, nodes, g[i].pattern, pos, (fuel - 1) as nat));
                lemma_cends_in_ends(g, nodes, g[i].pattern, pos, (fuel - 1) as nat);
            } else {
                assert(cends(g, nodes, p, pos, fuel) =~= Set::<int>::empty());
            }
        },
        _ => {},
    }
}

proof fn lemma_cseq_in_seq(
    g: Seq<SpecRule>,
    nodes: Seq<SpecNode>,
    items: Seq<SpecPattern>,
    i: int,
    a: Set<int>,
    b: Set<int>,
    fuel: nat,
)
    requires
        a.subset_of(b),
    ensures
        cseq_ends(g, nodes, items, i, a, fuel).subset_of(seq_ends(g, nodes, items, i, b, fuel)),
    decreases fuel, items, items.len() - i, 0nat,
{
    if 0 <= i < items.len() {
        let sa = cseq_step(g, nodes, items[i], a, fuel);
        let sb = seq_step(g, nodes, items[i], b, fuel);
        assert forall|x: int| sa.contains(x) implies sb.contains(x) by {
            let q = choose|q: int| a.contains(q) && cends(g, nodes, items[i], q, fuel).contains(x);
            lemma_cends_in_ends(g, nodes, items[i], q, fuel);
            assert(b.contains(q));
        }
        lemma_cseq_in_seq(g, nodes, items, i + 1, sa, sb, fuel);
        assert(cseq_ends(g, nodes, items, i, a, fuel) == cseq_ends(g, nodes, items, i + 1, sa, fuel));
        assert(seq_ends(g, nodes, items, i, b, fuel) == seq_ends(g, nodes, items, i + 1, sb, fuel));
    }
}

proof fn lemma_calt_in_alt(g: Seq<SpecRule>, nodes: Seq<SpecNode>, alts: Seq<SpecPattern>, i: int, pos: int, fuel: nat)
    ensures
        calt_ends(g, nodes, alts, i, pos, fuel).subset_of(alt_ends(g, nodes, alts, i, pos, fuel)),
    decreases fuel, alts, alts.len() - i, 0nat,
{
    if 0 <= i < alts.len() {
        lemma_cends_in_ends(g, nodes, alts[i], pos, fuel);
        lemma_calt_in_alt(g, nodes, alts, i + 1, pos, fuel);
        assert(calt_ends(g, nodes, alts, i, pos, fuel) == cends(g, nodes, alts[i], pos, fuel).union(
            calt_ends(g, nodes, alts, i + 1, pos, fuel),
        ));
        assert(alt_ends(g, nodes, alts, i, pos, fuel) == ends(g, nodes, alts[i], pos, fuel).union(
            alt_ends(g, nodes, alts, i + 1, pos, fuel),
        ));
    } else {
        assert(calt_ends(g, nodes, alts, i, pos, fuel) =~= Set::<int>::empty());
    }
}

proof fn lemma_cstar_in_star(
    g: Seq<SpecRule>,
    nodes: Seq<SpecNode>,
    inner: SpecPattern,
    a: Set<int>,
    b: Set<int>,
    k: nat,
    fuel: nat,
)
    requires
        a.subset_of(b),
    ensures
        cstar_k(g, nodes, inner, a, k, fuel).subset_of(star_k(g, nodes, inner, b, k, fuel)),
    decreases fuel, inner, 2nat, k,
{
    if k > 0 {
        lemma_cstar_in_star(g, nodes, inner, a, b, (k - 1) as nat, fuel);
        let pa = cstar_k(g, nodes, inner, a, (k - 1) as nat, fuel);
        let pb = star_k(g, nodes, inner, b, (k - 1) as nat, fuel);
        assert(cstar_k(g, nodes, inner, a, k, fuel) == pa.union(csucc(g, nodes, inner, pa, fuel)));
        assert(star_k(g, nodes, inner, b, k, fuel) == pb.union(succ(g, nodes, inner, pb, fuel)));
        assert forall|e: int| csucc(g, nodes, inner, pa, fuel).contains(e) implies succ(g, nodes, inner, pb, fuel).contains(e) by {
            let q = choose|q: int| pa.contains(q) && q < e && cends(g, nodes, inner, q, fuel).contains(e);
            lemma_cends_in_ends(g, nodes, inner, q, fuel);
            assert(pb.contains(q));
        }
    }
}

// ── trace ⟹ cends ─────────────────────────────────────────────────────────

/// When `trace` finds fixed positions for `nodes[pos..end]`, `end` is a consuming end.
proof fn lemma_trace_in_cends(g: Seq<SpecRule>, nodes: Seq<SpecNode>, p: SpecPattern, pos: int, end: int, fuel: nat)
    requires
        0 <= pos,
        end <= nodes.len(),
        trace(g, nodes, p, pos, end, fuel) is Some,
    ensures
        cends(g, nodes, p, pos, fuel).contains(end),
    decreases fuel, p, 0int, 0int,
{
    let n = nodes.len() as int;
    match p {
        SpecPattern::Token(_) => {},
        SpecPattern::Wildcard => {},
        SpecPattern::WildcardCapture(_) => {},
        SpecPattern::Sequence(items) => {
            assert(trace(g, nodes, p, pos, end, fuel) == trace_seq(g, nodes, items, 0, pos, end, fuel));
            assert(cends(g, nodes, p, pos, fuel) == cseq_ends(g, nodes, items, 0, set![pos], fuel));
            lemma_trace_seq_in_cends(g, nodes, items, 0, pos, end, set![pos], fuel);
        },
        SpecPattern::Alternative(alts) => {
            assert(trace(g, nodes, p, pos, end, fuel) == trace_alt(g, nodes, alts, 0, pos, end, fuel));
            assert(cends(g, nodes, p, pos, fuel) == calt_ends(g, nodes, alts, 0, pos, fuel));
            lemma_trace_alt_in_cends(g, nodes, alts, 0, pos, end, fuel);
        },
        SpecPattern::Optional(inner) => {
            if pos != end {
                lemma_trace_in_cends(g, nodes, *inner, pos, end, fuel);
            }
        },
        SpecPattern::ZeroOrMore(inner) => {
            let k = (n + 1) as nat;
            assert(cends(g, nodes, p, pos, fuel) == cstar_k(g, nodes, *inner, set![pos], k, fuel));
            if pos == end {
                assert(cstar_k(g, nodes, *inner, set![pos], 0, fuel).contains(pos));
                lemma_cstar_k_more_rounds(g, nodes, *inner, set![pos], 0, k, fuel);
            } else {
                lemma_scan_star_in_cends(g, nodes, *inner, pos, end, pos + 1, fuel);
                let mid = choose|mid: int|
                    pos < mid <= end && cends(g, nodes, *inner, pos, fuel).contains(mid) && #[trigger] cstar_k(
                        g,
                        nodes,
                        *inner,
                        set![mid],
                        (end - mid) as nat,
                        fuel,
                    ).contains(end);
                assert(cstar_k(g, nodes, *inner, set![pos], 0, fuel).contains(pos));
                assert(csucc(g, nodes, *inner, set![pos], fuel).contains(mid));
                assert(set![mid].subset_of(cstar_k(g, nodes, *inner, set![pos], 1, fuel)));
                lemma_cstar_k_compose(g, nodes, *inner, set![mid], set![pos], (end - mid) as nat, fuel);
                lemma_cstar_k_more_rounds(g, nodes, *inner, set![pos], (end - mid + 1) as nat, k, fuel);
            }
        },
        SpecPattern::OneOrMore(inner) => {
            let k = (n + 1) as nat;
            let cfirst = csucc(g, nodes, *inner, set![pos], fuel);
            assert(cends(g, nodes, p, pos, fuel) == cstar_k(g, nodes, *inner, cfirst, k, fuel));
            assert(trace(g, nodes, p, pos, end, fuel) == scan_star(g, nodes, *inner, pos, end, pos + 1, fuel));
            lemma_scan_star_in_cends(g, nodes, *inner, pos, end, pos + 1, fuel);
            let mid = choose|mid: int|
                pos < mid <= end && cends(g, nodes, *inner, pos, fuel).contains(mid) && #[trigger] cstar_k(
                    g,
                    nodes,
                    *inner,
                    set![mid],
                    (end - mid) as nat,
                    fuel,
                ).contains(end);
            assert(set![pos].contains(pos));
            assert(cfirst.contains(mid));
            assert(set![mid].subset_of(cfirst));
            lemma_cstar_k_larger_from(g, nodes, *inner, set![mid], cfirst, (end - mid) as nat, fuel);
            lemma_cstar_k_more_rounds(g, nodes, *inner, cfirst, (end - mid) as nat, k, fuel);
        },
        SpecPattern::RuleRef(name) => {
            if fuel > 0 && first_rule(g, name) is Some && 0 <= first_rule(g, name)->0 < g.len() {
                let i = first_rule(g, name)->0;
                assert(trace(g, nodes, p, pos, end, fuel) == trace(g, nodes, g[i].pattern, pos, end, (fuel - 1) as nat));
                assert(cends(g, nodes, p, pos, fuel) == cends(g, nodes, g[i].pattern, pos, (fuel - 1) as nat));
                lemma_trace_in_cends(g, nodes, g[i].pattern, pos, end, (fuel - 1) as nat);
            }
        },
    }
}

proof fn lemma_trace_alt_in_cends(
    g: Seq<SpecRule>,
    nodes: Seq<SpecNode>,
    alts: Seq<SpecPattern>,
    i: int,
    pos: int,
    end: int,
    fuel: nat,
)
    requires
        0 <= pos,
        end <= nodes.len(),
        0 <= i,
        trace_alt(g, nodes, alts, i, pos, end, fuel) is Some,
    ensures
        calt_ends(g, nodes, alts, i, pos, fuel).contains(end),
    decreases fuel, alts, alts.len() - i, 0int,
{
    if 0 <= i < alts.len() {
        assert(calt_ends(g, nodes, alts, i, pos, fuel) == cends(g, nodes, alts[i], pos, fuel).union(
            calt_ends(g, nodes, alts, i + 1, pos, fuel),
        ));
        if trace(g, nodes, alts[i], pos, end, fuel) is Some {
            lemma_trace_in_cends(g, nodes, alts[i], pos, end, fuel);
        } else {
            lemma_trace_alt_in_cends(g, nodes, alts, i + 1, pos, end, fuel);
        }
    }
}

proof fn lemma_trace_seq_in_cends(
    g: Seq<SpecRule>,
    nodes: Seq<SpecNode>,
    items: Seq<SpecPattern>,
    i: int,
    pos: int,
    end: int,
    from: Set<int>,
    fuel: nat,
)
    requires
        0 <= pos,
        end <= nodes.len(),
        from.contains(pos),
        trace_seq(g, nodes, items, i, pos, end, fuel) is Some,
    ensures
        cseq_ends(g, nodes, items, i, from, fuel).contains(end),
    decreases fuel, items, items.len() - i, end - pos + 2,
{
    if 0 <= i < items.len() {
        assert(pos <= end);
        lemma_scan_seq_in_cends(g, nodes, items, i, pos, end, pos, from, fuel);
    }
}

proof fn lemma_scan_seq_in_cends(
    g: Seq<SpecRule>,
    nodes: Seq<SpecNode>,
    items: Seq<SpecPattern>,
    i: int,
    pos: int,
    end: int,
    mid: int,
    from: Set<int>,
    fuel: nat,
)
    requires
        0 <= i < items.len(),
        0 <= pos,
        end <= nodes.len(),
        from.contains(pos),
        scan_seq(g, nodes, items, i, pos, end, mid, fuel) is Some,
    ensures
        cseq_ends(g, nodes, items, i, from, fuel).contains(end),
    decreases fuel, items, items.len() - i, end + 1 - mid,
{
    let nf = cseq_step(g, nodes, items[i], from, fuel);
    assert(cseq_ends(g, nodes, items, i, from, fuel) == cseq_ends(g, nodes, items, i + 1, nf, fuel));
    assert(pos <= mid <= end);
    if ends(g, nodes, items[i], pos, fuel).contains(mid) && trace(g, nodes, items[i], pos, mid, fuel) is Some
        && trace_seq(g, nodes, items, i + 1, mid, end, fuel) is Some {
        lemma_trace_in_cends(g, nodes, items[i], pos, mid, fuel);
        assert(nf.contains(mid));
        lemma_trace_seq_in_cends(g, nodes, items, i + 1, mid, end, nf, fuel);
    } else {
        lemma_scan_seq_in_cends(g, nodes, items, i, pos, end, mid + 1, from, fuel);
    }
}

/// A repetition traced over `nodes[pos..end]` starts with a consuming match of `inner` ending
/// at some `mid`, from which at most `end - mid` more reach `end`.
proof fn lemma_scan_star_in_cends(
    g: Seq<SpecRule>,
    nodes: Seq<SpecNode>,
    inner: SpecPattern,
    pos: int,
    end: int,
    m: int,
    fuel: nat,
)
    requires
        0 <= pos,
        end <= nodes.len(),
        scan_star(g, nodes, inner, pos, end, m, fuel) is Some,
    ensures
        exists|mid: int|
            pos < mid <= end && cends(g, nodes, inner, pos, fuel).contains(mid) && #[trigger] cstar_k(
                g,
                nodes,
                inner,
                set![mid],
                (end - mid) as nat,
                fuel,
            ).contains(end),
    decreases fuel, inner, end - pos, end + 1 - m,
{
    assert(pos < m <= end);
    if ends(g, nodes, inner, pos, fuel).contains(m) && trace(g, nodes, inner, pos, m, fuel) is Some && (m == end
        || scan_star(g, nodes, inner, m, end, m + 1, fuel) is Some) {
        lemma_trace_in_cends(g, nodes, inner, pos, m, fuel);
        if m == end {
            assert(cstar_k(g, nodes, inner, set![m], 0, fuel).contains(end));
            assert(cstar_k(g, nodes, inner, set![m], (end - m) as nat, fuel).contains(end));
        } else {
            lemma_scan_star_in_cends(g, nodes, inner, m, end, m + 1, fuel);
            let mid2 = choose|mid2: int|
                m < mid2 <= end && cends(g, nodes, inner, m, fuel).contains(mid2) && #[trigger] cstar_k(
                    g,
                    nodes,
                    inner,
                    set![mid2],
                    (end - mid2) as nat,
                    fuel,
                ).contains(end);
            assert(cstar_k(g, nodes, inner, set![m], 0, fuel).contains(m));
            assert(csucc(g, nodes, inner, set![m], fuel).contains(mid2));
            assert(set![mid2].subset_of(cstar_k(g, nodes, inner, set![m], 1, fuel)));
            lemma_cstar_k_compose(g, nodes, inner, set![mid2], set![m], (end - mid2) as nat, fuel);
            lemma_cstar_k_more_rounds(g, nodes, inner, set![m], (end - mid2 + 1) as nat, (end - m) as nat, fuel);
            assert(cstar_k(g, nodes, inner, set![m], (end - m) as nat, fuel).contains(end));
        }
    } else {
        lemma_scan_star_in_cends(g, nodes, inner, pos, end, m + 1, fuel);
    }
}

// ── cends ⟹ trace ─────────────────────────────────────────────────────────

proof fn lemma_cends_bounds(g: Seq<SpecRule>, nodes: Seq<SpecNode>, p: SpecPattern, pos: int, fuel: nat)
    requires
        0 <= pos <= nodes.len(),
    ensures
        forall|e: int| #[trigger] cends(g, nodes, p, pos, fuel).contains(e) ==> pos <= e <= nodes.len(),
{
    lemma_cends_in_ends(g, nodes, p, pos, fuel);
    lemma_ends_bounds(g, nodes, p, pos, fuel);
}

proof fn lemma_cstar_k_bounds(
    g: Seq<SpecRule>,
    nodes: Seq<SpecNode>,
    inner: SpecPattern,
    from: Set<int>,
    lo: int,
    k: nat,
    fuel: nat,
)
    requires
        0 <= lo,
        forall|x: int| #[trigger] from.contains(x) ==> lo <= x <= nodes.len(),
    ensures
        forall|e: int| #[trigger] cstar_k(g, nodes, inner, from, k, fuel).contains(e) ==> lo <= e <= nodes.len(),
{
    lemma_cstar_in_star(g, nodes, inner, from, from, k, fuel);
    lemma_star_k_bounds(g, nodes, inner, from, lo, k, fuel);
}

proof fn lemma_cseq_larger_from(
    g: Seq<SpecRule>,
    nodes: Seq<SpecNode>,
    items: Seq<SpecPattern>,
    i: int,
    a: Set<int>,
    b: Set<int>,
    fuel: nat,
)
    requires
        a.subset_of(b),
    ensures
        cseq_ends(g, nodes, items, i, a, fuel).subset_of(cseq_ends(g, nodes, items, i, b, fuel)),
    decreases items.len() - i,
{
    if 0 <= i < items.len() {
        let sa = cseq_step(g, nodes, items[i], a, fuel);
        let sb = cseq_step(g, nodes, items[i], b, fuel);
        assert forall|x: int| sa.contains(x) implies sb.contains(x) by {
            let q = choose|q: int| a.contains(q) && cends(g, nodes, items[i], q, fuel).contains(x);
            assert(b.contains(q));
        }
        lemma_cseq_larger_from(g, nodes, items, i + 1, sa, sb, fuel);
        assert(cseq_ends(g, nodes, items, i, a, fuel) == cseq_ends(g, nodes, items, i + 1, sa, fuel));
        assert(cseq_ends(g, nodes, items, i, b, fuel) == cseq_ends(g, nodes, items, i + 1, sb, fuel));
    }
}

/// A consuming end of `items[i..]` from a set of starts is one from one of them.
proof fn lemma_cseq_split(
    g: Seq<SpecRule>,
    nodes: Seq<SpecNode>,
    items: Seq<SpecPattern>,
    i: int,
    from: Set<int>,
    e: int,
    fuel: nat,
)
    requires
        cseq_ends(g, nodes, items, i, from, fuel).contains(e),
    ensures
        exists|q: int| from.contains(q) && #[trigger] cseq_ends(g, nodes, items, i, set![q], fuel).contains(e),
    decreases items.len() - i,
{
    if 0 <= i < items.len() {
        let nf = cseq_step(g, nodes, items[i], from, fuel);
        assert(cseq_ends(g, nodes, items, i, from, fuel) == cseq_ends(g, nodes, items, i + 1, nf, fuel));
        lemma_cseq_split(g, nodes, items, i + 1, nf, e, fuel);
        let q1 = choose|q1: int| nf.contains(q1) && #[trigger] cseq_ends(g, nodes, items, i + 1, set![q1], fuel).contains(e);
        let q = choose|q: int| from.contains(q) && cends(g, nodes, items[i], q, fuel).contains(q1);
        let sq = cseq_step(g, nodes, items[i], set![q], fuel);
        assert(set![q].contains(q));
        assert(sq.contains(q1));
        assert(set![q1].subset_of(sq));
        lemma_cseq_larger_from(g, nodes, items, i + 1, set![q1], sq, fuel);
        assert(cseq_ends(g, nodes, items, i, set![q], fuel) == cseq_ends(g, nodes, items, i + 1, sq, fuel));
        assert(cseq_ends(g, nodes, items, i, set![q], fuel).contains(e));
    } else {
        assert(cseq_ends(g, nodes, items, i, set![e], fuel).contains(e));
    }
}

/// A position reached by consuming repetitions from `from` is in `from`, or is reached from
/// the end of a first consuming match.
proof fn lemma_cstar_k_first(
    g: Seq<SpecRule>,
    nodes: Seq<SpecNode>,
    inner: SpecPattern,
    from: Set<int>,
    k: nat,
    e: int,
    fuel: nat,
)
    requires
        cstar_k(g, nodes, inner, from, k, fuel).contains(e),
    ensures
        from.contains(e) || (k > 0 && exists|q: int, mid: int|
            from.contains(q) && q < mid && #[trigger] cends(g, nodes, inner, q, fuel).contains(mid) && #[trigger] cstar_k(
                g,
                nodes,
                inner,
                set![mid],
                (k - 1) as nat,
                fuel,
            ).contains(e)),
    decreases k,
{
    if k > 0 {
        let prev = cstar_k(g, nodes, inner, from, (k - 1) as nat, fuel);
        assert(cstar_k(g, nodes, inner, from, k, fuel) == prev.union(csucc(g, nodes, inner, prev, fuel)));
        if prev.contains(e) {
            lemma_cstar_k_first(g, nodes, inner, from, (k - 1) as nat, e, fuel);
            if !from.contains(e) {
                let (q, mid) = choose|q: int, mid: int|
                    from.contains(q) && q < mid && #[trigger] cends(g, nodes, inner, q, fuel).contains(mid) && #[trigger] cstar_k(
                        g,
                        nodes,
                        inner,
                        set![mid],
                        (k - 2) as nat,
                        fuel,
                    ).contains(e);
                lemma_cstar_k_more_rounds(g, nodes, inner, set![mid], (k - 2) as nat, (k - 1) as nat, fuel);
                assert(cstar_k(g, nodes, inner, set![mid], (k - 1) as nat, fuel).contains(e));
            }
        } else {
            let q1 = choose|q1: int| prev.contains(q1) && q1 < e && cends(g, nodes, inner, q1, fuel).contains(e);
            lemma_cstar_k_first(g, nodes, inner, from, (k - 1) as nat, q1, fuel);
            if from.contains(q1) {
                assert(cstar_k(g, nodes, inner, set![e], 0, fuel).contains(e));
                lemma_cstar_k_more_rounds(g, nodes, inner, set![e], 0, (k - 1) as nat, fuel);
                assert(cstar_k(g, nodes, inner, set![e], (k - 1) as nat, fuel).contains(e));
            } else {
                let (q, mid) = choose|q: int, mid: int|
                    from.contains(q) && q < mid && #[trigger] cends(g, nodes, inner, q, fuel).contains(mid) && #[trigger] cstar_k(
                        g,
                        nodes,
                        inner,
                        set![mid],
                        (k - 2) as nat,
                        fuel,
                    ).contains(q1);
                let pm = cstar_k(g, nodes, inner, set![mid], (k - 2) as nat, fuel);
                assert(csucc(g, nodes, inner, pm, fuel).contains(e));
                assert(cstar_k(g, nodes, inner, set![mid], (k - 1) as nat, fuel) == pm.union(csucc(g, nodes, inner, pm, fuel)));
                assert(cstar_k(g, nodes, inner, set![mid], (k - 1) as nat, fuel).contains(e));
            }
        }
    }
}

/// Every consuming end of the pattern is traced.
proof fn lemma_cends_traced(g: Seq<SpecRule>, nodes: Seq<SpecNode>, p: SpecPattern, pos: int, end: int, fuel: nat)
    requires
        0 <= pos <= nodes.len(),
        cends(g, nodes, p, pos, fuel).contains(end),
    ensures
        trace(g, nodes, p, pos, end, fuel) is Some,
    decreases fuel, p, 0int, 0int,
{
    let n = nodes.len() as int;
    lemma_cends_bounds(g, nodes, p, pos, fuel);
    match p {
        SpecPattern::Token(_) => {},
        SpecPattern::Wildcard => {},
        SpecPattern::WildcardCapture(_) => {},
        SpecPattern::Sequence(items) => {
            assert(cends(g, nodes, p, pos, fuel) == cseq_ends(g, nodes, items, 0, set![pos], fuel));
            assert(trace(g, nodes, p, pos, end, fuel) == trace_seq(g, nodes, items, 0, pos, end, fuel));
            lemma_cseq_traced(g, nodes, items, 0, pos, end, fuel);
        },
        SpecPattern::Alternative(alts) => {
            assert(cends(g, nodes, p, pos, fuel) == calt_ends(g, nodes, alts, 0, pos, fuel));
            assert(trace(g, nodes, p, pos, end, fuel) == trace_alt(g, nodes, alts, 0, pos, end, fuel));
            lemma_calt_traced(g, nodes, alts, 0, pos, end, fuel);
        },
        SpecPattern::Optional(inner) => {
            if pos != end {
                lemma_cends_traced(g, nodes, *inner, pos, end, fuel);
            }
        },
        SpecPattern::ZeroOrMore(inner) => {
            assert(cends(g, nodes, p, pos, fuel) == cstar_k(g, nodes, *inner, set![pos], (n + 1) as nat, fuel));
            if pos != end {
                lemma_cstar_traced(g, nodes, *inner, pos, end, (n + 1) as nat, fuel);
            }
        },
        SpecPattern::OneOrMore(inner) => {
            let k = (n + 1) as nat;
            let cfirst = csucc(g, nodes, *inner, set![pos], fuel);
            assert(cends(g, nodes, p, pos, fuel) == cstar_k(g, nodes, *inner, cfirst, k, fuel));
            assert(trace(g, nodes, p, pos, end, fuel) == scan_star(g, nodes, *inner, pos, end, pos + 1, fuel));
            lemma_cends_bounds(g, nodes, *inner, pos, fuel);
            assert forall|x: int| #[trigger] cfirst.contains(x) implies pos + 1 <= x <= nodes.len() by {
                let q = choose|q: int| set![pos].contains(q) && q < x && cends(g, nodes, *inner, q, fuel).contains(x);
                assert(q == pos);
            }
            lemma_cstar_k_first(g, nodes, *inner, cfirst, k, end, fuel);
            let mid: int = if cfirst.contains(end) {
                end
            } else {
                let (q, mid1) = choose|q: int, mid1: int|
                    cfirst.contains(q) && q < mid1 && #[trigger] cends(g, nodes, *inner, q, fuel).contains(mid1) && #[trigger] cstar_k(
                        g,
                        nodes,
                        *inner,
                        set![mid1],
                        (k - 1) as nat,
                        fuel,
                    ).contains(end);
                lemma_cends_bounds(g, nodes, *inner, q, fuel);
                assert forall|x: int| #[trigger] set![mid1].contains(x) implies mid1 <= x <= nodes.len() by {}
                lemma_cstar_k_bounds(g, nodes, *inner, set![mid1], mid1, (k - 1) as nat, fuel);
                q
            };
            assert(pos < mid <= end);
            assert(cfirst.contains(mid));
            let q0 = choose|q0: int| set![pos].contains(q0) && q0 < mid && cends(g, nodes, *inner, q0, fuel).contains(mid);
            assert(q0 == pos);
            lemma_cends_traced(g, nodes, *inner, pos, mid, fuel);
            lemma_cends_in_ends(g, nodes, *inner, pos, fuel);
            if mid < end {
                let (q, mid1) = choose|q: int, mid1: int|
                    cfirst.contains(q) && q < mid1 && #[trigger] cends(g, nodes, *inner, q, fuel).contains(mid1) && #[trigger] cstar_k(
                        g,
                        nodes,
                        *inner,
                        set![mid1],
                        (k - 1) as nat,
                        fuel,
                    ).contains(end);
                assert(cstar_k(g, nodes, *inner, set![mid], 0, fuel).contains(mid));
                assert(csucc(g, nodes, *inner, set![mid], fuel).contains(mid1));
                assert(set![mid1].subset_of(cstar_k(g, nodes, *inner, set![mid], 1, fuel)));
                lemma_cstar_k_compose(g, nodes, *inner, set![mid1], set![mid], (k - 1) as nat, fuel);
                lemma_cstar_traced(g, nodes, *inner, mid, end, k, fuel);
            }
            lemma_scan_star_finds(g, nodes, *inner, pos, end, pos + 1, mid, fuel);
        },
        SpecPattern::RuleRef(name) => {
            if fuel > 0 && first_rule(g, name) is Some && 0 <= first_rule(g, name)->0 < g.len() {
                let i = first_rule(g, name)->0;
                assert(trace(g, nodes, p, pos, end, fuel) == trace(g, nodes, g[i].pattern, pos, end, (fuel - 1) as nat));
                assert(cends(g, nodes, p, pos, fuel) == cends(g, nodes, g[i].pattern, pos, (fuel - 1) as nat));
                lemma_cends_traced(g, nodes, g[i].pattern, pos, end, (fuel - 1) as nat);
            }
        },
    }
}

proof fn lemma_calt_traced(
    g: Seq<SpecRule>,
    nodes: Seq<SpecNode>,
    alts: Seq<SpecPattern>,
    i: int,
    pos: int,
    end: int,
    fuel: nat,
)
    requires
        0 <= pos <= nodes.len(),
        0 <= i,
        calt_ends(g, nodes, alts, i, pos, fuel).contains(end),
    ensures
        trace_alt(g, nodes, alts, i, pos, end, fuel) is Some,
    decreases fuel, alts, alts.len() - i, 0int,
{
    if 0 <= i < alts.len() {
        assert(calt_ends(g, nodes, alts, i, pos, fuel) == cends(g, nodes, alts[i], pos, fuel).union(
            calt_ends(g, nodes, alts, i + 1, pos, fuel),
        ));
        if cends(g, nodes, alts[i], pos, fuel).contains(end) {
            lemma_cends_traced(g, nodes, alts[i], pos, end, fuel);
        } else {
            lemma_calt_traced(g, nodes, alts, i + 1, pos, end, fuel);
        }
    }
}

proof fn lemma_cseq_traced(
    g: Seq<SpecRule>,
    nodes: Seq<SpecNode>,
    items: Seq<SpecPattern>,
    i: int,
    pos: int,
    end: int,
    fuel: nat,
)
    requires
        0 <= pos <= nodes.len(),
        0 <= i,
        cseq_ends(g, nodes, items, i, set![pos], fuel).contains(end),
    ensures
        trace_seq(g, nodes, items, i, pos, end, fuel) is Some,
    decreases fuel, items, items.len() - i, 0int,
{
    if i < items.len() {
        let nf = cseq_step(g, nodes, items[i], set![pos], fuel);
        assert(cseq_ends(g, nodes, items, i, set![pos], fuel) == cseq_ends(g, nodes, items, i + 1, nf, fuel));
        lemma_cseq_split(g, nodes, items, i + 1, nf, end, fuel);
        let mid = choose|mid: int| nf.contains(mid) && #[trigger] cseq_ends(g, nodes, items, i + 1, set![mid], fuel).contains(end);
        assert(cends(g, nodes, items[i], pos, fuel).contains(mid));
        lemma_cends_bounds(g, nodes, items[i], pos, fuel);
        lemma_cends_in_ends(g, nodes, items[i], pos, fuel);
        lemma_cseq_in_seq(g, nodes, items, i + 1, set![mid], set![mid], fuel);
        lemma_seq_ends_bounds(g, nodes, items, i + 1, set![mid], mid, fuel);
        lemma_cends_traced(g, nodes, items[i], pos, mid, fuel);
        lemma_cseq_traced(g, nodes, items, i + 1, mid, end, fuel);
        lemma_scan_seq_finds(g, nodes, items, i, pos, end, pos, mid, fuel);
    }
}

/// A consuming repetition from `pos` that reaches `end > pos` in `k` rounds is traced.
proof fn lemma_cstar_traced(g: Seq<SpecRule>, nodes: Seq<SpecNode>, inner: SpecPattern, pos: int, end: int, k: nat, fuel: nat)
    requires
        0 <= pos < end,
        pos <= nodes.len(),
        cstar_k(g, nodes, inner, set![pos], k, fuel).contains(end),
    ensures
        scan_star(g, nodes, inner, pos, end, pos + 1, fuel) is Some,
    decreases fuel, inner, 1int, end - pos,
{
    lemma_cstar_k_first(g, nodes, inner, set![pos], k, end, fuel);
    let (q, mid) = choose|q: int, mid: int|
        set![pos].contains(q) && q < mid && #[trigger] cends(g, nodes, inner, q, fuel).contains(mid) && #[trigger] cstar_k(
            g,
            nodes,
            inner,
            set![mid],
            (k - 1) as nat,
            fuel,
        ).contains(end);
    assert(q == pos);
    lemma_cends_bounds(g, nodes, inner, pos, fuel);
    lemma_cends_in_ends(g, nodes, inner, pos, fuel);
    assert forall|x: int| #[trigger] set![mid].contains(x) implies mid <= x <= nodes.len() by {}
    lemma_cstar_k_bounds(g, nodes, inner, set![mid], mid, (k - 1) as nat, fuel);
    lemma_cends_traced(g, nodes, inner, pos, mid, fuel);
    if mid < end {
        lemma_cstar_traced(g, nodes, inner, mid, end, (k - 1) as nat, fuel);
    }
    lemma_scan_star_finds(g, nodes, inner, pos, end, pos + 1, mid, fuel);
}

/// Fixed positions are found exactly for the spans a match can cover when every repeat of a
/// `+` or `*` consumes a token: from a token `pos` inside the sequence, `trace` gives positions
/// for `nodes[pos..end]` exactly when `end` is in `cends`. Those ends are among the ends
/// `match_at` lists, and are all of them when each `+` repeats only parts that consume a token.
pub proof fn law_trace_at_ends(g: Seq<SpecRule>, nodes: Seq<SpecNode>, p: SpecPattern, pos: int, end: int, fuel: nat)
    requires
        0 <= pos <= end <= nodes.len(),
    ensures
        trace(g, nodes, p, pos, end, fuel) is Some <==> cends(g, nodes, p, pos, fuel).contains(end),
        cends(g, nodes, p, pos, fuel).contains(end) ==> ends(g, nodes, p, pos, fuel).contains(end),
        plus_consumes(g, nodes, p, fuel) ==> (cends(g, nodes, p, pos, fuel).contains(end) <==> ends(
            g,
            nodes,
            p,
            pos,
            fuel,
        ).contains(end)),
{
    lemma_cends_in_ends(g, nodes, p, pos, fuel);
    if trace(g, nodes, p, pos, end, fuel) is Some {
        lemma_trace_in_cends(g, nodes, p, pos, end, fuel);
    }
    if cends(g, nodes, p, pos, fuel).contains(end) {
        lemma_cends_traced(g, nodes, p, pos, end, fuel);
    }
    if plus_consumes(g, nodes, p, fuel) && ends(g, nodes, p, pos, fuel).contains(end) {
        lemma_ends_traced(g, nodes, p, pos, end, fuel);
        lemma_trace_in_cends(g, nodes, p, pos, end, fuel);
    }
}


// ── Fixed positions of a pattern without wildcards ─────────────────────────

/// Whether `p` holds no wildcard (`_` or a capture `_N`), rule references followed `fuel`
/// levels deep.
pub open spec fn wildcard_free(g: Seq<SpecRule>, p: SpecPattern, fuel: nat) -> bool
    decreases fuel, p, 0int,
{
    match p {
        SpecPattern::Wildcard => false,
        SpecPattern::WildcardCapture(_) => false,
        SpecPattern::Sequence(items) => all_wildcard_free(g, items, 0, fuel),
        SpecPattern::Alternative(alts) => all_wildcard_free(g, alts, 0, fuel),
        SpecPattern::Optional(inner) => wildcard_free(g, *inner, fuel),
        SpecPattern::ZeroOrMore(inner) => wildcard_free(g, *inner, fuel),
        SpecPattern::OneOrMore(inner) => wildcard_free(g, *inner, fuel),
        SpecPattern::RuleRef(name) => if fuel == 0 {
            true
        } else {
            match first_rule(g, name) {
                Some(i) => !(0 <= i < g.len()) || wildcard_free(g, g[i].pattern, (fuel - 1) as nat),
                None => true,
            }
        },
        SpecPattern::Token(_) => true,
    }
}

/// `wildcard_free` for each of `items[i..]`.
pub open spec fn all_wildcard_free(g: Seq<SpecRule>, items: Seq<SpecPattern>, i: int, fuel: nat) -> bool
    decreases fuel, items, items.len() - i,
{
    if 0 <= i < items.len() {
        wildcard_free(g, items[i], fuel) && all_wildcard_free(g, items, i + 1, fuel)
    } else {
        true
    }
}

/// The positions `a, a + 1, ..., b - 1`.
pub open spec fn span_positions(a: int, b: int) -> Seq<int> {
    Seq::new((b - a) as nat, |k: int| a + k)
}

proof fn lemma_span_concat(a: int, m: int, b: int)
    requires
        a <= m <= b,
    ensures
        span_positions(a, m) + span_positions(m, b) == span_positions(a, b),
{
    assert(span_positions(a, m) + span_positions(m, b) =~= span_positions(a, b));
}

proof fn lemma_trace_span(g: Seq<SpecRule>, nodes: Seq<SpecNode>, p: SpecPattern, pos: int, end: int, fuel: nat)
    requires
        wildcard_free(g, p, fuel),
        trace(g, nodes, p, pos, end, fuel) is Some,
    ensures
        trace(g, nodes, p, pos, end, fuel) == Some(span_positions(pos, end)),
    decreases fuel, p, 0int, 0int,
{
    match p {
        SpecPattern::Token(_) => {
            assert(span_positions(pos, end) =~= seq![pos]);
        },
        SpecPattern::Sequence(items) => {
            assert(trace(g, nodes, p, pos, end, fuel) == trace_seq(g, nodes, items, 0, pos, end, fuel));
            lemma_trace_seq_span(g, nodes, items, 0, pos, end, fuel);
        },
        SpecPattern::Alternative(alts) => {
            assert(trace(g, nodes, p, pos, end, fuel) == trace_alt(g, nodes, alts, 0, pos, end, fuel));
            lemma_trace_alt_span(g, nodes, alts, 0, pos, end, fuel);
        },
        SpecPattern::Optional(inner) => {
            if pos == end {
                assert(span_positions(pos, end) =~= Seq::<int>::empty());
            } else {
                lemma_trace_span(g, nodes, *inner, pos, end, fuel);
            }
        },
        SpecPattern::ZeroOrMore(inner) => {
            if pos == end {
                assert(span_positions(pos, end) =~= Seq::<int>::empty());
            } else {
                lemma_scan_star_span(g, nodes, *inner, pos, end, pos + 1, fuel);
            }
        },
        SpecPattern::OneOrMore(inner) => {
            lemma_scan_star_span(g, nodes, *inner, pos, end, pos + 1, fuel);
        },
        SpecPattern::RuleRef(name) => {
            let i = first_rule(g, name)->0;
            assert(fuel > 0 && first_rule(g, name) is Some && 0 <= i < g.len());
            assert(trace(g, nodes, p, pos, end, fuel) == trace(g, nodes, g[i].pattern, pos, end, (fuel - 1) as nat));
            lemma_trace_span(g, nodes, g[i].pattern, pos, end, (fuel - 1) as nat);
        },
        _ => {},
    }
}

proof fn lemma_trace_alt_span(
    g: Seq<SpecRule>,
    nodes: Seq<SpecNode>,
    alts: Seq<SpecPattern>,
    i: int,
    pos: int,
    end: int,
    fuel: nat,
)
    requires
        all_wildcard_free(g, alts, i, fuel),
        trace_alt(g, nodes, alts, i, pos, end, fuel) is Some,
    ensures
        trace_alt(g, nodes, alts, i, pos, end, fuel) == Some(span_positions(pos, end)),
    decreases fuel, alts, alts.len() - i, 0int,
{
    if trace(g, nodes, alts[i], pos, end, fuel) is Some {
        lemma_trace_span(g, nodes, alts[i], pos, end, fuel);
    } else {
        lemma_trace_alt_span(g, nodes, alts, i + 1, pos, end, fuel);
    }
}

proof fn lemma_trace_seq_span(
    g: Seq<SpecRule>,
    nodes: Seq<SpecNode>,
    items: Seq<SpecPattern>,
    i: int,
    pos: int,
    end: int,
    fuel: nat,
)
    requires
        0 <= i,
        all_wildcard_free(g, items, i, fuel),
        trace_seq(g, nodes, items, i, pos, end, fuel) is Some,
    ensures
        trace_seq(g, nodes, items, i, pos, end, fuel) == Some(span_positions(pos, end)),
    decreases fuel, items, items.len() - i, end - pos + 2,
{
    if i >= items.len() {
        assert(span_positions(pos, end) =~= Seq::<int>::empty());
    } else {
        assert(pos <= end);
        lemma_scan_seq_span(g, nodes, items, i, pos, end, pos, fuel);
    }
}

proof fn lemma_scan_seq_span(
    g: Seq<SpecRule>,
    nodes: Seq<SpecNode>,
    items: Seq<SpecPattern>,
    i: int,
    pos: int,
    end: int,
    mid: int,
    fuel: nat,
)
    requires
        0 <= i < items.len(),
        all_wildcard_free(g, items, i, fuel),
        scan_seq(g, nodes, items, i, pos, end, mid, fuel) is Some,
    ensures
        scan_seq(g, nodes, items, i, pos, end, mid, fuel) == Some(span_positions(pos, end)),
    decreases fuel, items, items.len() - i, end + 1 - mid,
{
    assert(pos <= mid <= end);
    if ends(g, nodes, items[i], pos, fuel).contains(mid) && trace(g, nodes, items[i], pos, mid, fuel) is Some
        && trace_seq(g, nodes, items, i + 1, mid, end, fuel) is Some {
        lemma_trace_span(g, nodes, items[i], pos, mid, fuel);
        lemma_trace_seq_span(g, nodes, items, i + 1, mid, end, fuel);
        lemma_span_concat(pos, mid, end);
    } else {
        lemma_scan_seq_span(g, nodes, items, i, pos, end, mid + 1, fuel);
    }
}

proof fn lemma_scan_star_span(
    g: Seq<SpecRule>,
    nodes: Seq<SpecNode>,
    inner: SpecPattern,
    pos: int,
    end: int,
    m: int,
    fuel: nat,
)
    requires
        wildcard_free(g, inner, fuel),
        scan_star(g, nodes, inner, pos, end, m, fuel) is Some,
    ensures
        scan_star(g, nodes, inner, pos, end, m, fuel) == Some(span_positions(pos, end)),
    decreases fuel, inner, end - pos, end + 1 - m,
{
    assert(pos < m <= end);
    if ends(g, nodes, inner, pos, fuel).contains(m) && trace(g, nodes, inner, pos, m, fuel) is Some && (m == end
        || scan_star(g, nodes, inner, m, end, m + 1, fuel) is Some) {
        lemma_trace_span(g, nodes, inner, pos, m, fuel);
        if m == end {
            assert(span_positions(pos, m) + Seq::<int>::empty() =~= span_positions(pos, end));
        } else {
            lemma_scan_star_span(g, nodes, inner, m, end, m + 1, fuel);
            lemma_span_concat(pos, m, end);
        }
    } else {
        lemma_scan_star_span(g, nodes, inner, pos, end, m + 1, fuel);
    }
}

/// In a pattern without wildcards every token is consumed by a token element, so every token of
/// a traced span is fixed: when `trace` finds positions for `nodes[pos..end]`, they are `pos`,
/// `pos + 1`, ..., `end - 1` (the nouns a `名詞*` repeats included).
pub proof fn law_trace_fixes_every_token(
    g: Seq<SpecRule>,
    nodes: Seq<SpecNode>,
    p: SpecPattern,
    pos: int,
    end: int,
    fuel: nat,
)
    requires
        wildcard_free(g, p, fuel),
    ensures
        trace(g, nodes, p, pos, end, fuel) is Some ==> trace(g, nodes, p, pos, end, fuel) == Some(
            Seq::new((end - pos) as nat, |k: int| pos + k),
        ),
{
    if trace(g, nodes, p, pos, end, fuel) is Some {
        lemma_trace_span(g, nodes, p, pos, end, fuel);
    }
}


// ── Fixed positions of a pattern made of wildcards ────────────────────────

/// Whether `p` holds no token element (only wildcards), rule references followed `fuel` levels
/// deep.
pub open spec fn token_free(g: Seq<SpecRule>, p: SpecPattern, fuel: nat) -> bool
    decreases fuel, p, 0int,
{
    match p {
        SpecPattern::Wildcard => true,
        SpecPattern::WildcardCapture(_) => true,
        SpecPattern::Sequence(items) => all_token_free(g, items, 0, fuel),
        SpecPattern::Alternative(alts) => all_token_free(g, alts, 0, fuel),
        SpecPattern::Optional(inner) => token_free(g, *inner, fuel),
        SpecPattern::ZeroOrMore(inner) => token_free(g, *inner, fuel),
        SpecPattern::OneOrMore(inner) => token_free(g, *inner, fuel),
        SpecPattern::RuleRef(name) => if fuel == 0 {
            true
        } else {
            match first_rule(g, name) {
                Some(i) => !(0 <= i < g.len()) || token_free(g, g[i].pattern, (fuel - 1) as nat),
                None => true,
            }
        },
        SpecPattern::Token(_) => false,
    }
}

/// `token_free` for each of `items[i..]`.
pub open spec fn all_token_free(g: Seq<SpecRule>, items: Seq<SpecPattern>, i: int, fuel: nat) -> bool
    decreases fuel, items, items.len() - i,
{
    if 0 <= i < items.len() {
        token_free(g, items[i], fuel) && all_token_free(g, items, i + 1, fuel)
    } else {
        true
    }
}

proof fn lemma_trace_none_fixed(g: Seq<SpecRule>, nodes: Seq<SpecNode>, p: SpecPattern, pos: int, end: int, fuel: nat)
    requires
        token_free(g, p, fuel),
        trace(g, nodes, p, pos, end, fuel) is Some,
    ensures
        trace(g, nodes, p, pos, end, fuel) == Some(Seq::<int>::empty()),
    decreases fuel, p, 0int, 0int,
{
    match p {
        SpecPattern::Wildcard | SpecPattern::WildcardCapture(_) => {},
        SpecPattern::Sequence(items) => {
            assert(trace(g, nodes, p, pos, end, fuel) == trace_seq(g, nodes, items, 0, pos, end, fuel));
            lemma_trace_seq_none_fixed(g, nodes, items, 0, pos, end, fuel);
        },
        SpecPattern::Alternative(alts) => {
            assert(trace(g, nodes, p, pos, end, fuel) == trace_alt(g, nodes, alts, 0, pos, end, fuel));
            lemma_trace_alt_none_fixed(g, nodes, alts, 0, pos, end, fuel);
        },
        SpecPattern::Optional(inner) => {
            if pos == end {
            } else {
                lemma_trace_none_fixed(g, nodes, *inner, pos, end, fuel);
            }
        },
        SpecPattern::ZeroOrMore(inner) => {
            if pos == end {
            } else {
                lemma_scan_star_none_fixed(g, nodes, *inner, pos, end, pos + 1, fuel);
            }
        },
        SpecPattern::OneOrMore(inner) => {
            lemma_scan_star_none_fixed(g, nodes, *inner, pos, end, pos + 1, fuel);
        },
        SpecPattern::RuleRef(name) => {
            let i = first_rule(g, name)->0;
            assert(fuel > 0 && first_rule(g, name) is Some && 0 <= i < g.len());
            assert(trace(g, nodes, p, pos, end, fuel) == trace(g, nodes, g[i].pattern, pos, end, (fuel - 1) as nat));
            lemma_trace_none_fixed(g, nodes, g[i].pattern, pos, end, (fuel - 1) as nat);
        },
        _ => {},
    }
}

proof fn lemma_trace_alt_none_fixed(
    g: Seq<SpecRule>,
    nodes: Seq<SpecNode>,
    alts: Seq<SpecPattern>,
    i: int,
    pos: int,
    end: int,
    fuel: nat,
)
    requires
        all_token_free(g, alts, i, fuel),
        trace_alt(g, nodes, alts, i, pos, end, fuel) is Some,
    ensures
        trace_alt(g, nodes, alts, i, pos, end, fuel) == Some(Seq::<int>::empty()),
    decreases fuel, alts, alts.len() - i, 0int,
{
    if trace(g, nodes, alts[i], pos, end, fuel) is Some {
        lemma_trace_none_fixed(g, nodes, alts[i], pos, end, fuel);
    } else {
        lemma_trace_alt_none_fixed(g, nodes, alts, i + 1, pos, end, fuel);
    }
}

proof fn lemma_trace_seq_none_fixed(
    g: Seq<SpecRule>,
    nodes: Seq<SpecNode>,
    items: Seq<SpecPattern>,
    i: int,
    pos: int,
    end: int,
    fuel: nat,
)
    requires
        0 <= i,
        all_token_free(g, items, i, fuel),
        trace_seq(g, nodes, items, i, pos, end, fuel) is Some,
    ensures
        trace_seq(g, nodes, items, i, pos, end, fuel) == Some(Seq::<int>::empty()),
    decreases fuel, items, items.len() - i, end - pos + 2,
{
    if i >= items.len() {
    } else {
        assert(pos <= end);
        lemma_scan_seq_none_fixed(g, nodes, items, i, pos, end, pos, fuel);
    }
}

proof fn lemma_scan_seq_none_fixed(
    g: Seq<SpecRule>,
    nodes: Seq<SpecNode>,
    items: Seq<SpecPattern>,
    i: int,
    pos: int,
    end: int,
    mid: int,
    fuel: nat,
)
    requires
        0 <= i < items.len(),
        all_token_free(g, items, i, fuel),
        scan_seq(g, nodes, items, i, pos, end, mid, fuel) is Some,
    ensures
        scan_seq(g, nodes, items, i, pos, end, mid, fuel) == Some(Seq::<int>::empty()),
    decreases fuel, items, items.len() - i, end + 1 - mid,
{
    assert(pos <= mid <= end);
    if ends(g, nodes, items[i], pos, fuel).contains(mid) && trace(g, nodes, items[i], pos, mid, fuel) is Some
        && trace_seq(g, nodes, items, i + 1, mid, end, fuel) is Some {
        lemma_trace_none_fixed(g, nodes, items[i], pos, mid, fuel);
        lemma_trace_seq_none_fixed(g, nodes, items, i + 1, mid, end, fuel);
        assert(Seq::<int>::empty() + Seq::<int>::empty() =~= Seq::<int>::empty());
    } else {
        lemma_scan_seq_none_fixed(g, nodes, items, i, pos, end, mid + 1, fuel);
    }
}

proof fn lemma_scan_star_none_fixed(
    g: Seq<SpecRule>,
    nodes: Seq<SpecNode>,
    inner: SpecPattern,
    pos: int,
    end: int,
    m: int,
    fuel: nat,
)
    requires
        token_free(g, inner, fuel),
        scan_star(g, nodes, inner, pos, end, m, fuel) is Some,
    ensures
        scan_star(g, nodes, inner, pos, end, m, fuel) == Some(Seq::<int>::empty()),
    decreases fuel, inner, end - pos, end + 1 - m,
{
    assert(pos < m <= end);
    if ends(g, nodes, inner, pos, fuel).contains(m) && trace(g, nodes, inner, pos, m, fuel) is Some && (m == end
        || scan_star(g, nodes, inner, m, end, m + 1, fuel) is Some) {
        lemma_trace_none_fixed(g, nodes, inner, pos, m, fuel);
        if m == end {
            assert(Seq::<int>::empty() + Seq::<int>::empty() =~= Seq::<int>::empty());
        } else {
            lemma_scan_star_none_fixed(g, nodes, inner, m, end, m + 1, fuel);
            assert(Seq::<int>::empty() + Seq::<int>::empty() =~= Seq::<int>::empty());
        }
    } else {
        lemma_scan_star_none_fixed(g, nodes, inner, pos, end, m + 1, fuel);
    }
}

/// A pattern without token elements fixes no token: when `trace` finds positions for
/// `nodes[pos..end]` under a pattern made only of wildcards, there are none.
pub proof fn law_trace_wildcards_fix_nothing(
    g: Seq<SpecRule>,
    nodes: Seq<SpecNode>,
    p: SpecPattern,
    pos: int,
    end: int,
    fuel: nat,
)
    requires
        token_free(g, p, fuel),
    ensures
        trace(g, nodes, p, pos, end, fuel) is Some ==> trace(g, nodes, p, pos, end, fuel) == Some(
            Seq::<int>::empty(),
        ),
{
    if trace(g, nodes, p, pos, end, fuel) is Some {
        lemma_trace_none_fixed(g, nodes, p, pos, end, fuel);
    }
}

} // verus!
