use vstd::prelude::*;
use crate::conflict_analyzer::{
    cross_pairs, edges_until, has_writes, first_pattern_type, row_until, spec_compatible, spec_composition, spec_conflict_edges, spec_edge,
    spec_pair_conflict, spec_pattern_type, spec_rules_conflict, spec_self_conflict, spec_self_edge,
    CompositionVerdict, GridContext,
};
use crate::geometry::{
    change_offset, coord_bound, feedback_alt_target, in_write_set, spec_redirected_targets, spec_shift_targets, rule_in_bounds, rules_in_bounds, spec_effective_pattern, spec_pattern_cells,
};
use crate::types::{CellType, Rule};

verus! {

/// Lexicographic order on edges.
pub open spec fn edge_lt(a: (usize, usize), b: (usize, usize)) -> bool {
    a.0 < b.0 || (a.0 == b.0 && a.1 < b.1)
}

proof fn lemma_row(rules: Seq<Rule>, grid: Option<GridContext>, i: int, j: int)
    requires
        0 <= i < j <= rules.len() <= usize::MAX,
    ensures
        forall|e: (usize, usize)|
            #[trigger] row_until(rules, grid, i, j).contains(e) <==> (e.0 == i && i <= e.1 < j && spec_edge(
                rules,
                grid,
                i,
                e.1 as int,
            )),
        forall|a: int, b: int|
            0 <= a < b < row_until(rules, grid, i, j).len() ==> edge_lt(
                #[trigger] row_until(rules, grid, i, j)[a],
                #[trigger] row_until(rules, grid, i, j)[b],
            ),
        forall|a: int|
            0 <= a < row_until(rules, grid, i, j).len() ==> (#[trigger] row_until(rules, grid, i, j)[a]).0 == i
                && i <= row_until(rules, grid, i, j)[a].1 < j,
    decreases j - i,
{
    let r = row_until(rules, grid, i, j);
    if j <= i + 1 {
        assert forall|e: (usize, usize)| #[trigger] r.contains(e) <==> (e.0 == i && i <= e.1 < j && spec_edge(
            rules,
            grid,
            i,
            e.1 as int,
        )) by {
            if e.0 == i && i <= e.1 < j && spec_edge(rules, grid, i, e.1 as int) {
                assert(r[0] == e);
            }
        }
    } else {
        lemma_row(rules, grid, i, j - 1);
        let prev = row_until(rules, grid, i, j - 1);
        let tail = if spec_edge(rules, grid, i, j - 1) {
            seq![(i as usize, (j - 1) as usize)]
        } else {
            Seq::<(usize, usize)>::empty()
        };
        assert(r == prev + tail);
        assert forall|e: (usize, usize)| #[trigger] r.contains(e) <==> (e.0 == i && i <= e.1 < j && spec_edge(
            rules,
            grid,
            i,
            e.1 as int,
        )) by {
            if r.contains(e) {
                let k = choose|k: int| 0 <= k < r.len() && r[k] == e;
                if k < prev.len() {
                    assert(prev.contains(e));
                }
            }
            if e.0 == i && i <= e.1 < j && spec_edge(rules, grid, i, e.1 as int) {
                if e.1 < j - 1 {
                    assert(prev.contains(e));
                    let k = choose|k: int| 0 <= k < prev.len() && prev[k] == e;
                    assert(r[k] == e);
                } else {
                    assert(r[prev.len() as int] == e);
                }
            }
        }
    }
}

proof fn lemma_edges_until(rules: Seq<Rule>, grid: Option<GridContext>, i: int)
    requires
        0 <= i <= rules.len() <= usize::MAX,
    ensures
        forall|e: (usize, usize)|
            #[trigger] edges_until(rules, grid, i).contains(e) <==> (e.0 < i && e.0 <= e.1 < rules.len()
                && spec_edge(rules, grid, e.0 as int, e.1 as int)),
        forall|a: int, b: int|
            0 <= a < b < edges_until(rules, grid, i).len() ==> edge_lt(
                #[trigger] edges_until(rules, grid, i)[a],
                #[trigger] edges_until(rules, grid, i)[b],
            ),
        forall|a: int|
            0 <= a < edges_until(rules, grid, i).len() ==> (#[trigger] edges_until(rules, grid, i)[a]).0 < i,
    decreases i,
{
    if i > 0 {
        lemma_edges_until(rules, grid, i - 1);
        lemma_row(rules, grid, i - 1, rules.len() as int);
        let prev = edges_until(rules, grid, i - 1);
        let row = row_until(rules, grid, i - 1, rules.len() as int);
        let all = edges_until(rules, grid, i);
        assert(all == prev + row);
        assert forall|e: (usize, usize)| #[trigger] all.contains(e) <==> (e.0 < i && e.0 <= e.1 < rules.len()
            && spec_edge(rules, grid, e.0 as int, e.1 as int)) by {
            if all.contains(e) {
                let k = choose|k: int| 0 <= k < all.len() && all[k] == e;
                if k < prev.len() {
                    assert(prev.contains(e));
                } else {
                    assert(row.contains(e));
                }
            }
            if e.0 < i && e.0 <= e.1 < rules.len() && spec_edge(rules, grid, e.0 as int, e.1 as int) {
                if e.0 < i - 1 {
                    assert(prev.contains(e));
                    let k = choose|k: int| 0 <= k < prev.len() && prev[k] == e;
                    assert(all[k] == e);
                } else {
                    assert(row.contains(e));
                    let k = choose|k: int| 0 <= k < row.len() && row[k] == e;
                    assert(all[prev.len() + k] == e);
                }
            }
        }
        assert forall|a: int, b: int| 0 <= a < b < all.len() implies edge_lt(#[trigger] all[a], #[trigger] all[b]) by {
            if b < prev.len() {
                assert(all[a] == prev[a] && all[b] == prev[b]);
            } else if a >= prev.len() {
                assert(all[a] == row[a - prev.len()] && all[b] == row[b - prev.len()]);
            } else {
                assert(all[a] == prev[a] && all[b] == row[b - prev.len()]);
            }
        }
        assert forall|a: int| 0 <= a < all.len() implies (#[trigger] all[a]).0 < i by {
            if a < prev.len() {
                assert(all[a] == prev[a]);
            } else {
                assert(all[a] == row[a - prev.len()]);
            }
        }
    }
}

/// Law: the conflict graph lists, in increasing `(i, j)` order and without repetition,
/// exactly the pairs `i <= j` whose rules may conflict (`(i, i)`: rule `i` with itself).
pub proof fn lemma_conflict_edges_exact(rules: Seq<Rule>, grid: Option<GridContext>)
    requires
        rules.len() <= usize::MAX,
    ensures
        forall|e: (usize, usize)|
            #[trigger] spec_conflict_edges(rules, grid).contains(e) <==> (e.0 <= e.1 < rules.len() && spec_edge(
                rules,
                grid,
                e.0 as int,
                e.1 as int,
            )),
        forall|a: int, b: int|
            0 <= a < b < spec_conflict_edges(rules, grid).len() ==> edge_lt(
                #[trigger] spec_conflict_edges(rules, grid)[a],
                #[trigger] spec_conflict_edges(rules, grid)[b],
            ),
{
    lemma_edges_until(rules, grid, rules.len() as int);
}

/// Law: whether two rules may conflict does not depend on their order.
pub proof fn lemma_pair_conflict_symmetric(ri: Rule, rj: Rule, grid: Option<GridContext>)
    ensures
        spec_pair_conflict(ri, rj, grid) == spec_pair_conflict(rj, ri, grid),
{
    if spec_rules_conflict(ri, rj) {
        let (wi, wj) = choose|wi: (i32, i32), wj: (i32, i32)|
            #[trigger] in_write_set(ri, wi) && #[trigger] in_write_set(rj, wj) && spec_compatible(
                ri,
                rj,
                wi.0 - wj.0,
                wi.1 - wj.1,
            );
        lemma_compatible_swap(ri, rj, wi.0 - wj.0, wi.1 - wj.1);
        assert(in_write_set(rj, wj) && in_write_set(ri, wi) && spec_compatible(rj, ri, wj.0 - wi.0, wj.1 - wi.1));
    }
    if spec_rules_conflict(rj, ri) {
        let (wj, wi) = choose|wj: (i32, i32), wi: (i32, i32)|
            #[trigger] in_write_set(rj, wj) && #[trigger] in_write_set(ri, wi) && spec_compatible(
                rj,
                ri,
                wj.0 - wi.0,
                wj.1 - wi.1,
            );
        lemma_compatible_swap(rj, ri, wj.0 - wi.0, wj.1 - wi.1);
        assert(in_write_set(ri, wi) && in_write_set(rj, wj) && spec_compatible(ri, rj, wi.0 - wj.0, wi.1 - wj.1));
    }
}

proof fn lemma_compatible_swap(ri: Rule, rj: Rule, dx: int, dy: int)
    requires
        spec_compatible(ri, rj, dx, dy),
    ensures
        spec_compatible(rj, ri, -dx, -dy),
{
    let pi = spec_pattern_cells(ri);
    let pj = spec_pattern_cells(rj);
    assert forall|b: int, a: int|
        0 <= b < pj.len() && 0 <= a < pi.len() && #[trigger] pj[b].0 == #[trigger] pi[a].0 + -dx && pj[b].1 == pi[a].1
            + -dy implies spec_pattern_type(rj, pj[b].0 as int, pj[b].1 as int) == spec_pattern_type(
        ri,
        pi[a].0 as int,
        pi[a].1 as int,
    ) by {
        assert(pi[a].0 == pj[b].0 + dx && pi[a].1 == pj[b].1 + dy);
    }
}

/// The rule's pattern, read at `(px, py)` of the grid `cells`, is satisfied.
pub open spec fn matches_at(rule: Rule, cells: spec_fn(int, int) -> u8, px: int, py: int) -> bool {
    let p = spec_effective_pattern(rule);
    forall|k: int| 0 <= k < p.len() ==> cells(px + p[k].0, py + p[k].1) == (#[trigger] p[k]).2.0
}

proof fn lemma_first_type_found(p: Seq<(i8, i8, CellType)>, k: int, x: int, y: int, a: int) -> (k2: int)
    requires
        0 <= k <= a < p.len(),
        p[a].0 as int == x && p[a].1 as int == y,
    ensures
        k <= k2 <= a,
        p[k2].0 as int == x && p[k2].1 as int == y,
        first_pattern_type(p, k, x, y) == Some(p[k2].2.0),
    decreases a - k,
{
    if p[k].0 as int == x && p[k].1 as int == y {
        k
    } else {
        lemma_first_type_found(p, k + 1, x, y, a)
    }
}

/// The type the analysis assumes at a pattern cell is the type some pattern entry at that
/// cell requires.
proof fn lemma_pattern_type_is_required(rule: Rule, a: int) -> (k: int)
    requires
        rule_in_bounds(rule),
        0 <= a < spec_pattern_cells(rule).len(),
    ensures
        0 <= k < spec_effective_pattern(rule).len(),
        spec_effective_pattern(rule)[k].0 == spec_pattern_cells(rule)[a].0,
        spec_effective_pattern(rule)[k].1 == spec_pattern_cells(rule)[a].1,
        spec_pattern_type(rule, spec_pattern_cells(rule)[a].0 as int, spec_pattern_cells(rule)[a].1 as int)
            == spec_effective_pattern(rule)[k].2.0,
{
    let p = rule.pattern@;
    let c = spec_pattern_cells(rule)[a];
    if p.len() > 0 {
        let k = lemma_first_type_found(p, 0, c.0 as int, c.1 as int, a);
        k
    } else {
        assert(spec_effective_pattern(rule)[a] == (a as i32, 0i32, rule.id@[a]));
        assert(a <= coord_bound());
        a
    }
}

/// Law (the theorem behind skipping arbitration): when the conflict graph has no edge, two
/// different matches on the same grid (of two rules, or of one rule at two positions) never
/// write the same cell, so applying all matches at once needs no arbitration.
pub proof fn lemma_conflict_free_matches_write_disjoint(
    rules: Seq<Rule>,
    grid: Option<GridContext>,
    cells: spec_fn(int, int) -> u8,
    i: int,
    px: int,
    py: int,
    j: int,
    qx: int,
    qy: int,
    wi: (i32, i32),
    wj: (i32, i32),
)
    requires
        rules.len() <= usize::MAX,
        rules_in_bounds(rules),
        spec_conflict_edges(rules, grid).len() == 0,
        0 <= i < rules.len(),
        0 <= j < rules.len(),
        matches_at(rules[i], cells, px, py),
        matches_at(rules[j], cells, qx, qy),
        !(i == j && px == qx && py == qy),
        in_write_set(rules[i], wi),
        in_write_set(rules[j], wj),
    ensures
        px + wi.0 != qx + wj.0 || py + wi.1 != qy + wj.1,
{
    if px + wi.0 == qx + wj.0 && py + wi.1 == qy + wj.1 {
        let ri = rules[i];
        let rj = rules[j];
        assert(rule_in_bounds(ri));
        assert(rule_in_bounds(rj));
        let dx = wi.0 - wj.0;
        let dy = wi.1 - wj.1;
        let pi = spec_pattern_cells(ri);
        let pj = spec_pattern_cells(rj);
        assert forall|a: int, b: int|
            0 <= a < pi.len() && 0 <= b < pj.len() && #[trigger] pi[a].0 == #[trigger] pj[b].0 + dx && pi[a].1
                == pj[b].1 + dy implies spec_pattern_type(ri, pi[a].0 as int, pi[a].1 as int) == spec_pattern_type(
            rj,
            pj[b].0 as int,
            pj[b].1 as int,
        ) by {
            let ka = lemma_pattern_type_is_required(ri, a);
            let kb = lemma_pattern_type_is_required(rj, b);
            let ei = spec_effective_pattern(ri)[ka];
            let ej = spec_effective_pattern(rj)[kb];
            assert(cells(px + ei.0, py + ei.1) == ei.2.0);
            assert(cells(qx + ej.0, qy + ej.1) == ej.2.0);
            assert(px + ei.0 == qx + ej.0 && py + ei.1 == qy + ej.1);
        }
        assert(spec_compatible(ri, rj, dx, dy));
        lemma_conflict_edges_exact(rules, grid);
        if i == j {
            assert(wi != wj);
            assert(in_write_set(ri, wi) && in_write_set(ri, wj) && wi != wj && spec_compatible(ri, ri, dx, dy));
            assert(spec_self_conflict(ri));
            assert(spec_self_edge(ri, grid));
            assert(spec_conflict_edges(rules, grid).contains((i as usize, i as usize)));
        } else {
            assert(in_write_set(ri, wi) && in_write_set(rj, wj) && spec_compatible(ri, rj, dx, dy));
            assert(spec_rules_conflict(ri, rj));
            lemma_pair_conflict_symmetric(ri, rj, grid);
            if i < j {
                assert(spec_edge(rules, grid, i, j));
                assert(spec_conflict_edges(rules, grid).contains((i as usize, j as usize)));
            } else {
                assert(spec_edge(rules, grid, j, i));
                assert(spec_conflict_edges(rules, grid).contains((j as usize, i as usize)));
            }
        }
    }
}

/// Law: when the composition of two rule sets is safe, each set is conflict-free on its own.
pub proof fn lemma_safe_composition_parts_conflict_free(
    a: Seq<Rule>,
    b: Seq<Rule>,
    grid: Option<GridContext>,
)
    requires
        a.len() + b.len() <= usize::MAX,
        spec_composition(CompositionVerdict::Safe, a, b, grid),
    ensures
        spec_conflict_edges(a, grid).len() == 0,
        spec_conflict_edges(b, grid).len() == 0,
{
    let ab = a + b;
    lemma_conflict_edges_exact(ab, grid);
    lemma_conflict_edges_exact(a, grid);
    lemma_conflict_edges_exact(b, grid);
    if spec_conflict_edges(a, grid).len() > 0 {
        let e = spec_conflict_edges(a, grid)[0];
        assert(spec_conflict_edges(a, grid).contains(e));
        assert(ab[e.0 as int] == a[e.0 as int] && ab[e.1 as int] == a[e.1 as int]);
        assert(spec_edge(ab, grid, e.0 as int, e.1 as int));
        assert(spec_conflict_edges(ab, grid).contains(e));
    }
    if spec_conflict_edges(b, grid).len() > 0 {
        let e = spec_conflict_edges(b, grid)[0];
        assert(spec_conflict_edges(b, grid).contains(e));
        let e2 = ((e.0 + a.len()) as usize, (e.1 + a.len()) as usize);
        assert(ab[e2.0 as int] == b[e.0 as int] && ab[e2.1 as int] == b[e.1 as int]);
        assert(spec_edge(ab, grid, e2.0 as int, e2.1 as int));
        assert(spec_conflict_edges(ab, grid).contains(e2));
    }
}

/// Law: knowing the grid only removes edges: every edge of the conflict graph built with a
/// grid is an edge of the graph built without one.
pub proof fn lemma_grid_edges_subset(rules: Seq<Rule>, g: GridContext)
    requires
        rules.len() <= usize::MAX,
    ensures
        forall|e: (usize, usize)|
            #[trigger] spec_conflict_edges(rules, Some(g)).contains(e) ==> spec_conflict_edges(rules, None).contains(e),
{
    lemma_conflict_edges_exact(rules, Some(g));
    lemma_conflict_edges_exact(rules, None);
    assert forall|e: (usize, usize)| #[trigger] spec_conflict_edges(rules, Some(g)).contains(e) implies spec_conflict_edges(
        rules,
        None,
    ).contains(e) by {
        assert(spec_edge(rules, Some(g), e.0 as int, e.1 as int));
        assert(spec_edge(rules, None, e.0 as int, e.1 as int));
    }
}

/// Law: a composition that is safe without a grid is safe with any grid.
pub proof fn lemma_safe_composition_with_grid(a: Seq<Rule>, b: Seq<Rule>, g: GridContext, v: CompositionVerdict)
    requires
        a.len() + b.len() <= usize::MAX,
        spec_composition(CompositionVerdict::Safe, a, b, None),
        spec_composition(v, a, b, Some(g)),
    ensures
        v is Safe,
{
    lemma_grid_edges_subset(a + b, g);
    if spec_conflict_edges(a + b, Some(g)).len() > 0 {
        assert(spec_conflict_edges(a + b, Some(g)).contains(spec_conflict_edges(a + b, Some(g))[0]));
    }
}

/// Law: with a grid, the pairs reported for an unsafe composition are among those reported
/// without one.
pub proof fn lemma_grid_composition_pairs_subset(
    a: Seq<Rule>,
    b: Seq<Rule>,
    g: GridContext,
    pg: Vec<(usize, usize)>,
    pn: Vec<(usize, usize)>,
)
    requires
        a.len() + b.len() <= usize::MAX,
        spec_composition(CompositionVerdict::Unsafe(pg), a, b, Some(g)),
        spec_composition(CompositionVerdict::Unsafe(pn), a, b, None),
    ensures
        forall|p: (usize, usize)| #[trigger] pg@.contains(p) ==> pn@.contains(p),
{
    lemma_grid_edges_subset(a + b, g);
    lemma_cross_pairs_members(spec_conflict_edges(a + b, Some(g)), a.len() as int);
    lemma_cross_pairs_members(spec_conflict_edges(a + b, None), a.len() as int);
}

/// The pair edge `q` contributes to the pairs of a composition of sets split at `n_a`.
pub open spec fn cross_of(q: (usize, usize), n_a: int) -> Option<(usize, usize)> {
    if q.0 < n_a && q.1 >= n_a {
        Some((q.0, (q.1 - n_a) as usize))
    } else if q.0 >= n_a && q.1 < n_a {
        Some((q.1, (q.0 - n_a) as usize))
    } else {
        None
    }
}

proof fn lemma_cross_pairs_members(e: Seq<(usize, usize)>, n_a: int)
    ensures
        forall|p: (usize, usize)|
            #[trigger] cross_pairs(e, n_a).contains(p) <==> exists|q: (usize, usize)|
                #[trigger] e.contains(q) && cross_of(q, n_a) == Some(p),
    decreases e.len(),
{
    if e.len() > 0 {
        let rest = e.drop_last();
        lemma_cross_pairs_members(rest, n_a);
        assert forall|p: (usize, usize)| #[trigger] cross_pairs(e, n_a).contains(p) <==> exists|q: (usize, usize)|
            #[trigger] e.contains(q) && cross_of(q, n_a) == Some(p) by {
            let cr = cross_pairs(rest, n_a);
            if cross_pairs(e, n_a).contains(p) {
                if cr.contains(p) {
                    let q = choose|q: (usize, usize)| #[trigger] rest.contains(q) && cross_of(q, n_a) == Some(p);
                    let i = choose|i: int| 0 <= i < rest.len() && rest[i] == q;
                    assert(e[i] == q);
                    assert(e.contains(q));
                } else {
                    assert(e[e.len() - 1] == e.last());
                    assert(e.contains(e.last()));
                    assert(cross_of(e.last(), n_a) == Some(p));
                }
            }
            if exists|q: (usize, usize)| #[trigger] e.contains(q) && cross_of(q, n_a) == Some(p) {
                let q = choose|q: (usize, usize)| #[trigger] e.contains(q) && cross_of(q, n_a) == Some(p);
                let i = choose|i: int| 0 <= i < e.len() && e[i] == q;
                if i < e.len() - 1 {
                    assert(rest[i] == q);
                    assert(rest.contains(q));
                    assert(cr.contains(p));
                    let j = choose|j: int| 0 <= j < cr.len() && cr[j] == p;
                    assert(cross_pairs(e, n_a)[j] == p);
                } else {
                    assert(q == e.last());
                    assert(cross_pairs(e, n_a)[cross_pairs(e, n_a).len() - 1] == p);
                }
            }
        }
    }
}

/// `r` with its minimum age set to `age`.
pub open spec fn with_min_age(r: Rule, age: u64) -> Rule {
    Rule { min_age: age, ..r }
}

proof fn lemma_rule_age_free(r: Rule, age: u64, o: Rule, grid: Option<GridContext>)
    ensures
        spec_self_edge(with_min_age(r, age), grid) == spec_self_edge(r, grid),
        spec_pair_conflict(with_min_age(r, age), o, grid) == spec_pair_conflict(r, o, grid),
        spec_pair_conflict(o, with_min_age(r, age), grid) == spec_pair_conflict(o, r, grid),
{
    let r2 = with_min_age(r, age);
    assert(spec_pattern_cells(r2) == spec_pattern_cells(r));
    assert(spec_shift_targets(r2) == spec_shift_targets(r));
    assert(r2.changes@ == r.changes@);
    assert(r2.feedback == r.feedback);
    if r.feedback is Some {
        assert(spec_redirected_targets(r2, r.feedback->0.new_direction) == spec_redirected_targets(
            r,
            r.feedback->0.new_direction,
        ));
    }
    assert forall|c: (i32, i32)| #[trigger] feedback_alt_target(r2, c) == feedback_alt_target(r, c) by {}
    assert forall|c: (i32, i32)| #[trigger] in_write_set(r2, c) == in_write_set(r, c) by {
        assert(feedback_alt_target(r2, c) == feedback_alt_target(r, c));
        let t = spec_shift_targets(r);
        if t.len() == 0 {
            if exists|k: int| 0 <= k < r.changes@.len() && c == change_offset(r, k) {
                let k = choose|k: int| 0 <= k < r.changes@.len() && c == change_offset(r, k);
                assert(c == change_offset(r2, k));
            }
            if exists|k: int| 0 <= k < r2.changes@.len() && c == change_offset(r2, k) {
                let k = choose|k: int| 0 <= k < r2.changes@.len() && c == change_offset(r2, k);
                assert(c == change_offset(r, k));
            }
        }
    }
    assert forall|c: (i32, i32)| #[trigger] in_write_set(r2, c) implies in_write_set(r, c) by {}
    assert forall|c: (i32, i32)| #[trigger] in_write_set(r, c) implies in_write_set(r2, c) by {}
    assert forall|x: int, y: int| #[trigger] spec_pattern_type(r2, x, y) == spec_pattern_type(r, x, y) by {}
    assert forall|p: Rule, q: Rule, dx: int, dy: int|
        (p == r2 || p == r || p == o) && (q == r2 || q == r || q == o) ==> #[trigger] spec_compatible(p, q, dx, dy)
            == spec_compatible(if p == r2 { r } else { p }, if q == r2 { r } else { q }, dx, dy) by {}
    assert(has_writes(r2) == has_writes(r));
    assert(spec_self_conflict(r2) == spec_self_conflict(r));
    assert(spec_rules_conflict(r2, o) == spec_rules_conflict(r, o));
    assert(spec_rules_conflict(o, r2) == spec_rules_conflict(o, r));
}

proof fn lemma_rows_pointwise(r1: Seq<Rule>, r2: Seq<Rule>, grid: Option<GridContext>, i: int, j: int)
    requires
        r1.len() == r2.len(),
        0 <= i < r1.len(),
        j <= r1.len(),
        forall|a: int, b: int|
            0 <= a < r1.len() && 0 <= b < r1.len() ==> #[trigger] spec_edge(r1, grid, a, b) == spec_edge(r2, grid, a, b),
    ensures
        row_until(r1, grid, i, j) == row_until(r2, grid, i, j),
    decreases j - i,
{
    if j > i + 1 {
        lemma_rows_pointwise(r1, r2, grid, i, j - 1);
        assert(spec_edge(r1, grid, i, j - 1) == spec_edge(r2, grid, i, j - 1));
    } else {
        assert(spec_edge(r1, grid, i, i) == spec_edge(r2, grid, i, i));
    }
}

proof fn lemma_edges_pointwise(r1: Seq<Rule>, r2: Seq<Rule>, grid: Option<GridContext>, i: int)
    requires
        r1.len() == r2.len(),
        i <= r1.len(),
        forall|a: int, b: int|
            0 <= a < r1.len() && 0 <= b < r1.len() ==> #[trigger] spec_edge(r1, grid, a, b) == spec_edge(r2, grid, a, b),
    ensures
        edges_until(r1, grid, i) == edges_until(r2, grid, i),
    decreases i,
{
    if i > 0 {
        lemma_edges_pointwise(r1, r2, grid, i - 1);
        lemma_rows_pointwise(r1, r2, grid, i - 1, r1.len() as int);
    }
}

/// Law: the minimum age of a rule plays no part in the conflict graph: setting it to any
/// value leaves the edges unchanged.
pub proof fn lemma_min_age_keeps_edges(rules: Seq<Rule>, grid: Option<GridContext>, k: int, age: u64)
    requires
        0 <= k < rules.len(),
    ensures
        spec_conflict_edges(rules.update(k, with_min_age(rules[k], age)), grid) == spec_conflict_edges(rules, grid),
{
    let r2 = rules.update(k, with_min_age(rules[k], age));
    assert forall|a: int, b: int| 0 <= a < rules.len() && 0 <= b < rules.len() implies #[trigger] spec_edge(
        r2,
        grid,
        a,
        b,
    ) == spec_edge(rules, grid, a, b) by {
        if a == k {
            lemma_rule_age_free(rules[k], age, rules[b], grid);
        }
        if b == k {
            lemma_rule_age_free(rules[k], age, rules[a], grid);
        }
    }
    lemma_edges_pointwise(r2, rules, grid, rules.len() as int);
}

/// Law: the conflict analysis counts both directions of a rule with feedback: every target
/// of its shifts, declared or in the direction the feedback switches to, is a written cell.
pub proof fn lemma_feedback_both_directions(rule: Rule)
    requires
        rule.feedback is Some,
        spec_shift_targets(rule).len() > 0,
    ensures
        forall|a: int|
            0 <= a < spec_shift_targets(rule).len() ==> in_write_set(rule, #[trigger] spec_shift_targets(rule)[a]),
        forall|a: int|
            0 <= a < spec_redirected_targets(rule, rule.feedback->0.new_direction).len() ==> in_write_set(
                rule,
                #[trigger] spec_redirected_targets(rule, rule.feedback->0.new_direction)[a],
            ),
{
    let rt = spec_redirected_targets(rule, rule.feedback->0.new_direction);
    assert forall|a: int| 0 <= a < rt.len() implies in_write_set(rule, #[trigger] rt[a]) by {
        assert(feedback_alt_target(rule, rt[a]));
    }
}

} // verus!
