use vstd::prelude::*;
use crate::geometry::{
    compute_redirected_targets, feedback_alt_target, spec_redirected_targets,
    flatten_groups, rules_in_bounds,
    bbox_of, cell_less, cell_lt, change_offset, compute_shift_targets, coord_bound, effective_pattern,
    in_affected_set, in_write_set, insert_sorted, lemma_contains_push, lemma_affected_set_small, lemma_bbox_attained,
    lemma_bbox_contains, lemma_shift_targets_small, lemma_write_set_small, offset_sum, rule_in_bounds,
    spec_effective_pattern, spec_pattern_cells, spec_shift_targets, strictly_sorted, sum_offsets,
};
use crate::types::{CellType, Direction, OverflowAction, Rule, RuleIndex};

verus! {

// ---------------------------------------------------------------------------
// Precomputed data of one rule
// ---------------------------------------------------------------------------

/// Precomputed relative geometry of a rule.
pub struct RuleData {
    /// Cells the rule reads or writes, relative to the match position, sorted without duplicates.
    pub affected_cells: Vec<(i32, i32)>,
    /// Bounding box of `affected_cells`: `(min_x, max_x, min_y, max_y)`.
    pub bbox: (i32, i32, i32, i32),
    /// Offsets of the effective pattern, in pattern order.
    pub pattern_cells: Vec<(i32, i32)>,
    /// Sum of all shift targets (meaningful only with exactly one shift).
    pub total_shift: (i32, i32),
    /// Target of every shift, in order.
    pub shift_targets: Vec<(i32, i32)>,
    /// Cells the rule writes, sorted without duplicates.
    pub write_cells: Vec<(i32, i32)>,
}

/// `data` is the precomputed data of `rule`.
pub open spec fn rule_data_of(data: RuleData, rule: Rule) -> bool {
    &&& strictly_sorted(data.affected_cells@)
    &&& forall|c: (i32, i32)| data.affected_cells@.contains(c) <==> in_affected_set(rule, c)
    &&& data.bbox == bbox_of(data.affected_cells@)
    &&& data.pattern_cells@ == spec_pattern_cells(rule)
    &&& data.shift_targets@ == spec_shift_targets(rule)
    &&& data.total_shift.0 as int == offset_sum(spec_shift_targets(rule)).0
    &&& data.total_shift.1 as int == offset_sum(spec_shift_targets(rule)).1
    &&& strictly_sorted(data.write_cells@)
    &&& forall|c: (i32, i32)| data.write_cells@.contains(c) <==> in_write_set(rule, c)
}

/// Cells the rule writes (never the cells it only reads), sorted without duplicates:
/// without shifts the change offsets; with shifts the cleared origin, and for every
/// shift target the target itself and the change offsets taken from it.
fn compute_write_cells(rule: &Rule, shift_targets: &Vec<(i32, i32)>) -> (cells: Vec<(i32, i32)>)
    requires
        rule_in_bounds(*rule),
        shift_targets@ == spec_shift_targets(*rule),
    ensures
        strictly_sorted(cells@),
        forall|c: (i32, i32)| cells@.contains(c) <==> in_write_set(*rule, c),
{
    let mut cells: Vec<(i32, i32)> = Vec::new();
    let nc = rule.changes.len();
    let ghost t = spec_shift_targets(*rule);
    if shift_targets.len() == 0 {
        let mut k: usize = 0;
        while k < nc
            invariant
                nc == rule.changes@.len(),
                k <= nc,
                strictly_sorted(cells@),
                forall|c: (i32, i32)|
                    cells@.contains(c) <==> exists|k2: int| 0 <= k2 < k && c == change_offset(*rule, k2),
            decreases nc - k,
        {
            let dx = rule.changes[k].0;
            let dy = rule.changes[k].1;
            insert_sorted(&mut cells, (dx, dy));
            proof {
                assert forall|c: (i32, i32)|
                    cells@.contains(c) <==> exists|k2: int| 0 <= k2 < k + 1 && c == change_offset(*rule, k2) by {
                    if c == (dx, dy) {
                        assert(c == change_offset(*rule, k as int));
                    }
                }
            }
            k += 1;
        }
    } else {
        insert_sorted(&mut cells, (0, 0));
        let nt = shift_targets.len();
        let mut a: usize = 0;
        while a < nt
            invariant
                nc == rule.changes@.len(),
                nt == t.len(),
                t.len() > 0,
                shift_targets@ == t,
                t == spec_shift_targets(*rule),
                rule_in_bounds(*rule),
                a <= nt,
                strictly_sorted(cells@),
                forall|c: (i32, i32)|
                    cells@.contains(c) <==> (c == (0i32, 0i32) || (exists|a2: int| 0 <= a2 < a && c == t[a2]) || (
                    exists|a2: int, k2: int|
                        0 <= a2 < a && 0 <= k2 < nc && c == (
                            (t[a2].0 + rule.changes@[k2].0) as i32,
                            (t[a2].1 + rule.changes@[k2].1) as i32,
                        ))),
            decreases nt - a,
        {
            let (sdx, sdy) = shift_targets[a];
            insert_sorted(&mut cells, (sdx, sdy));
            let mut k: usize = 0;
            while k < nc
                invariant
                    nc == rule.changes@.len(),
                    nt == t.len(),
                    a < nt,
                    shift_targets@ == t,
                    t == spec_shift_targets(*rule),
                    (sdx, sdy) == t[a as int],
                    rule_in_bounds(*rule),
                    k <= nc,
                    strictly_sorted(cells@),
                    forall|c: (i32, i32)|
                        cells@.contains(c) <==> (c == (0i32, 0i32) || (exists|a2: int|
                            0 <= a2 < a + 1 && c == t[a2]) || (exists|a2: int, k2: int|
                            0 <= a2 < a && 0 <= k2 < nc && c == (
                                (t[a2].0 + rule.changes@[k2].0) as i32,
                                (t[a2].1 + rule.changes@[k2].1) as i32,
                            )) || (exists|k2: int|
                            0 <= k2 < k && c == (
                                (t[a as int].0 + rule.changes@[k2].0) as i32,
                                (t[a as int].1 + rule.changes@[k2].1) as i32,
                            ))),
                decreases nc - k,
            {
                proof {
                    lemma_shift_targets_small(*rule, a as int);
                    assert(-coord_bound() <= rule.changes@[k as int].0 <= coord_bound());
                }
                let cx = sdx + rule.changes[k].0;
                let cy = sdy + rule.changes[k].1;
                insert_sorted(&mut cells, (cx, cy));
                proof {
                    assert forall|c: (i32, i32)|
                        cells@.contains(c) <==> (c == (0i32, 0i32) || (exists|a2: int|
                            0 <= a2 < a + 1 && c == t[a2]) || (exists|a2: int, k2: int|
                            0 <= a2 < a && 0 <= k2 < nc && c == (
                                (t[a2].0 + rule.changes@[k2].0) as i32,
                                (t[a2].1 + rule.changes@[k2].1) as i32,
                            )) || (exists|k2: int|
                            0 <= k2 < k + 1 && c == (
                                (t[a as int].0 + rule.changes@[k2].0) as i32,
                                (t[a as int].1 + rule.changes@[k2].1) as i32,
                            ))) by {
                        if c == (cx, cy) {
                            assert(c == (
                                (t[a as int].0 + rule.changes@[k as int].0) as i32,
                                (t[a as int].1 + rule.changes@[k as int].1) as i32,
                            ));
                        }
                    }
                }
                k += 1;
            }
            proof {
                assert forall|c: (i32, i32)|
                    cells@.contains(c) <==> (c == (0i32, 0i32) || (exists|a2: int| 0 <= a2 < a + 1 && c == t[a2])
                        || (exists|a2: int, k2: int|
                        0 <= a2 < a + 1 && 0 <= k2 < nc && c == (
                            (t[a2].0 + rule.changes@[k2].0) as i32,
                            (t[a2].1 + rule.changes@[k2].1) as i32,
                        ))) by {
                    if exists|k2: int|
                        0 <= k2 < nc && c == (
                            (t[a as int].0 + rule.changes@[k2].0) as i32,
                            (t[a as int].1 + rule.changes@[k2].1) as i32,
                        ) {
                        let k2 = choose|k2: int|
                            0 <= k2 < nc && c == (
                                (t[a as int].0 + rule.changes@[k2].0) as i32,
                                (t[a as int].1 + rule.changes@[k2].1) as i32,
                            );
                        assert(0 <= a < a + 1 && 0 <= k2 < nc);
                    }
                    if exists|a2: int, k2: int|
                        0 <= a2 < a + 1 && 0 <= k2 < nc && c == (
                            (t[a2].0 + rule.changes@[k2].0) as i32,
                            (t[a2].1 + rule.changes@[k2].1) as i32,
                        ) {
                        let (a2, k2) = choose|a2: int, k2: int|
                            0 <= a2 < a + 1 && 0 <= k2 < nc && c == (
                                (t[a2].0 + rule.changes@[k2].0) as i32,
                                (t[a2].1 + rule.changes@[k2].1) as i32,
                            );
                        if a2 == a {
                            assert(0 <= k2 < nc);
                        }
                    }
                }
            }
            a += 1;
        }
        let ghost base = cells@;
        assert forall|c: (i32, i32)| #[trigger] base.contains(c) <==> (c == (0i32, 0i32) || (exists|a2: int|
            0 <= a2 < t.len() && c == t[a2]) || (exists|a2: int, k2: int|
            0 <= a2 < t.len() && 0 <= k2 < nc && c == (
                (t[a2].0 + rule.changes@[k2].0) as i32,
                (t[a2].1 + rule.changes@[k2].1) as i32,
            ))) by {}
        if let Some(f) = rule.feedback {
            let alts = compute_redirected_targets(rule, f.new_direction);
            let ghost rt = spec_redirected_targets(*rule, f.new_direction);
            let mut j: usize = 0;
            while j < alts.len()
                invariant
                    alts@ == rt,
                    j <= alts@.len(),
                    strictly_sorted(cells@),
                    forall|c: (i32, i32)|
                        #[trigger] cells@.contains(c) <==> (base.contains(c) || exists|a2: int| 0 <= a2 < j && c == rt[a2]),
                decreases alts@.len() - j,
            {
                let c0 = alts[j];
                let ghost prev = cells@;
                insert_sorted(&mut cells, c0);
                proof {
                    assert forall|c: (i32, i32)|
                        cells@.contains(c) <==> (base.contains(c) || exists|a2: int| 0 <= a2 < j + 1 && c == rt[a2]) by {
                        assert(cells@.contains(c) <==> (prev.contains(c) || c == c0));
                        assert(prev.contains(c) <==> (base.contains(c) || exists|a2: int| 0 <= a2 < j && c == rt[a2]));
                        if c == c0 {
                            assert(c == rt[j as int]);
                        }
                        if exists|a2: int| 0 <= a2 < j + 1 && c == rt[a2] {
                            let a2 = choose|a2: int| 0 <= a2 < j + 1 && c == rt[a2];
                            if a2 < j {
                                assert(exists|a3: int| 0 <= a3 < j && c == rt[a3]);
                            }
                        }
                    }
                }
                j += 1;
            }
            proof {
                assert forall|c: (i32, i32)| cells@.contains(c) <==> in_write_set(*rule, c) by {
                    assert(t.len() > 0);
                    assert(cells@.contains(c) <==> (base.contains(c) || exists|a2: int| 0 <= a2 < alts@.len() && c == rt[a2]));
                    assert(base.contains(c) <==> (c == (0i32, 0i32) || (exists|a2: int| 0 <= a2 < t.len() && c == t[a2]) || (
                    exists|a2: int, k2: int|
                        0 <= a2 < t.len() && 0 <= k2 < nc && c == (
                            (t[a2].0 + rule.changes@[k2].0) as i32,
                            (t[a2].1 + rule.changes@[k2].1) as i32,
                        ))));
                    assert(feedback_alt_target(*rule, c) <==> exists|a2: int| 0 <= a2 < rt.len() && c == rt[a2]);
                }
            }
        } else {
            proof {
                assert forall|c: (i32, i32)| cells@.contains(c) <==> in_write_set(*rule, c) by {
                    assert(t.len() > 0);
                    assert(!feedback_alt_target(*rule, c));
                    assert(cells@.contains(c) <==> base.contains(c));
                }
            }
        }
    }
    cells
}

/// Cells the rule reads or writes, relative to the match position `(0,0)`, sorted
/// without duplicates: the effective pattern cells, the origin, and the written cells.
pub fn compute_affected_cells(rule: &Rule) -> (cells: Vec<(i32, i32)>)
    requires
        rule_in_bounds(*rule),
    ensures
        strictly_sorted(cells@),
        forall|c: (i32, i32)| cells@.contains(c) <==> in_affected_set(*rule, c),
{
    let pattern = effective_pattern(rule);
    let ghost pc = spec_pattern_cells(*rule);
    let np = pattern.len();
    let mut cells: Vec<(i32, i32)> = Vec::new();
    let mut k: usize = 0;
    while k < np
        invariant
            np == pattern@.len(),
            pattern@ == spec_effective_pattern(*rule),
            pc == spec_pattern_cells(*rule),
            k <= np,
            strictly_sorted(cells@),
            forall|c: (i32, i32)| cells@.contains(c) <==> pc.take(k as int).contains(c),
        decreases np - k,
    {
        let (dx, dy, _) = pattern[k];
        insert_sorted(&mut cells, (dx, dy));
        proof {
            assert(pc[k as int] == (dx, dy));
            assert(pc.take(k as int + 1) =~= pc.take(k as int).push((dx, dy)));
            assert forall|c: (i32, i32)| cells@.contains(c) <==> pc.take(k as int + 1).contains(c) by {
                lemma_contains_push(pc.take(k as int), (dx, dy), c);
            }
        }
        k += 1;
    }
    assert(pc.take(np as int) =~= pc);
    insert_sorted(&mut cells, (0, 0));
    let targets = compute_shift_targets(rule);
    let writes = compute_write_cells(rule, &targets);
    let nw = writes.len();
    let mut w: usize = 0;
    while w < nw
        invariant
            nw == writes@.len(),
            w <= nw,
            pc == spec_pattern_cells(*rule),
            strictly_sorted(cells@),
            forall|c: (i32, i32)| writes@.contains(c) <==> in_write_set(*rule, c),
            forall|c: (i32, i32)|
                cells@.contains(c) <==> (pc.contains(c) || c == (0i32, 0i32) || writes@.take(w as int).contains(c)),
        decreases nw - w,
    {
        let c = writes[w];
        let ghost prev = cells@;
        insert_sorted(&mut cells, c);
        proof {
            assert forall|x: (i32, i32)| prev.contains(x) <==> (pc.contains(x) || x == (0i32, 0i32) || writes@.take(w as int).contains(x)) by {}
            assert(writes@.take(w as int + 1) =~= writes@.take(w as int).push(c));
            assert forall|x: (i32, i32)|
                cells@.contains(x) <==> (pc.contains(x) || x == (0i32, 0i32) || writes@.take(w as int + 1).contains(x)) by {
                lemma_contains_push(writes@.take(w as int), c, x);
            }
        }
        w += 1;
    }
    assert(writes@.take(nw as int) =~= writes@);
    assert forall|c: (i32, i32)| cells@.contains(c) <==> in_affected_set(*rule, c) by {
        assert(w == nw);
        assert(cells@.contains(c) <==> (pc.contains(c) || c == (0i32, 0i32) || writes@.take(w as int).contains(c)));
        assert(writes@.contains(c) <==> in_write_set(*rule, c));
        assert(in_affected_set(*rule, c) <==> (pc.contains(c) || c == (0i32, 0i32) || in_write_set(*rule, c)));
    }
    cells
}

/// Bounding box `(min_x, max_x, min_y, max_y)` of a list of cells.
fn compute_bbox(cells: &Vec<(i32, i32)>) -> (b: (i32, i32, i32, i32))
    ensures
        b == bbox_of(cells@),
{
    let mut min_x = i32::MAX;
    let mut max_x = i32::MIN;
    let mut min_y = i32::MAX;
    let mut max_y = i32::MIN;
    let n = cells.len();
    let mut k: usize = 0;
    while k < n
        invariant
            n == cells@.len(),
            k <= n,
            (min_x, max_x, min_y, max_y) == bbox_of(cells@.take(k as int)),
        decreases n - k,
    {
        let (x, y) = cells[k];
        assert(cells@.take(k as int + 1).drop_last() =~= cells@.take(k as int));
        if x < min_x {
            min_x = x;
        }
        if x > max_x {
            max_x = x;
        }
        if y < min_y {
            min_y = y;
        }
        if y > max_y {
            max_y = y;
        }
        k += 1;
    }
    assert(cells@.take(n as int) =~= cells@);
    (min_x, max_x, min_y, max_y)
}

/// Compute all precomputed data of a rule.
pub fn compute_rule_data(rule: &Rule) -> (data: RuleData)
    requires
        rule_in_bounds(*rule),
    ensures
        rule_data_of(data, *rule),
{
    let affected_cells = compute_affected_cells(rule);
    let bbox = compute_bbox(&affected_cells);
    let pattern = effective_pattern(rule);
    let np = pattern.len();
    let mut pattern_cells: Vec<(i32, i32)> = Vec::new();
    let mut k: usize = 0;
    while k < np
        invariant
            np == pattern@.len(),
            pattern@ == spec_effective_pattern(*rule),
            k <= np,
            pattern_cells@ =~= pattern@.take(k as int).map_values(|e: (i32, i32, CellType)| (e.0, e.1)),
        decreases np - k,
    {
        let (dx, dy, _) = pattern[k];
        pattern_cells.push((dx, dy));
        assert(pattern@.take(k as int + 1) =~= pattern@.take(k as int).push(pattern@[k as int]));
        k += 1;
    }
    assert(pattern@.take(np as int) =~= pattern@);
    let shift_targets = compute_shift_targets(rule);
    proof {
        assert forall|a: int| 0 <= a < shift_targets@.len() implies -0x10000 < (
        #[trigger] shift_targets@[a]).0 < 0x10000 && -0x10000 < shift_targets@[a].1 < 0x10000 by {
            lemma_shift_targets_small(*rule, a);
        }
    }
    let total_shift = sum_offsets(&shift_targets);
    let write_cells = compute_write_cells(rule, &shift_targets);
    RuleData { affected_cells, bbox, pattern_cells, total_shift, shift_targets, write_cells }
}

// ---------------------------------------------------------------------------
// Simultaneous matching and write overlap
// ---------------------------------------------------------------------------

/// Type of the first explicit pattern entry at `(x, y)`, searching from entry `k`.
pub open spec fn first_pattern_type(p: Seq<(i8, i8, CellType)>, k: int, x: int, y: int) -> Option<u8>
    decreases p.len() - k,
{
    if k >= p.len() || k < 0 {
        None
    } else if p[k].0 as int == x && p[k].1 as int == y {
        Some(p[k].2.0)
    } else {
        first_pattern_type(p, k + 1, x, y)
    }
}

/// Cell type the rule expects at `(x, y)`: the first explicit pattern entry there, else
/// `id[x]` on row 0, else 0.
pub open spec fn spec_pattern_type(rule: Rule, x: int, y: int) -> u8 {
    match first_pattern_type(rule.pattern@, 0, x, y) {
        Some(t) => t,
        None => if y == 0 && 0 <= x < rule.id@.len() {
            rule.id@[x].0
        } else {
            0
        },
    }
}

/// With rule `j` matched `(dx, dy)` away from rule `i`, every cell both patterns read is
/// expected to hold the same type by both: the two matches can coexist.
pub open spec fn spec_compatible(ri: Rule, rj: Rule, dx: int, dy: int) -> bool {
    let pi = spec_pattern_cells(ri);
    let pj = spec_pattern_cells(rj);
    forall|a: int, b: int|
        0 <= a < pi.len() && 0 <= b < pj.len() && #[trigger] pi[a].0 == #[trigger] pj[b].0 + dx && pi[a].1
            == pj[b].1 + dy ==> spec_pattern_type(ri, pi[a].0 as int, pi[a].1 as int) == spec_pattern_type(
            rj,
            pj[b].0 as int,
            pj[b].1 as int,
        )
}

/// Two written-cell lists overlap when the second is shifted by `(dx, dy)`.
pub open spec fn writes_overlap_at(wi: Seq<(i32, i32)>, wj: Seq<(i32, i32)>, dx: int, dy: int) -> bool {
    exists|a: int, b: int|
        0 <= a < wi.len() && 0 <= b < wj.len() && #[trigger] wi[a].0 == #[trigger] wj[b].0 + dx && wi[a].1
            == wj[b].1 + dy
}

/// Two rules conflict when some cell written by one and some cell written by the other
/// coincide for a relative placement at which both can match.
pub open spec fn spec_rules_conflict(ri: Rule, rj: Rule) -> bool {
    exists|wi: (i32, i32), wj: (i32, i32)|
        #[trigger] in_write_set(ri, wi) && #[trigger] in_write_set(rj, wj) && spec_compatible(
            ri,
            rj,
            wi.0 - wj.0,
            wi.1 - wj.1,
        )
}

/// A rule conflicts with itself when two of its matches at different positions can
/// coexist and write a common cell.
pub open spec fn spec_self_conflict(r: Rule) -> bool {
    exists|wi: (i32, i32), wj: (i32, i32)|
        #[trigger] in_write_set(r, wi) && #[trigger] in_write_set(r, wj) && wi != wj && spec_compatible(
            r,
            r,
            wi.0 - wj.0,
            wi.1 - wj.1,
        )
}

/// Bound on the coordinates of precomputed cells.
pub open spec fn cell_bound() -> int {
    coord_bound() + 0x10000
}

pub(crate) proof fn lemma_data_bounds(data: RuleData, rule: Rule)
    requires
        rule_data_of(data, rule),
        rule_in_bounds(rule),
    ensures
        -cell_bound() <= data.bbox.0 <= 0 <= data.bbox.1 <= cell_bound(),
        -cell_bound() <= data.bbox.2 <= 0 <= data.bbox.3 <= cell_bound(),
        forall|a: int|
            0 <= a < data.pattern_cells@.len() ==> -cell_bound() <= (#[trigger] data.pattern_cells@[a]).0
                <= cell_bound() && -cell_bound() <= data.pattern_cells@[a].1 <= cell_bound(),
        forall|a: int|
            0 <= a < data.write_cells@.len() ==> data.bbox.0 <= (#[trigger] data.write_cells@[a]).0
                <= data.bbox.1 && data.bbox.2 <= data.write_cells@[a].1 <= data.bbox.3,
{
    let ac = data.affected_cells@;
    assert(in_affected_set(rule, (0i32, 0i32)));
    assert(ac.contains((0i32, 0i32)));
    let z = choose|k: int| 0 <= k < ac.len() && ac[k] == (0i32, 0i32);
    lemma_bbox_contains(ac, z);
    lemma_bbox_attained(ac);
    let k0 = choose|k: int| 0 <= k < ac.len() && ac[k].0 == bbox_of(ac).0;
    let k1 = choose|k: int| 0 <= k < ac.len() && ac[k].0 == bbox_of(ac).1;
    let k2 = choose|k: int| 0 <= k < ac.len() && ac[k].1 == bbox_of(ac).2;
    let k3 = choose|k: int| 0 <= k < ac.len() && ac[k].1 == bbox_of(ac).3;
    assert(ac.contains(ac[k0]));
    assert(ac.contains(ac[k1]));
    assert(ac.contains(ac[k2]));
    assert(ac.contains(ac[k3]));
    lemma_affected_set_small(rule, ac[k0]);
    lemma_affected_set_small(rule, ac[k1]);
    lemma_affected_set_small(rule, ac[k2]);
    lemma_affected_set_small(rule, ac[k3]);
    assert forall|a: int| 0 <= a < data.pattern_cells@.len() implies -cell_bound() <= (
    #[trigger] data.pattern_cells@[a]).0 <= cell_bound() && -cell_bound() <= data.pattern_cells@[a].1
        <= cell_bound() by {
        assert(spec_pattern_cells(rule).contains(data.pattern_cells@[a]));
        lemma_affected_set_small(rule, data.pattern_cells@[a]);
    }
    assert forall|a: int| 0 <= a < data.write_cells@.len() implies data.bbox.0 <= (
    #[trigger] data.write_cells@[a]).0 <= data.bbox.1 && data.bbox.2 <= data.write_cells@[a].1
        <= data.bbox.3 by {
        let c = data.write_cells@[a];
        assert(data.write_cells@.contains(c));
        assert(in_affected_set(rule, c));
        assert(ac.contains(c));
        let k = choose|k: int| 0 <= k < ac.len() && ac[k] == c;
        lemma_bbox_contains(ac, k);
    }
}

/// Cell type the rule expects at `(x, y)` of its pattern.
fn get_pattern_type(rule: &Rule, x: i32, y: i32) -> (t: u8)
    requires
        rule_in_bounds(*rule),
    ensures
        t == spec_pattern_type(*rule, x as int, y as int),
{
    let n = rule.pattern.len();
    let mut k: usize = 0;
    while k < n
        invariant
            n == rule.pattern@.len(),
            k <= n,
            first_pattern_type(rule.pattern@, 0, x as int, y as int) == first_pattern_type(
                rule.pattern@,
                k as int,
                x as int,
                y as int,
            ),
        decreases n - k,
    {
        let (dx, dy, ct) = rule.pattern[k];
        if dx as i32 == x && dy as i32 == y {
            return ct.0;
        }
        k += 1;
    }
    if y == 0 && x >= 0 {
        let idx = x as usize;
        if idx < rule.id.len() {
            return rule.id[idx].0;
        }
    }
    0
}

/// Whether rule `j`, matched `(dx, dy)` away from rule `i`, can match at the same time:
/// every cell both patterns read must be expected to hold the same type by both.
fn can_match_simultaneously(
    rule_i: &Rule,
    rule_j: &Rule,
    data_i: &RuleData,
    data_j: &RuleData,
    dx: i32,
    dy: i32,
) -> (r: bool)
    requires
        rule_in_bounds(*rule_i),
        rule_in_bounds(*rule_j),
        rule_data_of(*data_i, *rule_i),
        rule_data_of(*data_j, *rule_j),
        -2 * cell_bound() <= dx <= 2 * cell_bound(),
        -2 * cell_bound() <= dy <= 2 * cell_bound(),
    ensures
        r == spec_compatible(*rule_i, *rule_j, dx as int, dy as int),
{
    proof {
        lemma_data_bounds(*data_i, *rule_i);
        lemma_data_bounds(*data_j, *rule_j);
    }
    let ghost pi = spec_pattern_cells(*rule_i);
    let ghost pj = spec_pattern_cells(*rule_j);
    let ni = data_i.pattern_cells.len();
    let nj = data_j.pattern_cells.len();
    let mut a: usize = 0;
    while a < ni
        invariant
            ni == pi.len(),
            nj == pj.len(),
            pi == data_i.pattern_cells@,
            pj == data_j.pattern_cells@,
            pi == spec_pattern_cells(*rule_i),
            pj == spec_pattern_cells(*rule_j),
            rule_in_bounds(*rule_i),
            rule_in_bounds(*rule_j),
            -2 * cell_bound() <= dx <= 2 * cell_bound(),
            -2 * cell_bound() <= dy <= 2 * cell_bound(),
            forall|a2: int|
                0 <= a2 < nj ==> -cell_bound() <= (#[trigger] pj[a2]).0 <= cell_bound() && -cell_bound()
                    <= pj[a2].1 <= cell_bound(),
            a <= ni,
            forall|a2: int, b: int|
                0 <= a2 < a && 0 <= b < nj && #[trigger] pi[a2].0 == #[trigger] pj[b].0 + dx && pi[a2].1
                    == pj[b].1 + dy ==> spec_pattern_type(*rule_i, pi[a2].0 as int, pi[a2].1 as int)
                    == spec_pattern_type(*rule_j, pj[b].0 as int, pj[b].1 as int),
        decreases ni - a,
    {
        let (px_i, py_i) = data_i.pattern_cells[a];
        let mut b: usize = 0;
        while b < nj
            invariant
                ni == pi.len(),
                nj == pj.len(),
                pi == data_i.pattern_cells@,
                pj == data_j.pattern_cells@,
                pi == spec_pattern_cells(*rule_i),
                pj == spec_pattern_cells(*rule_j),
                rule_in_bounds(*rule_i),
                rule_in_bounds(*rule_j),
                -2 * cell_bound() <= dx <= 2 * cell_bound(),
                -2 * cell_bound() <= dy <= 2 * cell_bound(),
                forall|a2: int|
                    0 <= a2 < nj ==> -cell_bound() <= (#[trigger] pj[a2]).0 <= cell_bound() && -cell_bound()
                        <= pj[a2].1 <= cell_bound(),
                a < ni,
                (px_i, py_i) == pi[a as int],
                b <= nj,
                forall|a2: int, b2: int|
                    0 <= a2 < a && 0 <= b2 < nj && #[trigger] pi[a2].0 == #[trigger] pj[b2].0 + dx && pi[a2].1
                        == pj[b2].1 + dy ==> spec_pattern_type(*rule_i, pi[a2].0 as int, pi[a2].1 as int)
                        == spec_pattern_type(*rule_j, pj[b2].0 as int, pj[b2].1 as int),
                forall|b2: int|
                    0 <= b2 < b && pi[a as int].0 == #[trigger] pj[b2].0 + dx && pi[a as int].1 == pj[b2].1 + dy
                        ==> spec_pattern_type(*rule_i, pi[a as int].0 as int, pi[a as int].1 as int)
                        == spec_pattern_type(*rule_j, pj[b2].0 as int, pj[b2].1 as int),
            decreases nj - b,
        {
            let (px_j, py_j) = data_j.pattern_cells[b];
            if px_i == px_j + dx && py_i == py_j + dy {
                let type_i = get_pattern_type(rule_i, px_i, py_i);
                let type_j = get_pattern_type(rule_j, px_j, py_j);
                if type_i != type_j {
                    assert(pi[a as int].0 == pj[b as int].0 + dx && pi[a as int].1 == pj[b as int].1 + dy);
                    return false;
                }
            }
            b += 1;
        }
        a += 1;
    }
    true
}

/// Whether the written cells of the two rules overlap when rule `j` is placed `(dx, dy)`
/// away from rule `i`. The bounding boxes serve as a quick filter.
fn affected_regions_overlap(
    rule_i: &Rule,
    rule_j: &Rule,
    data_i: &RuleData,
    data_j: &RuleData,
    dx: i32,
    dy: i32,
) -> (r: bool)
    requires
        rule_in_bounds(*rule_i),
        rule_in_bounds(*rule_j),
        rule_data_of(*data_i, *rule_i),
        rule_data_of(*data_j, *rule_j),
        -2 * cell_bound() <= dx <= 2 * cell_bound(),
        -2 * cell_bound() <= dy <= 2 * cell_bound(),
    ensures
        r == writes_overlap_at(data_i.write_cells@, data_j.write_cells@, dx as int, dy as int),
{
    proof {
        lemma_data_bounds(*data_i, *rule_i);
        lemma_data_bounds(*data_j, *rule_j);
    }
    let (bb_min_x_i, bb_max_x_i, bb_min_y_i, bb_max_y_i) = data_i.bbox;
    let (bb_min_x_j, bb_max_x_j, bb_min_y_j, bb_max_y_j) = data_j.bbox;
    let j_bb_min_x = bb_min_x_j + dx;
    let j_bb_max_x = bb_max_x_j + dx;
    let j_bb_min_y = bb_min_y_j + dy;
    let j_bb_max_y = bb_max_y_j + dy;
    let ghost wi = data_i.write_cells@;
    let ghost wj = data_j.write_cells@;
    if bb_max_x_i < j_bb_min_x || bb_min_x_i > j_bb_max_x {
        return false;
    }
    if bb_max_y_i < j_bb_min_y || bb_min_y_i > j_bb_max_y {
        return false;
    }
    let ni = data_i.write_cells.len();
    let nj = data_j.write_cells.len();
    let mut a: usize = 0;
    while a < ni
        invariant
            ni == wi.len(),
            nj == wj.len(),
            wi == data_i.write_cells@,
            wj == data_j.write_cells@,
            -2 * cell_bound() <= dx <= 2 * cell_bound(),
            -2 * cell_bound() <= dy <= 2 * cell_bound(),
            forall|a2: int|
                0 <= a2 < wj.len() ==> data_j.bbox.0 <= (#[trigger] wj[a2]).0 <= data_j.bbox.1
                    && data_j.bbox.2 <= wj[a2].1 <= data_j.bbox.3,
            -cell_bound() <= data_j.bbox.0 <= data_j.bbox.1 <= cell_bound(),
            -cell_bound() <= data_j.bbox.2 <= data_j.bbox.3 <= cell_bound(),
            a <= ni,
            forall|a2: int, b: int|
                0 <= a2 < a && 0 <= b < nj ==> !(#[trigger] wi[a2].0 == #[trigger] wj[b].0 + dx && wi[a2].1
                    == wj[b].1 + dy),
        decreases ni - a,
    {
        let (x_i, y_i) = data_i.write_cells[a];
        let mut b: usize = 0;
        while b < nj
            invariant
                ni == wi.len(),
                nj == wj.len(),
                wi == data_i.write_cells@,
                wj == data_j.write_cells@,
                -2 * cell_bound() <= dx <= 2 * cell_bound(),
                -2 * cell_bound() <= dy <= 2 * cell_bound(),
                forall|a2: int|
                    0 <= a2 < wj.len() ==> data_j.bbox.0 <= (#[trigger] wj[a2]).0 <= data_j.bbox.1
                        && data_j.bbox.2 <= wj[a2].1 <= data_j.bbox.3,
                -cell_bound() <= data_j.bbox.0 <= data_j.bbox.1 <= cell_bound(),
                -cell_bound() <= data_j.bbox.2 <= data_j.bbox.3 <= cell_bound(),
                a < ni,
                (x_i, y_i) == wi[a as int],
                b <= nj,
                forall|a2: int, b2: int|
                    0 <= a2 < a && 0 <= b2 < nj ==> !(#[trigger] wi[a2].0 == #[trigger] wj[b2].0 + dx
                        && wi[a2].1 == wj[b2].1 + dy),
                forall|b2: int|
                    0 <= b2 < b ==> !(wi[a as int].0 == #[trigger] wj[b2].0 + dx && wi[a as int].1 == wj[b2].1
                        + dy),
            decreases nj - b,
        {
            let (x_j, y_j) = data_j.write_cells[b];
            if x_i == x_j + dx && y_i == y_j + dy {
                assert(wi[a as int].0 == wj[b as int].0 + dx);
                return true;
            }
            b += 1;
        }
        a += 1;
    }
    false
}

/// Two write cells, one of each rule, give an offset inside the range the conflict search scans.
proof fn lemma_write_pair_in_range(
    rule_i: Rule,
    rule_j: Rule,
    data_i: RuleData,
    data_j: RuleData,
    wi: (i32, i32),
    wj: (i32, i32),
)
    requires
        rule_in_bounds(rule_i),
        rule_in_bounds(rule_j),
        rule_data_of(data_i, rule_i),
        rule_data_of(data_j, rule_j),
        in_write_set(rule_i, wi),
        in_write_set(rule_j, wj),
    ensures
        data_i.bbox.0 - data_j.bbox.1 <= wi.0 - wj.0 <= data_i.bbox.1 - data_j.bbox.0,
        data_i.bbox.2 - data_j.bbox.3 <= wi.1 - wj.1 <= data_i.bbox.3 - data_j.bbox.2,
        writes_overlap_at(data_i.write_cells@, data_j.write_cells@, wi.0 - wj.0, wi.1 - wj.1),
{
    lemma_data_bounds(data_i, rule_i);
    lemma_data_bounds(data_j, rule_j);
    assert(data_i.write_cells@.contains(wi));
    assert(data_j.write_cells@.contains(wj));
    let a = choose|a: int| 0 <= a < data_i.write_cells@.len() && data_i.write_cells@[a] == wi;
    let b = choose|b: int| 0 <= b < data_j.write_cells@.len() && data_j.write_cells@[b] == wj;
    assert(data_i.write_cells@[a].0 == data_j.write_cells@[b].0 + (wi.0 - wj.0));
}

/// An overlap found at an offset yields two write cells with that difference.
proof fn lemma_overlap_witness(
    rule_i: Rule,
    rule_j: Rule,
    data_i: RuleData,
    data_j: RuleData,
    dx: int,
    dy: int,
) -> (w: ((i32, i32), (i32, i32)))
    requires
        rule_data_of(data_i, rule_i),
        rule_data_of(data_j, rule_j),
        writes_overlap_at(data_i.write_cells@, data_j.write_cells@, dx, dy),
    ensures
        in_write_set(rule_i, w.0),
        in_write_set(rule_j, w.1),
        w.0.0 - w.1.0 == dx,
        w.0.1 - w.1.1 == dy,
{
    let wi = data_i.write_cells@;
    let wj = data_j.write_cells@;
    let (a, b) = choose|a: int, b: int|
        0 <= a < wi.len() && 0 <= b < wj.len() && #[trigger] wi[a].0 == #[trigger] wj[b].0 + dx && wi[a].1
            == wj[b].1 + dy;
    assert(wi.contains(wi[a]));
    assert(wj.contains(wj[b]));
    (wi[a], wj[b])
}

/// Whether two rules conflict: some relative placement lets both match and makes their
/// written cells overlap. Only placements where the bounding boxes intersect are scanned.
fn rules_conflict(rule_i: &Rule, rule_j: &Rule, data_i: &RuleData, data_j: &RuleData) -> (r: bool)
    requires
        rule_in_bounds(*rule_i),
        rule_in_bounds(*rule_j),
        rule_data_of(*data_i, *rule_i),
        rule_data_of(*data_j, *rule_j),
    ensures
        r == spec_rules_conflict(*rule_i, *rule_j),
{
    proof {
        lemma_data_bounds(*data_i, *rule_i);
        lemma_data_bounds(*data_j, *rule_j);
    }
    let ghost wi = data_i.write_cells@;
    let ghost wj = data_j.write_cells@;
    let (bb_min_x_i, bb_max_x_i, bb_min_y_i, bb_max_y_i) = data_i.bbox;
    let (bb_min_x_j, bb_max_x_j, bb_min_y_j, bb_max_y_j) = data_j.bbox;
    let dx_min = bb_min_x_i - bb_max_x_j;
    let dx_max = bb_max_x_i - bb_min_x_j;
    let dy_min = bb_min_y_i - bb_max_y_j;
    let dy_max = bb_max_y_i - bb_min_y_j;
    let mut dx = dx_min;
    while dx <= dx_max
        invariant
            rule_in_bounds(*rule_i),
            rule_in_bounds(*rule_j),
            rule_data_of(*data_i, *rule_i),
            rule_data_of(*data_j, *rule_j),
            wi == data_i.write_cells@,
            wj == data_j.write_cells@,
            -2 * cell_bound() <= dx_min <= dx_max <= 2 * cell_bound(),
            -2 * cell_bound() <= dy_min <= dy_max <= 2 * cell_bound(),
            dx_min <= dx <= dx_max + 1,
            forall|ex: int, ey: int|
                dx_min <= ex < dx && dy_min <= ey <= dy_max ==> !(#[trigger] spec_compatible(
                    *rule_i,
                    *rule_j,
                    ex,
                    ey,
                ) && writes_overlap_at(wi, wj, ex, ey)),
        decreases dx_max - dx + 1,
    {
        let mut dy = dy_min;
        while dy <= dy_max
            invariant
                rule_in_bounds(*rule_i),
                rule_in_bounds(*rule_j),
                rule_data_of(*data_i, *rule_i),
                rule_data_of(*data_j, *rule_j),
                wi == data_i.write_cells@,
                wj == data_j.write_cells@,
                -2 * cell_bound() <= dx_min <= dx_max <= 2 * cell_bound(),
                -2 * cell_bound() <= dy_min <= dy_max <= 2 * cell_bound(),
                dx_min <= dx <= dx_max,
                dy_min <= dy <= dy_max + 1,
                forall|ex: int, ey: int|
                    dx_min <= ex < dx && dy_min <= ey <= dy_max ==> !(#[trigger] spec_compatible(
                        *rule_i,
                        *rule_j,
                        ex,
                        ey,
                    ) && writes_overlap_at(wi, wj, ex, ey)),
                forall|ey: int|
                    dy_min <= ey < dy ==> !(#[trigger] spec_compatible(*rule_i, *rule_j, dx as int, ey)
                        && writes_overlap_at(wi, wj, dx as int, ey)),
            decreases dy_max - dy + 1,
        {
            if can_match_simultaneously(rule_i, rule_j, data_i, data_j, dx, dy) {
                if affected_regions_overlap(rule_i, rule_j, data_i, data_j, dx, dy) {
                    proof {
                        let w = lemma_overlap_witness(*rule_i, *rule_j, *data_i, *data_j, dx as int, dy as int);
                        assert(in_write_set(*rule_i, w.0) && in_write_set(*rule_j, w.1) && spec_compatible(
                            *rule_i,
                            *rule_j,
                            w.0.0 - w.1.0,
                            w.0.1 - w.1.1,
                        ));
                    }
                    return true;
                }
            }
            dy += 1;
        }
        dx += 1;
    }
    proof {
        assert forall|a: (i32, i32), b: (i32, i32)|
            #[trigger] in_write_set(*rule_i, a) && #[trigger] in_write_set(*rule_j, b) implies !spec_compatible(
            *rule_i,
            *rule_j,
            a.0 - b.0,
            a.1 - b.1,
        ) by {
            lemma_write_pair_in_range(*rule_i, *rule_j, *data_i, *data_j, a, b);
        }
    }
    false
}

/// Whether a rule conflicts with itself: two of its matches at different positions can
/// coexist and write a common cell. The offset `(0, 0)` is the same match, not two.
fn rule_self_conflicts(rule: &Rule, data: &RuleData) -> (r: bool)
    requires
        rule_in_bounds(*rule),
        rule_data_of(*data, *rule),
    ensures
        r == spec_self_conflict(*rule),
{
    proof {
        lemma_data_bounds(*data, *rule);
    }
    let ghost w = data.write_cells@;
    let (bb_min_x, bb_max_x, bb_min_y, bb_max_y) = data.bbox;
    let dx_min = bb_min_x - bb_max_x;
    let dx_max = bb_max_x - bb_min_x;
    let dy_min = bb_min_y - bb_max_y;
    let dy_max = bb_max_y - bb_min_y;
    let mut dx = dx_min;
    while dx <= dx_max
        invariant
            rule_in_bounds(*rule),
            rule_data_of(*data, *rule),
            w == data.write_cells@,
            -2 * cell_bound() <= dx_min <= dx_max <= 2 * cell_bound(),
            -2 * cell_bound() <= dy_min <= dy_max <= 2 * cell_bound(),
            dx_min <= dx <= dx_max + 1,
            forall|ex: int, ey: int|
                dx_min <= ex < dx && dy_min <= ey <= dy_max && !(ex == 0 && ey == 0) ==> !(
                #[trigger] spec_compatible(*rule, *rule, ex, ey) && writes_overlap_at(w, w, ex, ey)),
        decreases dx_max - dx + 1,
    {
        let mut dy = dy_min;
        while dy <= dy_max
            invariant
                rule_in_bounds(*rule),
                rule_data_of(*data, *rule),
                w == data.write_cells@,
                -2 * cell_bound() <= dx_min <= dx_max <= 2 * cell_bound(),
                -2 * cell_bound() <= dy_min <= dy_max <= 2 * cell_bound(),
                dx_min <= dx <= dx_max,
                dy_min <= dy <= dy_max + 1,
                forall|ex: int, ey: int|
                    dx_min <= ex < dx && dy_min <= ey <= dy_max && !(ex == 0 && ey == 0) ==> !(
                    #[trigger] spec_compatible(*rule, *rule, ex, ey) && writes_overlap_at(w, w, ex, ey)),
                forall|ey: int|
                    dy_min <= ey < dy && !(dx == 0 && ey == 0) ==> !(#[trigger] spec_compatible(
                        *rule,
                        *rule,
                        dx as int,
                        ey,
                    ) && writes_overlap_at(w, w, dx as int, ey)),
            decreases dy_max - dy + 1,
        {
            if !(dx == 0 && dy == 0) {
                if can_match_simultaneously(rule, rule, data, data, dx, dy) {
                    if affected_regions_overlap(rule, rule, data, data, dx, dy) {
                        proof {
                            let p = lemma_overlap_witness(*rule, *rule, *data, *data, dx as int, dy as int);
                            assert(p.0 != p.1);
                            assert(in_write_set(*rule, p.0) && in_write_set(*rule, p.1) && p.0 != p.1
                                && spec_compatible(*rule, *rule, p.0.0 - p.1.0, p.0.1 - p.1.1));
                        }
                        return true;
                    }
                }
            }
            dy += 1;
        }
        dx += 1;
    }
    proof {
        assert forall|a: (i32, i32), b: (i32, i32)|
            #[trigger] in_write_set(*rule, a) && #[trigger] in_write_set(*rule, b) && a != b implies !spec_compatible(
            *rule,
            *rule,
            a.0 - b.0,
            a.1 - b.1,
        ) by {
            lemma_write_pair_in_range(*rule, *rule, *data, *data, a, b);
            assert(!(a.0 - b.0 == 0 && a.1 - b.1 == 0));
        }
    }
    false
}

// ---------------------------------------------------------------------------
// Grid context: boundary buffers that absorb overflowing shifts
// ---------------------------------------------------------------------------

/// Grid facts that sharpen the analysis of overflowing shifts: the size of the grid and the
/// cells that hold a boundary buffer.
pub struct GridContext {
    pub width: usize,
    pub height: usize,
    pub boundaries: Vec<(usize, usize)>,
}

/// `x - 1`, saturating at 0.
pub open spec fn sat_dec(x: usize) -> usize {
    if x == 0 {
        0
    } else {
        (x - 1) as usize
    }
}

/// Every cell of the grid edge a shift in `direction` runs into holds a boundary buffer.
pub open spec fn spec_edge_covered(direction: Direction, g: GridContext) -> bool {
    match direction {
        Direction::Right => forall|y: usize| y < g.height ==> g.boundaries@.contains((sat_dec(g.width), y)),
        Direction::Left => forall|y: usize| y < g.height ==> g.boundaries@.contains((0usize, y)),
        Direction::Down => forall|x: usize| x < g.width ==> g.boundaries@.contains((x, sat_dec(g.height))),
        Direction::Up => forall|x: usize| x < g.width ==> g.boundaries@.contains((x, 0usize)),
    }
}

/// Every overflow of every shift of the rule provably lands in a boundary buffer.
pub open spec fn spec_boundary_exempt(rule: Rule, grid: Option<GridContext>) -> bool {
    match grid {
        None => false,
        Some(g) => forall|k: int|
            0 <= k < flatten_groups(rule.shifts@).len() ==> spec_edge_covered(
                #[trigger] flatten_groups(rule.shifts@)[k].direction,
                g,
            ),
    }
}

/// A shifting rule whose overflow writes to the (clamped) grid edge, which the relative
/// analysis cannot place: it must be assumed to conflict.
pub open spec fn spec_forced(rule: Rule, grid: Option<GridContext>) -> bool {
    &&& rule.shifts@.len() > 0
    &&& (rule.overflow is Write || rule.overflow is WriteLiteral)
    &&& !spec_boundary_exempt(rule, grid)
}

/// The rule writes at least one cell.
pub open spec fn has_writes(rule: Rule) -> bool {
    exists|c: (i32, i32)| #[trigger] in_write_set(rule, c)
}

/// Two different rules may conflict.
pub open spec fn spec_pair_conflict(ri: Rule, rj: Rule, grid: Option<GridContext>) -> bool {
    ||| (spec_forced(ri, grid) || spec_forced(rj, grid)) && has_writes(ri) && has_writes(rj)
    ||| spec_rules_conflict(ri, rj)
}

/// A rule may conflict with itself.
pub open spec fn spec_self_edge(r: Rule, grid: Option<GridContext>) -> bool {
    spec_forced(r, grid) || spec_self_conflict(r)
}

/// Edge `(i, j)`, `i <= j`, of the conflict graph of `rules`.
pub open spec fn spec_edge(rules: Seq<Rule>, grid: Option<GridContext>, i: int, j: int) -> bool {
    if i == j {
        spec_self_edge(rules[i], grid)
    } else {
        spec_pair_conflict(rules[i], rules[j], grid)
    }
}

/// Edges `(i, i)` and `(i, j)` for `i < j' < j`, in order.
pub open spec fn row_until(rules: Seq<Rule>, grid: Option<GridContext>, i: int, j: int) -> Seq<(usize, usize)>
    decreases j - i,
{
    if j <= i + 1 {
        if spec_edge(rules, grid, i, i) {
            seq![(i as usize, i as usize)]
        } else {
            Seq::empty()
        }
    } else {
        row_until(rules, grid, i, j - 1) + if spec_edge(rules, grid, i, j - 1) {
            seq![(i as usize, (j - 1) as usize)]
        } else {
            Seq::empty()
        }
    }
}

/// Edges whose first index is below `i`, in order.
pub open spec fn edges_until(rules: Seq<Rule>, grid: Option<GridContext>, i: int) -> Seq<(usize, usize)>
    decreases i,
{
    if i <= 0 {
        Seq::empty()
    } else {
        edges_until(rules, grid, i - 1) + row_until(rules, grid, i - 1, rules.len() as int)
    }
}

/// The edge list of the conflict graph of `rules`, ordered by `(i, j)`.
pub open spec fn spec_conflict_edges(rules: Seq<Rule>, grid: Option<GridContext>) -> Seq<(usize, usize)> {
    edges_until(rules, grid, rules.len() as int)
}

pub open spec fn opt_grid(grid: Option<&GridContext>) -> Option<GridContext> {
    match grid {
        Some(g) => Some(*g),
        None => None,
    }
}

/// `g.boundaries` holds `(x, y)`.
fn has_boundary(g: &GridContext, x: usize, y: usize) -> (b: bool)
    ensures
        b == g.boundaries@.contains((x, y)),
{
    let n = g.boundaries.len();
    let mut k: usize = 0;
    while k < n
        invariant
            n == g.boundaries@.len(),
            k <= n,
            forall|k2: int| 0 <= k2 < k ==> g.boundaries@[k2] != (x, y),
        decreases n - k,
    {
        let (bx, by) = g.boundaries[k];
        if bx == x && by == y {
            assert(g.boundaries@[k as int] == (x, y));
            return true;
        }
        k += 1;
    }
    false
}

/// Every cell of the edge that a shift in `direction` runs into holds a boundary buffer.
fn edge_fully_boundary_covered(direction: Direction, grid: &GridContext) -> (b: bool)
    ensures
        b == spec_edge_covered(direction, *grid),
{
    let w = grid.width;
    let h = grid.height;
    let wl = if w == 0 { 0 } else { w - 1 };
    let hl = if h == 0 { 0 } else { h - 1 };
    let (along_y, fixed, limit) = match direction {
        Direction::Right => (true, wl, h),
        Direction::Left => (true, 0, h),
        Direction::Down => (false, hl, w),
        Direction::Up => (false, 0, w),
    };
    assert(direction == Direction::Right ==> along_y && fixed == sat_dec(w) && limit == h);
    assert(direction == Direction::Left ==> along_y && fixed == 0 && limit == h);
    assert(direction == Direction::Down ==> !along_y && fixed == sat_dec(h) && limit == w);
    assert(direction == Direction::Up ==> !along_y && fixed == 0 && limit == w);
    let mut k: usize = 0;
    while k < limit
        invariant
            w == grid.width,
            h == grid.height,
            direction == Direction::Right ==> along_y && fixed == sat_dec(w) && limit == h,
            direction == Direction::Left ==> along_y && fixed == 0 && limit == h,
            direction == Direction::Down ==> !along_y && fixed == sat_dec(h) && limit == w,
            direction == Direction::Up ==> !along_y && fixed == 0 && limit == w,
            k <= limit,
            along_y ==> forall|y: usize| y < k ==> grid.boundaries@.contains((fixed, y)),
            !along_y ==> forall|x: usize| x < k ==> grid.boundaries@.contains((x, fixed)),
        decreases limit - k,
    {
        let ok = if along_y {
            has_boundary(grid, fixed, k)
        } else {
            has_boundary(grid, k, fixed)
        };
        if !ok {
            return false;
        }
        k += 1;
    }
    true
}

/// Every overflow of every shift of the rule lands in a boundary buffer.
fn boundary_exempt(rule: &Rule, grid: Option<&GridContext>) -> (b: bool)
    ensures
        b == spec_boundary_exempt(*rule, opt_grid(grid)),
{
    let g = match grid {
        None => return false,
        Some(g) => g,
    };
    assert(opt_grid(grid) == Some(*g));
    let ghost flat = flatten_groups(rule.shifts@);
    let ng = rule.shifts.len();
    let mut gi: usize = 0;
    while gi < ng
        invariant
            opt_grid(grid) == Some(*g),
            ng == rule.shifts@.len(),
            gi <= ng,
            flat == flatten_groups(rule.shifts@),
            forall|k: int|
                0 <= k < flatten_groups(rule.shifts@.take(gi as int)).len() ==> spec_edge_covered(
                    #[trigger] flatten_groups(rule.shifts@.take(gi as int))[k].direction,
                    *g,
                ),
        decreases ng - gi,
    {
        let group = &rule.shifts[gi];
        let ghost before = flatten_groups(rule.shifts@.take(gi as int));
        proof {
            assert(rule.shifts@.take(gi as int + 1).drop_last() =~= rule.shifts@.take(gi as int));
            assert(flatten_groups(rule.shifts@.take(gi as int + 1)) == before + group@);
        }
        let ns = group.len();
        let mut k: usize = 0;
        while k < ns
            invariant
                opt_grid(grid) == Some(*g),
                ng == rule.shifts@.len(),
                gi < ng,
                *group == rule.shifts@[gi as int],
                before == flatten_groups(rule.shifts@.take(gi as int)),
                flatten_groups(rule.shifts@.take(gi as int + 1)) == before + group@,
                flat == flatten_groups(rule.shifts@),
                ns == group@.len(),
                k <= ns,
                forall|k2: int| 0 <= k2 < k ==> spec_edge_covered((#[trigger] group@[k2]).direction, *g),
            decreases ns - k,
        {
            if !edge_fully_boundary_covered(group[k].direction, g) {
                proof {
                    let after = flatten_groups(rule.shifts@.take(gi as int + 1));
                    assert(after[before.len() + k] == group@[k as int]);
                    lemma_flatten_prefix(rule.shifts@, gi as int + 1, before.len() + k);
                    assert(!spec_edge_covered(flat[before.len() + k].direction, *g));
                    assert(0 <= before.len() + k < flat.len());
                    assert(!spec_boundary_exempt(*rule, opt_grid(grid)));
                }
                return false;
            }
            k += 1;
        }
        proof {
            let after = flatten_groups(rule.shifts@.take(gi as int + 1));
            assert forall|k2: int| 0 <= k2 < after.len() implies spec_edge_covered(
                #[trigger] after[k2].direction,
                *g,
            ) by {
                if k2 < before.len() {
                    assert(after[k2] == before[k2]);
                } else {
                    assert(after[k2] == group@[k2 - before.len()]);
                }
            }
        }
        gi += 1;
    }
    assert(rule.shifts@.take(ng as int) =~= rule.shifts@);
    true
}

/// Flattening a prefix of the groups gives a prefix of the flattening.
proof fn lemma_flatten_prefix(groups: Seq<Vec<crate::types::ShiftSpec>>, g: int, k: int)
    requires
        0 <= g <= groups.len(),
        0 <= k < flatten_groups(groups.take(g)).len(),
    ensures
        k < flatten_groups(groups).len(),
        flatten_groups(groups)[k] == flatten_groups(groups.take(g))[k],
    decreases groups.len() - g,
{
    if g < groups.len() {
        assert(groups.take(g + 1).drop_last() =~= groups.take(g));
        lemma_flatten_prefix(groups, g + 1, k);
    } else {
        assert(groups.take(g) =~= groups);
    }
}

/// The rule shifts and writes its overflow to the grid edge, outside any boundary buffer.
fn has_overflow_write_shift(rule: &Rule, grid: Option<&GridContext>) -> (b: bool)
    ensures
        b == spec_forced(*rule, opt_grid(grid)),
{
    let writes_overflow = match rule.overflow {
        OverflowAction::Write(_) => true,
        OverflowAction::WriteLiteral(_) => true,
        OverflowAction::Discard => false,
    };
    rule.shifts.len() > 0 && writes_overflow && !boundary_exempt(rule, grid)
}

// ---------------------------------------------------------------------------
// The conflict graph
// ---------------------------------------------------------------------------

/// Graph of potential conflicts between rules.
#[derive(Debug, Clone)]
pub struct ConflictGraph {
    /// Number of rules.
    pub rule_count: usize,
    /// Conflicting pairs `(i, j)` with `i <= j`; `(i, i)` when rule `i` conflicts with itself.
    pub edges: Vec<(usize, usize)>,
}

/// Outcome of checking the composition of two rule sets, or of running a grid until it
/// settles.
#[derive(Debug, Clone, PartialEq, Eq)]
pub enum CompositionVerdict {
    /// The run settled with this many non-default cells, neither more than twice nor less
    /// than half as many as at the start.
    Bounded(usize),
    /// The run settled with more than twice as many non-default cells as at the start.
    Divergent,
    /// The run settled with less than half as many non-default cells as at the start.
    Shrinking,
    /// The run did not settle within the tick limit.
    NonTerminating,
    /// No potential conflict between a rule of the first set and a rule of the second.
    Safe,
    /// Potential conflicts `(i, j)`: `i` indexes the first set, `j` the second.
    Unsafe(Vec<(usize, usize)>),
}

/// Pairs of the edge list that join the first `n_a` rules with the others, as
/// `(index in the first set, index in the second set)`.
pub open spec fn cross_pairs(e: Seq<(usize, usize)>, n_a: int) -> Seq<(usize, usize)>
    decreases e.len(),
{
    if e.len() == 0 {
        Seq::empty()
    } else {
        let p = e.last();
        let rest = cross_pairs(e.drop_last(), n_a);
        if p.0 < n_a && p.1 >= n_a {
            rest.push((p.0, (p.1 - n_a) as usize))
        } else if p.0 >= n_a && p.1 < n_a {
            rest.push((p.1, (p.0 - n_a) as usize))
        } else {
            rest
        }
    }
}

/// Rule `k` of the concatenation `a ++ b`.
fn rule_at<'a>(a: &'a [Rule], b: &'a [Rule], k: usize) -> (r: &'a Rule)
    requires
        k < a@.len() + b@.len(),
    ensures
        *r == (a@ + b@)[k as int],
{
    if k < a.len() {
        &a[k]
    } else {
        &b[k - a.len()]
    }
}

proof fn lemma_has_writes(data: RuleData, rule: Rule)
    requires
        rule_data_of(data, rule),
    ensures
        has_writes(rule) == (data.write_cells@.len() > 0),
{
    if data.write_cells@.len() > 0 {
        assert(data.write_cells@.contains(data.write_cells@[0]));
        assert(in_write_set(rule, data.write_cells@[0]));
    }
    if has_writes(rule) {
        let c = choose|c: (i32, i32)| #[trigger] in_write_set(rule, c);
        assert(data.write_cells@.contains(c));
    }
}

/// Conflict graph of the concatenation `a ++ b`: every rule is checked against itself and
/// against every later rule.
fn build_over(a: &[Rule], b: &[Rule], grid: Option<&GridContext>) -> (g: ConflictGraph)
    requires
        a@.len() + b@.len() <= usize::MAX,
        rules_in_bounds(a@ + b@),
    ensures
        g.rule_count == a@.len() + b@.len(),
        g.edges@ == spec_conflict_edges(a@ + b@, opt_grid(grid)),
{
    let n = a.len() + b.len();
    let ghost rules = a@ + b@;
    let ghost gr = opt_grid(grid);
    let mut rule_data: Vec<RuleData> = Vec::new();
    let mut k: usize = 0;
    while k < n
        invariant
            n == rules.len(),
            rules == a@ + b@,
            rules_in_bounds(rules),
            k <= n,
            rule_data@.len() == k,
            forall|k2: int| 0 <= k2 < k ==> rule_data_of(#[trigger] rule_data@[k2], rules[k2]),
        decreases n - k,
    {
        let r = rule_at(a, b, k);
        assert(rule_in_bounds(rules[k as int]));
        rule_data.push(compute_rule_data(r));
        k += 1;
    }
    let mut edges: Vec<(usize, usize)> = Vec::new();
    let mut i: usize = 0;
    while i < n
        invariant
            n == rules.len(),
            rules == a@ + b@,
            gr == opt_grid(grid),
            rules_in_bounds(rules),
            rule_data@.len() == n,
            forall|k2: int| 0 <= k2 < n ==> rule_data_of(#[trigger] rule_data@[k2], rules[k2]),
            i <= n,
            edges@ == edges_until(rules, gr, i as int),
        decreases n - i,
    {
        let ri = rule_at(a, b, i);
        assert(rule_in_bounds(rules[i as int]));
        assert(rule_data_of(rule_data@[i as int], rules[i as int]));
        let force_i = has_overflow_write_shift(ri, grid);
        if force_i || rule_self_conflicts(ri, &rule_data[i]) {
            edges.push((i, i));
        }
        assert(edges@ == edges_until(rules, gr, i as int) + row_until(rules, gr, i as int, i as int + 1));
        let mut j: usize = i + 1;
        while j < n
            invariant
                n == rules.len(),
                rules == a@ + b@,
                gr == opt_grid(grid),
                rules_in_bounds(rules),
                rule_data@.len() == n,
                forall|k2: int| 0 <= k2 < n ==> rule_data_of(#[trigger] rule_data@[k2], rules[k2]),
                i < n,
                *ri == rules[i as int],
                force_i == spec_forced(rules[i as int], gr),
                i + 1 <= j <= n,
                edges@ == edges_until(rules, gr, i as int) + row_until(rules, gr, i as int, j as int),
            decreases n - j,
        {
            let rj = rule_at(a, b, j);
            assert(rule_in_bounds(rules[i as int]));
            assert(rule_in_bounds(rules[j as int]));
            assert(rule_data_of(rule_data@[i as int], rules[i as int]));
            assert(rule_data_of(rule_data@[j as int], rules[j as int]));
            proof {
                lemma_has_writes(rule_data@[i as int], rules[i as int]);
                lemma_has_writes(rule_data@[j as int], rules[j as int]);
            }
            let forced = (force_i || has_overflow_write_shift(rj, grid)) && rule_data[i].write_cells.len() > 0
                && rule_data[j].write_cells.len() > 0;
            let ghost before = edges@;
            if forced || rules_conflict(ri, rj, &rule_data[i], &rule_data[j]) {
                edges.push((i, j));
            }
            proof {
                assert(row_until(rules, gr, i as int, j as int + 1) == row_until(rules, gr, i as int, j as int) + if spec_edge(
                    rules,
                    gr,
                    i as int,
                    j as int,
                ) {
                    seq![(i as usize, j as usize)]
                } else {
                    Seq::empty()
                });
                assert(edges@ =~= edges_until(rules, gr, i as int) + row_until(rules, gr, i as int, j as int + 1));
            }
            j += 1;
        }
        proof {
            assert(edges_until(rules, gr, i as int + 1) == edges_until(rules, gr, i as int) + row_until(
                rules,
                gr,
                i as int,
                rules.len() as int,
            ));
        }
        i += 1;
    }
    ConflictGraph { rule_count: n, edges }
}

/// Whether rule `ri` may conflict with rule `rj` (with itself when `same`), given their
/// precomputed data: an edge of the conflict graph without grid facts.
pub(crate) fn rules_may_conflict(ri: &Rule, rj: &Rule, di: &RuleData, dj: &RuleData, same: bool) -> (r: bool)
    requires
        rule_in_bounds(*ri),
        rule_in_bounds(*rj),
        rule_data_of(*di, *ri),
        rule_data_of(*dj, *rj),
        same ==> *ri == *rj && *di == *dj,
    ensures
        r == if same {
            spec_self_edge(*ri, None)
        } else {
            spec_pair_conflict(*ri, *rj, None)
        },
{
    if same {
        has_overflow_write_shift(ri, None) || rule_self_conflicts(ri, di)
    } else {
        proof {
            lemma_has_writes(*di, *ri);
            lemma_has_writes(*dj, *rj);
        }
        let forced = (has_overflow_write_shift(ri, None) || has_overflow_write_shift(rj, None)) && di.write_cells.len()
            > 0 && dj.write_cells.len() > 0;
        forced || rules_conflict(ri, rj, di, dj)
    }
}

impl ConflictGraph {
    /// Build the conflict graph of a rule set. Each rule is also checked against itself:
    /// two matches of one rule at different positions may conflict.
    pub fn build(rules: &[Rule]) -> (g: ConflictGraph)
        requires
            rules_in_bounds(rules@),
        ensures
            g.rule_count == rules@.len(),
            g.edges@ == spec_conflict_edges(rules@, None),
    {
        let empty: Vec<Rule> = Vec::new();
        let _n = rules.len();
        assert(empty@.len() == 0);
        assert(rules@ + empty@ =~= rules@);
        build_over(rules, empty.as_slice(), None)
    }

    /// Like [`ConflictGraph::build`], with grid facts: a shifting rule whose every overflow
    /// lands in a boundary buffer is not forced into conflict with every writing rule.
    pub fn build_with_grid(rules: &[Rule], grid: &GridContext) -> (g: ConflictGraph)
        requires
            rules_in_bounds(rules@),
        ensures
            g.rule_count == rules@.len(),
            g.edges@ == spec_conflict_edges(rules@, Some(*grid)),
    {
        let empty: Vec<Rule> = Vec::new();
        let _n = rules.len();
        assert(empty@.len() == 0);
        assert(rules@ + empty@ =~= rules@);
        build_over(rules, empty.as_slice(), Some(grid))
    }

    /// No conflict is possible: arbitration can be skipped.
    pub fn is_conflict_free(&self) -> (b: bool)
        ensures
            b == (self.edges@.len() == 0),
    {
        self.edges.len() == 0
    }

    /// The potentially conflicting pairs.
    pub fn potential_conflicts(&self) -> (r: &[(usize, usize)])
        ensures
            r@ == self.edges@,
    {
        self.edges.as_slice()
    }

    /// Check the composition of two rule sets: `Safe` when the conflict graph of their union
    /// has no edge, otherwise `Unsafe` with the pairs joining a rule of `rules_a` to a rule
    /// of `rules_b`.
    pub fn check_composition(rules_a: &[Rule], rules_b: &[Rule]) -> (v: CompositionVerdict)
        requires
            rules_a@.len() + rules_b@.len() <= usize::MAX,
            rules_in_bounds(rules_a@ + rules_b@),
        ensures
            spec_composition(v, rules_a@, rules_b@, None),
    {
        check_composition_impl(rules_a, rules_b, None)
    }

    /// Like [`ConflictGraph::check_composition`], with grid facts.
    pub fn check_composition_with_grid(
        rules_a: &[Rule],
        rules_b: &[Rule],
        grid: &GridContext,
    ) -> (v: CompositionVerdict)
        requires
            rules_a@.len() + rules_b@.len() <= usize::MAX,
            rules_in_bounds(rules_a@ + rules_b@),
        ensures
            spec_composition(v, rules_a@, rules_b@, Some(*grid)),
    {
        check_composition_impl(rules_a, rules_b, Some(grid))
    }
}

/// `v` is the verdict on the composition of `a` and `b`: `Safe` exactly when the conflict
/// graph of `a ++ b` has no edge, otherwise `Unsafe` with the edges that join the two sets.
pub open spec fn spec_composition(v: CompositionVerdict, a: Seq<Rule>, b: Seq<Rule>, grid: Option<GridContext>) -> bool {
    let e = spec_conflict_edges(a + b, grid);
    match v {
        CompositionVerdict::Safe => e.len() == 0,
        CompositionVerdict::Unsafe(p) => e.len() > 0 && p@ == cross_pairs(e, a.len() as int),
        _ => false,
    }
}

fn check_composition_impl(rules_a: &[Rule], rules_b: &[Rule], grid: Option<&GridContext>) -> (v: CompositionVerdict)
    requires
        rules_a@.len() + rules_b@.len() <= usize::MAX,
        rules_in_bounds(rules_a@ + rules_b@),
    ensures
        spec_composition(v, rules_a@, rules_b@, opt_grid(grid)),
{
    let graph = build_over(rules_a, rules_b, grid);
    if graph.is_conflict_free() {
        CompositionVerdict::Safe
    } else {
        let n_a = rules_a.len();
        let ne = graph.edges.len();
        let mut pairs: Vec<(usize, usize)> = Vec::new();
        let mut k: usize = 0;
        while k < ne
            invariant
                ne == graph.edges@.len(),
                k <= ne,
                pairs@ == cross_pairs(graph.edges@.take(k as int), n_a as int),
            decreases ne - k,
        {
            let (i, j) = graph.edges[k];
            assert(graph.edges@.take(k as int + 1).drop_last() =~= graph.edges@.take(k as int));
            if i < n_a && j >= n_a {
                pairs.push((i, j - n_a));
            } else if i >= n_a && j < n_a {
                pairs.push((j, i - n_a));
            }
            k += 1;
        }
        assert(graph.edges@.take(ne as int) =~= graph.edges@);
        CompositionVerdict::Unsafe(pairs)
    }
}

// ---------------------------------------------------------------------------
// Cache of precomputed rule data, keyed by (head, position in the head's rules)
// ---------------------------------------------------------------------------

/// Every rule of the index keeps its coordinates within bounds.
pub open spec fn index_in_bounds(index: RuleIndex) -> bool {
    forall|h: int, k: int|
        0 <= h < 256 && 0 <= k < index.rules_of(h).len() ==> rule_in_bounds(#[trigger] index.rules_of(h)[k])
}

/// Precomputed data of every rule of a rule index, keyed by `(head, rule_idx)`: the
/// position of the rule among the rules of its head (several rules may share an id).
pub struct RuleDataCache {
    slots: Vec<Vec<RuleData>>,
}

impl RuleDataCache {
    /// Number of entries stored for head `h`.
    pub closed spec fn len_of(self, h: int) -> nat {
        if 0 <= h < self.slots@.len() {
            self.slots@[h]@.len()
        } else {
            0
        }
    }

    /// Entry `(h, i)`.
    pub closed spec fn entry(self, h: int, i: int) -> RuleData {
        self.slots@[h]@[i]
    }

    /// The cache holds the data of exactly the rules of `index`.
    pub open spec fn caches(self, index: RuleIndex) -> bool {
        forall|h: int|
            0 <= h < 256 ==> self.len_of(h) == index.rules_of(h).len() && forall|i: int|
                0 <= i < index.rules_of(h).len() ==> rule_data_of(
                    #[trigger] self.entry(h, i),
                    index.rules_of(h)[i],
                )
    }
}

/// Build the cache of precomputed data for every rule of the index.
pub fn build_rule_data_cache(rule_index: &RuleIndex) -> (cache: RuleDataCache)
    requires
        index_in_bounds(*rule_index),
    ensures
        cache.caches(*rule_index),
{
    let mut slots: Vec<Vec<RuleData>> = Vec::new();
    let mut h: usize = 0;
    while h < 256
        invariant
            h <= 256,
            index_in_bounds(*rule_index),
            slots@.len() == h,
            forall|h2: int|
                0 <= h2 < h ==> slots@[h2]@.len() == rule_index.rules_of(h2).len() && forall|i: int|
                    0 <= i < rule_index.rules_of(h2).len() ==> rule_data_of(
                        #[trigger] slots@[h2]@[i],
                        rule_index.rules_of(h2)[i],
                    ),
        decreases 256 - h,
    {
        let rules = rule_index.rules(h as u8);
        let mut datas: Vec<RuleData> = Vec::new();
        let n = rules.len();
        let mut k: usize = 0;
        while k < n
            invariant
                h < 256,
                index_in_bounds(*rule_index),
                rules@ == rule_index.rules_of(h as int),
                n == rules@.len(),
                k <= n,
                datas@.len() == k,
                forall|i: int| 0 <= i < k ==> rule_data_of(#[trigger] datas@[i], rules@[i]),
            decreases n - k,
        {
            assert(rule_in_bounds(rule_index.rules_of(h as int)[k as int]));
            datas.push(compute_rule_data(&rules[k]));
            k += 1;
        }
        slots.push(datas);
        h += 1;
    }
    let cache = RuleDataCache { slots };
    assert forall|h: int| 0 <= h < 256 implies cache.len_of(h) == rule_index.rules_of(h).len() && forall|i: int|
        0 <= i < rule_index.rules_of(h).len() ==> rule_data_of(
            #[trigger] cache.entry(h, i),
            rule_index.rules_of(h)[i],
        ) by {
        assert(cache.slots@[h] == slots@[h]);
    }
    cache
}

/// Precomputed data of rule `rule_idx` of head `head_type`, if the cache holds it.
pub fn get_rule_data<'a>(cache: &'a RuleDataCache, head_type: CellType, rule_idx: usize) -> (r: Option<&'a RuleData>)
    ensures
        match r {
            Some(d) => rule_idx < cache.len_of(head_type.0 as int) && *d == cache.entry(
                head_type.0 as int,
                rule_idx as int,
            ),
            None => rule_idx >= cache.len_of(head_type.0 as int),
        },
{
    let h = head_type.0 as usize;
    if h < cache.slots.len() {
        let slot = &cache.slots[h];
        if rule_idx < slot.len() {
            return Some(&slot[rule_idx]);
        }
    }
    None
}

} // verus!
