use vstd::prelude::*;
use crate::apply::{
    all_change_writes, change_writes, clamp_side, effective_shift, feedback_override, grid_small, in_bounds,
    match_change_writes, match_rule, overflow_output, pattern_values,
    rule_effect, shift_effect, shift_target, shifts_effect, targets_change_writes, write_keys,
};
use crate::arbitrator::{clamp_cell, feedback_targets, match_cells};
use crate::geometry::{flatten_groups, spec_shift_delta, spec_shift_targets};
use crate::grid::Grid;
use crate::types::{Cell, Direction, RecordedValue, Rule, RuleIndex, RuleMatch, ShiftSpec};

verus! {

/// Key `k` is one a single non-broadcast shift `sh` of the head at `(cx, cy)` may write
/// besides the origin: its target inside the grid, or, when the target is off the grid and
/// the rule writes on overflow, the target clamped to the grid's edge.
pub open spec fn shift_key(g: Grid, rule: Rule, sh: ShiftSpec, cx: int, cy: int, k: (u32, u32)) -> bool {
    let t = shift_target(sh, cx, cy);
    ||| in_bounds(g, t.0, t.1) && k == (t.0 as u32, t.1 as u32)
    ||| !in_bounds(g, t.0, t.1) && overflow_output(rule.overflow) is Some && k == (
        clamp_side(t.0, g.spec_width() as int) as u32,
        clamp_side(t.1, g.spec_height() as int) as u32,
    )
}

proof fn lemma_shift_keys(g: Grid, rule: Rule, sh: ShiftSpec, cx: int, cy: int, gen: u64)
    requires
        !sh.broadcast,
    ensures
        forall|i: int|
            0 <= i < shift_effect(g, rule, sh, cx, cy, gen).0.len() ==> {
                let k = (#[trigger] shift_effect(g, rule, sh, cx, cy, gen).0[i]).0;
                k == (cx as u32, cy as u32) || shift_key(g, rule, sh, cx, cy, k)
            },
{
}

proof fn lemma_shifts_keys(
    g: Grid,
    rule: Rule,
    shs: Seq<ShiftSpec>,
    cx: int,
    cy: int,
    idx: usize,
    gen: u64,
    over: Option<Direction>,
    fb: Map<(u32, u32, usize), u64>,
    mem: Map<(u32, u32, usize), Seq<RecordedValue>>,
)
    requires
        forall|i: int| 0 <= i < shs.len() ==> !(#[trigger] shs[i]).broadcast,
    ensures
        forall|j: int|
            0 <= j < shifts_effect(g, rule, shs, cx, cy, idx, gen, over, fb, mem).0.len() ==> {
                let k = (#[trigger] shifts_effect(g, rule, shs, cx, cy, idx, gen, over, fb, mem).0[j]).0;
                k == (cx as u32, cy as u32) || exists|i: int|
                    0 <= i < shs.len() && shift_key(g, rule, effective_shift(#[trigger] shs[i], over), cx, cy, k)
            },
    decreases shs.len(),
{
    if shs.len() > 0 {
        let p = shs.drop_last();
        assert forall|i: int| 0 <= i < p.len() implies !(#[trigger] p[i]).broadcast by {
            assert(p[i] == shs[i]);
        }
        lemma_shifts_keys(g, rule, p, cx, cy, idx, gen, over, fb, mem);
        let sh = effective_shift(shs.last(), over);
        assert(!shs[shs.len() - 1].broadcast);
        lemma_shift_keys(g, rule, sh, cx, cy, gen);
        let pe = shifts_effect(g, rule, p, cx, cy, idx, gen, over, fb, mem);
        let e = shift_effect(g, rule, sh, cx, cy, gen);
        let all = shifts_effect(g, rule, shs, cx, cy, idx, gen, over, fb, mem);
        assert(all.0 == pe.0 + e.0);
        assert forall|j: int| 0 <= j < all.0.len() implies {
            let k = (#[trigger] all.0[j]).0;
            k == (cx as u32, cy as u32) || exists|i: int|
                0 <= i < shs.len() && shift_key(g, rule, effective_shift(#[trigger] shs[i], over), cx, cy, k)
        } by {
            let k = all.0[j].0;
            if j < pe.0.len() {
                assert(all.0[j] == pe.0[j]);
                if k != (cx as u32, cy as u32) {
                    let i = choose|i: int|
                        0 <= i < p.len() && shift_key(g, rule, effective_shift(#[trigger] p[i], over), cx, cy, k);
                    assert(p[i] == shs[i]);
                }
            } else {
                assert(all.0[j] == e.0[j - pe.0.len()]);
                if k != (cx as u32, cy as u32) {
                    assert(shift_key(g, rule, sh, cx, cy, k));
                    assert(shs[shs.len() - 1] == shs.last());
                }
            }
        }
    }
}

/// Key `k` is one a change of `rule` writes from the offset `(bx, by)` of the head at
/// `(cx, cy)`: the change's cell, inside the grid.
pub open spec fn change_key(g: Grid, rule: Rule, cx: int, cy: int, bx: int, by: int, k: (u32, u32)) -> bool {
    exists|j: int|
        0 <= j < rule.changes@.len() && in_bounds(g, cx + bx + rule.changes@[j].0, cy + by + rule.changes@[j].1) && k == (
            (cx + bx + rule.changes@[j].0) as u32,
            (cy + by + rule.changes@[j].1) as u32,
        )
}

proof fn lemma_change_keys(g: Grid, rule: Rule, pb: Seq<crate::types::CellValue>, cx: int, cy: int, bx: int, by: int, gen: u64, n: int)
    requires
        n <= rule.changes@.len(),
    ensures
        forall|i: int|
            0 <= i < change_writes(g, rule, pb, cx, cy, bx, by, gen, n).len() ==> change_key(
                g,
                rule,
                cx,
                cy,
                bx,
                by,
                (#[trigger] change_writes(g, rule, pb, cx, cy, bx, by, gen, n)[i]).0,
            ),
    decreases n,
{
    if n > 0 {
        lemma_change_keys(g, rule, pb, cx, cy, bx, by, gen, n - 1);
        let prev = change_writes(g, rule, pb, cx, cy, bx, by, gen, n - 1);
        let cur = change_writes(g, rule, pb, cx, cy, bx, by, gen, n);
        assert forall|i: int| 0 <= i < cur.len() implies change_key(g, rule, cx, cy, bx, by, (#[trigger] cur[i]).0) by {
            if i < prev.len() {
                assert(cur[i] == prev[i]);
            } else {
                let c = rule.changes@[n - 1];
                assert(cur[i].0 == ((cx + bx + c.0) as u32, (cy + by + c.1) as u32));
            }
        }
    }
}

proof fn lemma_targets_change_keys(
    g: Grid,
    rule: Rule,
    pb: Seq<crate::types::CellValue>,
    cx: int,
    cy: int,
    t: Seq<(i32, i32)>,
    gen: u64,
    n: int,
)
    requires
        n <= t.len(),
    ensures
        forall|i: int|
            0 <= i < targets_change_writes(g, rule, pb, cx, cy, t, gen, n).len() ==> exists|a: int|
                0 <= a < n && change_key(
                    g,
                    rule,
                    cx,
                    cy,
                    t[a].0 as int,
                    t[a].1 as int,
                    (#[trigger] targets_change_writes(g, rule, pb, cx, cy, t, gen, n)[i]).0,
                ),
    decreases n,
{
    if n > 0 {
        lemma_targets_change_keys(g, rule, pb, cx, cy, t, gen, n - 1);
        let prev = targets_change_writes(g, rule, pb, cx, cy, t, gen, n - 1);
        let last = all_change_writes(g, rule, pb, cx, cy, t[n - 1].0 as int, t[n - 1].1 as int, gen);
        lemma_change_keys(g, rule, pb, cx, cy, t[n - 1].0 as int, t[n - 1].1 as int, gen, rule.changes@.len() as int);
        let cur = targets_change_writes(g, rule, pb, cx, cy, t, gen, n);
        assert(cur == prev + last);
        assert forall|i: int| 0 <= i < cur.len() implies exists|a: int|
            0 <= a < n && change_key(g, rule, cx, cy, t[a].0 as int, t[a].1 as int, (#[trigger] cur[i]).0) by {
            if i < prev.len() {
                assert(cur[i] == prev[i]);
                let a = choose|a: int|
                    0 <= a < n - 1 && change_key(g, rule, cx, cy, t[a].0 as int, t[a].1 as int, prev[i].0);
            } else {
                assert(cur[i] == last[i - prev.len()]);
                assert(change_key(g, rule, cx, cy, t[n - 1].0 as int, t[n - 1].1 as int, cur[i].0));
            }
        }
    }
}

proof fn lemma_map_contains<A, B>(s: Seq<A>, f: spec_fn(A) -> B, x: A)
    requires
        s.contains(x),
    ensures
        s.map_values(f).contains(f(x)),
{
    let i = choose|i: int| 0 <= i < s.len() && s[i] == x;
    assert(s.map_values(f)[i] == f(x));
}

proof fn lemma_target_change_cells_contain(t: Seq<(i32, i32)>, rule: Rule, n: int, a: int, j: int)
    requires
        0 <= a < n <= t.len(),
        0 <= j < rule.changes@.len(),
    ensures
        crate::geometry::target_change_cells(t, rule, n).contains(
            ((t[a].0 + rule.changes@[j].0) as i32, (t[a].1 + rule.changes@[j].1) as i32),
        ),
    decreases n,
{
    let x = ((t[a].0 + rule.changes@[j].0) as i32, (t[a].1 + rule.changes@[j].1) as i32);
    let prev = crate::geometry::target_change_cells(t, rule, n - 1);
    let blk = rule.changes@.map_values(
        |c: (i32, i32, crate::types::ChangeValue)| ((t[n - 1].0 + c.0) as i32, (t[n - 1].1 + c.1) as i32),
    );
    assert(crate::geometry::target_change_cells(t, rule, n) == prev + blk);
    if a < n - 1 {
        lemma_target_change_cells_contain(t, rule, n - 1, a, j);
        let i = choose|i: int| 0 <= i < prev.len() && prev[i] == x;
        assert((prev + blk)[i] == x);
    } else {
        assert(blk[j] == x);
        assert((prev + blk)[prev.len() + j] == x);
    }
}

proof fn lemma_delta_target(sh: ShiftSpec, cx: int, cy: int)
    ensures
        spec_shift_delta(sh).0 as int + cx == shift_target(sh, cx, cy).0,
        spec_shift_delta(sh).1 as int + cy == shift_target(sh, cx, cy).1,
{
    let st = sh.steps as int;
    match sh.direction {
        Direction::Up => {
            assert(0 * st == 0 && -1 * st == -st) by (nonlinear_arith);
        },
        Direction::Down => {
            assert(0 * st == 0 && 1 * st == st) by (nonlinear_arith);
        },
        Direction::Left => {
            assert(0 * st == 0 && -1 * st == -st) by (nonlinear_arith);
        },
        Direction::Right => {
            assert(0 * st == 0 && 1 * st == st) by (nonlinear_arith);
        },
    }
}

/// A match that arbitration can reserve cells for exactly: of a rule without `cam`,
/// `recursion` or broadcast shifts, with no `cam` target recorded for it, on the grid.
pub open spec fn reservable(g: Grid, index: RuleIndex, cams: Map<(u32, u32, usize), (u32, u32)>, m: RuleMatch) -> bool {
    &&& match_rule(index, m) is Some
    &&& match_rule(index, m)->0.cam is None
    &&& match_rule(index, m)->0.recursion is None
    &&& forall|i: int|
        0 <= i < flatten_groups(match_rule(index, m)->0.shifts@).len() ==> !(#[trigger] flatten_groups(
            match_rule(index, m)->0.shifts@,
        )[i]).broadcast
    &&& !cams.contains_key((m.x, m.y, m.rule_idx))
    &&& g.spec_in_grid(m.x as int, m.y as int)
}

/// Law: every cell that applying a match writes (see `rule_effect`, with the same feedback
/// counters `fb`) is among the cells arbitration reserves for it (`match_cells`), for any
/// writes and memory buffers before it.
pub proof fn lemma_written_cells_reserved(
    g: Grid,
    m: RuleMatch,
    index: RuleIndex,
    cache: crate::conflict_analyzer::RuleDataCache,
    cams: Map<(u32, u32, usize), (u32, u32)>,
    fb: Map<(u32, u32, usize), u64>,
    buf: Map<(u32, u32), Cell>,
    mem: Map<(u32, u32, usize), Seq<RecordedValue>>,
    gen: u64,
)
    requires
        cache.caches(index),
        crate::conflict_analyzer::index_in_bounds(index),
        grid_small(g),
        reservable(g, index, cams, m),
    ensures
        forall|i: int|
            0 <= i < rule_effect(g, m, match_rule(index, m)->0, gen, buf, fb, mem).1.len() ==> match_cells(
                index,
                cache,
                cams,
                fb,
                g.spec_width() as int,
                g.spec_height() as int,
                m,
            ).contains(
                ((#[trigger] rule_effect(g, m, match_rule(index, m)->0, gen, buf, fb, mem).1[i]).0 as int,
                rule_effect(g, m, match_rule(index, m)->0, gen, buf, fb, mem).1[i].1 as int),
            ),
{
    let r = match_rule(index, m)->0;
    let w = g.spec_width() as int;
    let h = g.spec_height() as int;
    let cx = m.x as int;
    let cy = m.y as int;
    let key = (m.x, m.y, m.rule_idx);
    g.lemma_in_grid(cx, cy);
    assert(crate::geometry::rule_in_bounds(r));
    let over = feedback_override(r, fb, key);
    let fb1 = crate::apply::feedback_counted(r, fb, key);
    let shs = flatten_groups(r.shifts@);
    let t = spec_shift_targets(r);
    let p1 = shifts_effect(g, r, shs, cx, cy, m.rule_idx, gen, over, fb1, mem);
    let w2 = match_change_writes(g, r, cx, cy, gen);
    let e = rule_effect(g, m, r, gen, buf, fb, mem);
    assert(e.1 == write_keys(p1.0 + w2));
    lemma_shifts_keys(g, r, shs, cx, cy, m.rule_idx, gen, over, fb1, mem);
    let pb = pattern_values(g, r.pattern@, cx, cy);
    if r.changes@.len() > 0 {
        if t.len() == 0 {
            lemma_change_keys(g, r, pb, cx, cy, 0, 0, gen, r.changes@.len() as int);
        } else {
            lemma_targets_change_keys(g, r, pb, cx, cy, t, gen, t.len() as int);
        }
    }
    let cells = match_cells(index, cache, cams, fb, w, h, m);
    let d = cache.entry(m.head.0 as int, m.rule_idx as int);
    assert(index.rules_of(m.head.0 as int)[m.rule_idx as int] == r);
    assert(cache.len_of(m.head.0 as int) == index.rules_of(m.head.0 as int).len());
    assert(crate::conflict_analyzer::rule_data_of(d, r));
    assert(forall|c: (i32, i32)| d.write_cells@.contains(c) <==> crate::geometry::in_write_set(r, c));
    let feedback_path = r.feedback is Some && t.len() > 0;
    let ts = feedback_targets(r, fb, m);
    let tc = crate::geometry::target_change_cells(t, r, t.len() as int);
    let fclamp = |c: (i32, i32)| clamp_cell(m, c, true, r.overflow, w, h);
    let fplain = |c: (i32, i32)| clamp_cell(m, c, false, r.overflow, w, h);
    let fdata = |c: (i32, i32)| clamp_cell(m, c, d.shift_targets@.contains(c), r.overflow, w, h);
    if feedback_path {
        assert(cells == seq![(cx, cy)] + ts.map_values(fclamp) + tc.map_values(fplain));
    } else {
        assert(cells == d.write_cells@.map_values(fdata));
    }
    assert forall|i: int| 0 <= i < e.1.len() implies cells.contains(((#[trigger] e.1[i]).0 as int, e.1[i].1 as int)) by {
        let k = e.1[i];
        let pt = (k.0 as int, k.1 as int);
        if i < p1.0.len() {
            assert(k == p1.0[i].0);
            if k == (cx as u32, cy as u32) {
                assert(pt == (cx, cy));
                if feedback_path {
                    assert((seq![(cx, cy)] + ts.map_values(fclamp) + tc.map_values(fplain))[0] == (cx, cy));
                } else {
                    assert(shs.len() > 0);
                    assert(t.len() > 0);
                    assert(crate::geometry::in_write_set(r, (0i32, 0i32)));
                    assert(d.write_cells@.contains((0i32, 0i32)));
                    lemma_map_contains(d.write_cells@, fdata, (0i32, 0i32));
                }
            } else {
                let a = choose|a: int| 0 <= a < shs.len() && shift_key(g, r, effective_shift(#[trigger] shs[a], over), cx, cy, k);
                let sh = effective_shift(shs[a], over);
                let tp = shift_target(sh, cx, cy);
                let delta = spec_shift_delta(sh);
                lemma_delta_target(sh, cx, cy);
                assert(clamp_cell(m, delta, true, r.overflow, w, h) == pt);
                if feedback_path {
                    if over is Some {
                        assert(ts[a] == delta);
                    } else {
                        assert(ts[a] == delta);
                    }
                    lemma_map_contains(ts, fclamp, delta);
                    let q = choose|q: int| 0 <= q < ts.map_values(fclamp).len() && ts.map_values(fclamp)[q] == pt;
                    assert((seq![(cx, cy)] + ts.map_values(fclamp) + tc.map_values(fplain))[1 + q] == pt);
                } else {
                    assert(over is None);
                    assert(t[a] == delta);
                    assert(crate::geometry::in_write_set(r, delta));
                    assert(d.write_cells@.contains(delta));
                    assert(d.shift_targets@.contains(delta));
                    lemma_map_contains(d.write_cells@, fdata, delta);
                }
            }
        } else {
            let j = i - p1.0.len();
            assert(k == w2[j].0);
            assert(r.changes@.len() > 0);
            if t.len() == 0 {
                let jj = choose|jj: int|
                    0 <= jj < r.changes@.len() && in_bounds(g, cx + 0 + r.changes@[jj].0, cy + 0 + r.changes@[jj].1) && k == (
                        (cx + 0 + r.changes@[jj].0) as u32,
                        (cy + 0 + r.changes@[jj].1) as u32,
                    );
                let c = (r.changes@[jj].0, r.changes@[jj].1);
                assert(c == crate::geometry::change_offset(r, jj));
                assert(crate::geometry::in_write_set(r, c));
                assert(d.write_cells@.contains(c));
                lemma_map_contains(d.write_cells@, fdata, c);
                assert(fdata(c) == pt);
            } else {
                let a = choose|a: int|
                    0 <= a < t.len() && change_key(g, r, cx, cy, t[a].0 as int, t[a].1 as int, #[trigger] w2[j].0);
                let jj = choose|jj: int|
                    0 <= jj < r.changes@.len() && in_bounds(
                        g,
                        cx + t[a].0 + r.changes@[jj].0,
                        cy + t[a].1 + r.changes@[jj].1,
                    ) && k == ((cx + t[a].0 + r.changes@[jj].0) as u32, (cy + t[a].1 + r.changes@[jj].1) as u32);
                crate::geometry::lemma_shift_targets_small(r, a);
                assert(-crate::geometry::coord_bound() <= r.changes@[jj].0 <= crate::geometry::coord_bound());
                assert(-crate::geometry::coord_bound() <= r.changes@[jj].1 <= crate::geometry::coord_bound());
                let x = ((t[a].0 + r.changes@[jj].0) as i32, (t[a].1 + r.changes@[jj].1) as i32);
                assert(x.0 as int == t[a].0 + r.changes@[jj].0 && x.1 as int == t[a].1 + r.changes@[jj].1);
                if feedback_path {
                    lemma_target_change_cells_contain(t, r, t.len() as int, a, jj);
                    lemma_map_contains(tc, fplain, x);
                    assert(fplain(x) == pt);
                    let q = choose|q: int| 0 <= q < tc.map_values(fplain).len() && tc.map_values(fplain)[q] == pt;
                    let pre = seq![(cx, cy)] + ts.map_values(fclamp);
                    assert((pre + tc.map_values(fplain))[pre.len() + q] == pt);
                } else {
                    assert(crate::geometry::in_write_set(r, x));
                    assert(d.write_cells@.contains(x));
                    lemma_map_contains(d.write_cells@, fdata, x);
                    assert(fdata(x) == pt);
                }
            }
        }
    }
}

/// Law (what arbitration is for): the matches accepted by arbitration with feedback counters
/// `fb` write pairwise disjoint cells when applied with those counters, whatever writes and
/// memory buffers come before each of them; this holds for matches of rules without
/// `cam`, `recursion` or broadcast shifts (see `reservable`).
pub proof fn lemma_accepted_writes_disjoint(
    r: Seq<RuleMatch>,
    ms: Seq<RuleMatch>,
    g: Grid,
    index: RuleIndex,
    cache: crate::conflict_analyzer::RuleDataCache,
    cams: Map<(u32, u32, usize), (u32, u32)>,
    fb: Map<(u32, u32, usize), u64>,
    starv: Map<(u32, u32, usize), u32>,
    tick_gen: u32,
    gen: u64,
    ba: Map<(u32, u32), Cell>,
    ma: Map<(u32, u32, usize), Seq<RecordedValue>>,
    bb: Map<(u32, u32), Cell>,
    mb: Map<(u32, u32, usize), Seq<RecordedValue>>,
)
    requires
        crate::arbitrator::arbitration_result(
            r,
            ms,
            crate::arbitrator::keys_of(g, index, starv, tick_gen, ms),
            crate::arbitrator::cells_of(index, cache, cams, fb, g.spec_width() as int, g.spec_height() as int, ms),
        ),
        cache.caches(index),
        crate::conflict_analyzer::index_in_bounds(index),
        grid_small(g),
        forall|i: int| 0 <= i < ms.len() ==> reservable(g, index, cams, #[trigger] ms[i]),
    ensures
        forall|a: int, b: int, k: (u32, u32)|
            0 <= a < b < r.len() ==> !(#[trigger] rule_effect(g, r[a], match_rule(index, r[a])->0, gen, ba, fb, ma).1.contains(k)
                && #[trigger] rule_effect(g, r[b], match_rule(index, r[b])->0, gen, bb, fb, mb).1.contains(k)),
{
    let w = g.spec_width() as int;
    let h = g.spec_height() as int;
    crate::arbitrator::lemma_arbitration_sound(r, ms, g, index, cache, cams, fb, starv, tick_gen);
    assert forall|a: int, b: int, k: (u32, u32)|
        0 <= a < b < r.len() implies !(#[trigger] rule_effect(g, r[a], match_rule(index, r[a])->0, gen, ba, fb, ma).1.contains(k)
            && #[trigger] rule_effect(g, r[b], match_rule(index, r[b])->0, gen, bb, fb, mb).1.contains(k)) by {
        let ea = rule_effect(g, r[a], match_rule(index, r[a])->0, gen, ba, fb, ma);
        let eb = rule_effect(g, r[b], match_rule(index, r[b])->0, gen, bb, fb, mb);
        if ea.1.contains(k) && eb.1.contains(k) {
            assert(ms.contains(r[a]));
            assert(ms.contains(r[b]));
            let ia = choose|i: int| 0 <= i < ms.len() && ms[i] == r[a];
            let ib = choose|i: int| 0 <= i < ms.len() && ms[i] == r[b];
            assert(reservable(g, index, cams, ms[ia]));
            assert(reservable(g, index, cams, ms[ib]));
            lemma_written_cells_reserved(g, r[a], index, cache, cams, fb, ba, ma, gen);
            lemma_written_cells_reserved(g, r[b], index, cache, cams, fb, bb, mb, gen);
            let qa = choose|q: int| 0 <= q < ea.1.len() && ea.1[q] == k;
            let qb = choose|q: int| 0 <= q < eb.1.len() && eb.1[q] == k;
            let pt = (k.0 as int, k.1 as int);
            assert(match_cells(index, cache, cams, fb, w, h, r[a]).contains(pt));
            assert(match_cells(index, cache, cams, fb, w, h, r[b]).contains(pt));
            assert(crate::arbitrator::overlap(
                match_cells(index, cache, cams, fb, w, h, r[a]),
                match_cells(index, cache, cams, fb, w, h, r[b]),
            ));
        }
    }
}

} // verus!
