use vstd::prelude::*;
use crate::apply::{coord_limit, feedback_override, grid_small, match_rule};
use crate::conflict_analyzer::{get_rule_data, index_in_bounds, rule_data_of, RuleDataCache};
use crate::geometry::{
    cell_lt, compute_redirected_targets, coord_bound, lemma_redirected_small, compute_shift_targets, lemma_shift_targets_small, lemma_write_set_small,
    rule_in_bounds, spec_redirected_targets, spec_shift_targets, strictly_sorted, target_change_cells,
};
use crate::grid::Grid;
use crate::journal::MatchMap;
use crate::types::{CellType, ChangeValue, Direction, OverflowAction, Rule, RuleIndex, RuleMatch};

verus! {

// ---------------------------------------------------------------------------
// The order in which matches are considered
// ---------------------------------------------------------------------------

/// `a` sorts before `b` lexicographically (a proper prefix first).
pub open spec fn lex_lt(a: Seq<u8>, b: Seq<u8>) -> bool
    decreases a.len(),
{
    if a.len() == 0 {
        b.len() > 0
    } else if b.len() == 0 {
        false
    } else if a[0] < b[0] {
        true
    } else if a[0] > b[0] {
        false
    } else {
        lex_lt(a.drop_first(), b.drop_first())
    }
}

/// Bytes of a rule's id.
pub open spec fn id_bytes(r: Rule) -> Seq<u8> {
    r.id@.map_values(|c: CellType| c.0)
}

/// Sort key of a match: priority, age of its cell, rotated tie-break, rule id, x, y, rule
/// index. A rule whose starvation threshold was reached counts with the highest priority.
pub type MatchKey = (u32, u32, u32, Seq<u8>, u32, u32, usize);

/// Number of values the tie-break rotates through.
pub open spec fn tie_break_modulus() -> int {
    16
}

/// Priority of a match: `u32::MAX` once its starvation counter reached the rule's threshold.
pub open spec fn match_priority(index: RuleIndex, starv: Map<(u32, u32, usize), u32>, m: RuleMatch) -> u32 {
    match match_rule(index, m) {
        Some(r) => match r.starvation_after {
            Some(th) => if (if starv.contains_key((m.x, m.y, m.rule_idx)) {
                starv[(m.x, m.y, m.rule_idx)]
            } else {
                0
            }) >= th {
                u32::MAX
            } else {
                r.priority
            },
            None => r.priority,
        },
        None => 0,
    }
}

/// The sort key of a match.
pub open spec fn match_key(g: Grid, index: RuleIndex, starv: Map<(u32, u32, usize), u32>, gen: u32, m: RuleMatch) -> MatchKey {
    let rule = match_rule(index, m);
    let tb: u32 = match rule {
        Some(r) => r.tie_break,
        None => 0,
    };
    (
        match_priority(index, starv, m),
        g.spec_age(m.x as int, m.y as int) as u32,
        (((tb as int + gen as int) % 0x1_0000_0000) % tie_break_modulus()) as u32,
        match rule {
            Some(r) => id_bytes(r),
            None => Seq::empty(),
        },
        m.x,
        m.y,
        m.rule_idx,
    )
}

/// `a` is considered before `b`: greater on the first component where they differ.
pub open spec fn key_gt(a: MatchKey, b: MatchKey) -> bool {
    ||| a.0 > b.0
    ||| a.0 == b.0 && a.1 > b.1
    ||| a.0 == b.0 && a.1 == b.1 && a.2 > b.2
    ||| a.0 == b.0 && a.1 == b.1 && a.2 == b.2 && lex_lt(b.3, a.3)
    ||| a.0 == b.0 && a.1 == b.1 && a.2 == b.2 && a.3 == b.3 && a.4 > b.4
    ||| a.0 == b.0 && a.1 == b.1 && a.2 == b.2 && a.3 == b.3 && a.4 == b.4 && a.5 > b.5
    ||| a.0 == b.0 && a.1 == b.1 && a.2 == b.2 && a.3 == b.3 && a.4 == b.4 && a.5 == b.5 && a.6 > b.6
}

/// Match `i` is considered before match `j`: by key, then by position in the input.
pub open spec fn ranks_before(keys: Seq<MatchKey>, i: int, j: int) -> bool {
    key_gt(keys[i], keys[j]) || (keys[i] == keys[j] && i < j)
}

proof fn lemma_lex_strict(a: Seq<u8>, b: Seq<u8>)
    ensures
        !(lex_lt(a, b) && lex_lt(b, a)),
        !lex_lt(a, a),
        lex_lt(a, b) || lex_lt(b, a) || a == b,
    decreases a.len(),
{
    if a.len() > 0 && b.len() > 0 {
        lemma_lex_strict(a.drop_first(), b.drop_first());
        if a[0] == b[0] && a.drop_first() == b.drop_first() {
            assert(a =~= seq![a[0]] + a.drop_first());
            assert(b =~= seq![b[0]] + b.drop_first());
        }
    } else if a.len() == 0 && b.len() == 0 {
        assert(a =~= b);
    }
    if a.len() > 0 {
        lemma_lex_strict(a.drop_first(), a.drop_first());
    }
}

proof fn lemma_ranks_order(keys: Seq<MatchKey>, i: int, j: int)
    requires
        0 <= i < keys.len(),
        0 <= j < keys.len(),
    ensures
        !(ranks_before(keys, i, j) && ranks_before(keys, j, i)),
        !ranks_before(keys, i, i),
        i != j ==> ranks_before(keys, i, j) || ranks_before(keys, j, i),
{
    lemma_lex_strict(keys[i].3, keys[j].3);
    lemma_lex_strict(keys[i].3, keys[i].3);
}

// ---------------------------------------------------------------------------
// The cells a match writes
// ---------------------------------------------------------------------------

/// `v` clamped into `lo..=hi`.
pub open spec fn clamp_int(v: int, lo: int, hi: int) -> int {
    if v < lo {
        lo
    } else if v > hi {
        hi
    } else {
        v
    }
}

/// A written cell `c` (relative) of match `m`, where an overflowing shift target of a rule
/// that writes on overflow is clamped to the grid's edge, as the write itself is.
pub open spec fn clamp_cell(m: RuleMatch, c: (i32, i32), is_target: bool, overflow: OverflowAction, w: int, h: int) -> (
    int,
    int,
) {
    let a = (m.x + c.0, m.y + c.1);
    if w > 0 && h > 0 && is_target && (overflow is Write || overflow is WriteLiteral) && (a.0 < 0 || a.0 >= w || a.1
        < 0 || a.1 >= h) {
        (clamp_int(a.0, 0, w - 1), clamp_int(a.1, 0, h - 1))
    } else {
        a
    }
}

/// The cells a match of a feedback rule `r` writes when its shifts go to the targets `ts`
/// (the declared ones, or those of the direction the feedback switched to): its own cell,
/// every target (clamped as a shift target), and the change offsets taken from every
/// declared shift target, where the changes are written.
pub open spec fn directed_cells(m: RuleMatch, r: Rule, ts: Seq<(i32, i32)>, w: int, h: int) -> Seq<(int, int)> {
    let t = spec_shift_targets(r);
    seq![(m.x as int, m.y as int)] + ts.map_values(|c: (i32, i32)| clamp_cell(m, c, true, r.overflow, w, h))
        + target_change_cells(t, r, t.len() as int).map_values(|c: (i32, i32)| clamp_cell(m, c, false, r.overflow, w, h))
}

/// The targets the shifts of a match of feedback rule `r` go to: in the direction the
/// feedback switches to once its counter in `fb` has reached the timeout, else the declared
/// ones.
pub open spec fn feedback_targets(r: Rule, fb: Map<(u32, u32, usize), u64>, m: RuleMatch) -> Seq<(i32, i32)> {
    match feedback_override(r, fb, (m.x, m.y, m.rule_idx)) {
        Some(dir) => spec_redirected_targets(r, dir),
        None => spec_shift_targets(r),
    }
}

/// Cells a match writes: for a `cam` match (without `recursion`) the target found and the
/// magnet; for a shifting match of a rule with feedback, the cells of the direction its
/// counter in `fb` selects (see `directed_cells`); otherwise the rule's written cells around
/// the match, clamped as above; the match's own cell for a match without a rule.
pub open spec fn match_cells(
    index: RuleIndex,
    cache: RuleDataCache,
    cams: Map<(u32, u32, usize), (u32, u32)>,
    fb: Map<(u32, u32, usize), u64>,
    w: int,
    h: int,
    m: RuleMatch,
) -> Seq<(int, int)> {
    let rule = match_rule(index, m);
    let cam_rec = match rule {
        Some(r) => r.cam is Some && r.recursion is Some,
        None => false,
    };
    if !cam_rec && cams.contains_key((m.x, m.y, m.rule_idx)) {
        let f = cams[(m.x, m.y, m.rule_idx)];
        seq![(f.0 as int, f.1 as int), (m.x as int, m.y as int)]
    } else {
        match rule {
            None => seq![(m.x as int, m.y as int)],
            Some(r) => {
                if r.feedback is Some && spec_shift_targets(r).len() > 0 {
                    directed_cells(m, r, feedback_targets(r, fb, m), w, h)
                } else {
                    let d = cache.entry(m.head.0 as int, m.rule_idx as int);
                    d.write_cells@.map_values(
                        |c: (i32, i32)| clamp_cell(m, c, d.shift_targets@.contains(c), r.overflow, w, h),
                    )
                }
            },
        }
    }
}

/// Cell coordinates as integers.
pub open spec fn int_cells(s: Seq<(i32, i32)>) -> Seq<(int, int)> {
    s.map_values(|c: (i32, i32)| (c.0 as int, c.1 as int))
}

/// Two cell lists share a cell.
pub open spec fn overlap(a: Seq<(int, int)>, b: Seq<(int, int)>) -> bool {
    exists|c: (int, int)| a.contains(c) && b.contains(c)
}

/// `sel` (positions in `ms`) is the greedy selection: in the order `ranks_before`, each match
/// is accepted exactly when no match accepted before it shares a written cell with it.
pub open spec fn greedy_selection(keys: Seq<MatchKey>, cells: Seq<Seq<(int, int)>>, sel: Seq<int>) -> bool {
    &&& forall|a: int| 0 <= a < sel.len() ==> 0 <= #[trigger] sel[a] < keys.len()
    &&& forall|a: int, b: int| 0 <= a < b < sel.len() ==> ranks_before(keys, #[trigger] sel[a], #[trigger] sel[b])
    &&& forall|i: int| 0 <= i < keys.len() ==> (#[trigger] sel.contains(i) <==> !blocked(keys, cells, sel, i))
}

/// Match `i` shares a written cell with a match of `sel` considered before it.
pub open spec fn blocked(keys: Seq<MatchKey>, cells: Seq<Seq<(int, int)>>, sel: Seq<int>, i: int) -> bool {
    exists|j: int| #[trigger] sel.contains(j) && ranks_before(keys, j, i) && overlap(cells[i], cells[j])
}

/// The keys of the matches.
pub open spec fn keys_of(
    g: Grid,
    index: RuleIndex,
    starv: Map<(u32, u32, usize), u32>,
    gen: u32,
    ms: Seq<RuleMatch>,
) -> Seq<MatchKey> {
    ms.map_values(|m: RuleMatch| match_key(g, index, starv, gen, m))
}

/// The written cells of the matches.
pub open spec fn cells_of(
    index: RuleIndex,
    cache: RuleDataCache,
    cams: Map<(u32, u32, usize), (u32, u32)>,
    fb: Map<(u32, u32, usize), u64>,
    w: int,
    h: int,
    ms: Seq<RuleMatch>,
) -> Seq<Seq<(int, int)>> {
    ms.map_values(|m: RuleMatch| match_cells(index, cache, cams, fb, w, h, m))
}

/// `r` is the result of arbitrating `ms`: the greedy selection, in the order considered.
pub open spec fn arbitration_result(
    r: Seq<RuleMatch>,
    ms: Seq<RuleMatch>,
    keys: Seq<MatchKey>,
    cells: Seq<Seq<(int, int)>>,
) -> bool {
    exists|sel: Seq<int>|
        #[trigger] greedy_selection(keys, cells, sel) && r == sel.map_values(|k: int| ms[k])
}

// ---------------------------------------------------------------------------
// Computing keys and cells
// ---------------------------------------------------------------------------

/// The rule of match `m`, if its position exists.
fn find_rule<'a>(index: &'a RuleIndex, m: RuleMatch) -> (r: Option<&'a Rule>)
    ensures
        match r {
            Some(rule) => match_rule(*index, m) == Some(*rule),
            None => match_rule(*index, m) is None,
        },
{
    let rules = index.rules(m.head.0);
    if m.rule_idx < rules.len() {
        Some(&rules[m.rule_idx])
    } else {
        None
    }
}

/// Lexicographic comparison of two rule ids: -1, 0 or 1.
fn compare_ids(a: &[CellType], b: &[CellType]) -> (r: i8)
    ensures
        r == -1 <==> lex_lt(a@.map_values(|c: CellType| c.0), b@.map_values(|c: CellType| c.0)),
        r == 1 <==> lex_lt(b@.map_values(|c: CellType| c.0), a@.map_values(|c: CellType| c.0)),
        r == 0 <==> a@.map_values(|c: CellType| c.0) == b@.map_values(|c: CellType| c.0),
{
    let ghost sa = a@.map_values(|c: CellType| c.0);
    let ghost sb = b@.map_values(|c: CellType| c.0);
    assert(sa.skip(0) =~= sa);
    assert(sb.skip(0) =~= sb);
    assert(sa.take(0) =~= sb.take(0));
    let mut k: usize = 0;
    while k < a.len() && k < b.len()
        invariant
            k <= a@.len(),
            k <= b@.len(),
            sa == a@.map_values(|c: CellType| c.0),
            sb == b@.map_values(|c: CellType| c.0),
            sa.take(k as int) == sb.take(k as int),
            lex_lt(sa, sb) == lex_lt(sa.skip(k as int), sb.skip(k as int)),
            lex_lt(sb, sa) == lex_lt(sb.skip(k as int), sa.skip(k as int)),
        decreases a@.len() - k,
    {
        let x = a[k].0;
        let y = b[k].0;
        assert(sa.skip(k as int)[0] == x && sb.skip(k as int)[0] == y);
        if x < y {
            proof {
                lemma_lex_strict(sa, sb);
            }
            return -1;
        }
        if x > y {
            proof {
                lemma_lex_strict(sa, sb);
            }
            return 1;
        }
        assert(sa.skip(k as int).drop_first() =~= sa.skip(k as int + 1));
        assert(sb.skip(k as int).drop_first() =~= sb.skip(k as int + 1));
        assert(sa.take(k as int + 1) =~= sa.take(k as int).push(x));
        assert(sb.take(k as int + 1) =~= sb.take(k as int).push(y));
        k += 1;
    }
    proof {
        lemma_lex_strict(sa, sb);
    }
    if a.len() == b.len() {
        assert(sa =~= sa.take(k as int));
        assert(sb =~= sb.take(k as int));
        0
    } else if a.len() < b.len() {
        assert(sa.skip(k as int).len() == 0);
        -1
    } else {
        assert(sb.skip(k as int).len() == 0);
        1
    }
}

/// The parts of a match's key that are numbers: priority, age, rotated tie-break.
fn key_numbers(
    grid: &Grid,
    index: &RuleIndex,
    starv: &MatchMap<u32>,
    gen: u32,
    m: RuleMatch,
) -> (r: (u32, u32, u32))
    ensures
        r.0 == match_key(*grid, *index, starv@, gen, m).0,
        r.1 == match_key(*grid, *index, starv@, gen, m).1,
        r.2 == match_key(*grid, *index, starv@, gen, m).2,
{
    let rule = find_rule(index, m);
    let prio = match rule {
        Some(r) => match r.starvation_after {
            Some(th) => {
                let c = match starv.get((m.x, m.y, m.rule_idx)) {
                    Some(c) => c,
                    None => 0,
                };
                if c >= th {
                    u32::MAX
                } else {
                    r.priority
                }
            },
            None => r.priority,
        },
        None => 0,
    };
    let tb = match rule {
        Some(r) => r.tie_break,
        None => 0,
    };
    let age = grid.get_age(m.x as usize, m.y as usize) as u32;
    let rot = (((tb as u64 + gen as u64) % 0x1_0000_0000) as u32) % 16;
    (prio, age, rot)
}

/// Cell `c` (relative) of match `m`, clamped as `clamp_cell` says.
fn clamp_exec(m: RuleMatch, c: (i32, i32), is_target: bool, writes_on_overflow: bool, overflow: OverflowAction, w: usize, h: usize) -> (r: (i32, i32))
    requires
        w <= coord_limit(),
        h <= coord_limit(),
        m.x <= coord_limit(),
        m.y <= coord_limit(),
        -0x2000_0000 <= c.0 <= 0x2000_0000,
        -0x2000_0000 <= c.1 <= 0x2000_0000,
        writes_on_overflow == (overflow is Write || overflow is WriteLiteral),
    ensures
        (r.0 as int, r.1 as int) == clamp_cell(m, c, is_target, overflow, w as int, h as int),
{
    let wi = w as i32;
    let hi = h as i32;
    let ax = m.x as i32 + c.0;
    let ay = m.y as i32 + c.1;
    if wi > 0 && hi > 0 && is_target && writes_on_overflow && (ax < 0 || ax >= wi || ay < 0 || ay >= hi) {
        let cx = if ax < 0 {
            0
        } else if ax > wi - 1 {
            wi - 1
        } else {
            ax
        };
        let cy = if ay < 0 {
            0
        } else if ay > hi - 1 {
            hi - 1
        } else {
            ay
        };
        (cx, cy)
    } else {
        (ax, ay)
    }
}

/// The cells of `directed_cells`, computed.
fn directed_cells_exec(m: RuleMatch, r: &Rule, alts: Vec<(i32, i32)>, w: usize, h: usize) -> (out: Vec<(i32, i32)>)
    requires
        rule_in_bounds(*r),
        forall|a: int| 0 <= a < alts@.len() ==> -0x10000 < (#[trigger] alts@[a]).0 < 0x10000 && -0x10000 < alts@[a].1 < 0x10000,
        w <= coord_limit(),
        h <= coord_limit(),
        m.x <= coord_limit(),
        m.y <= coord_limit(),
    ensures
        int_cells(out@) == directed_cells(m, *r, alts@, w as int, h as int),
{
    let ghost wv = w as int;
    let ghost hv = h as int;
    let writes_on_overflow = match r.overflow {
        OverflowAction::Write(_) => true,
        OverflowAction::WriteLiteral(_) => true,
        OverflowAction::Discard => false,
    };
    let mut out: Vec<(i32, i32)> = Vec::new();
    out.push((m.x as i32, m.y as i32));
    let ghost av = alts@;
    let ghost head = seq![(m.x as int, m.y as int)];
    let mut k: usize = 0;
    while k < alts.len()
        invariant
            k <= alts@.len(),
            alts@ == av,
            forall|a: int| 0 <= a < alts@.len() ==> -0x10000 < (#[trigger] alts@[a]).0 < 0x10000 && -0x10000 < alts@[a].1 < 0x10000,
            wv == w as int,
            hv == h as int,
            head == seq![(m.x as int, m.y as int)],
            w <= coord_limit(),
            h <= coord_limit(),
            m.x <= coord_limit(),
            m.y <= coord_limit(),
            writes_on_overflow == (r.overflow is Write || r.overflow is WriteLiteral),
            int_cells(out@) == head + alts@.take(k as int).map_values(
                |c: (i32, i32)| clamp_cell(m, c, true, r.overflow, wv, hv),
            ),
        decreases alts@.len() - k,
    {
        let c = alts[k];
        let cell = clamp_exec(m, c, true, writes_on_overflow, r.overflow, w, h);
        let ghost before = out@;
        out.push(cell);
        proof {
            assert(int_cells(out@) =~= int_cells(before).push((cell.0 as int, cell.1 as int)));
            assert(alts@.take(k as int + 1) =~= alts@.take(k as int).push(c));
            assert(alts@.take(k as int + 1).map_values(|c: (i32, i32)| clamp_cell(m, c, true, r.overflow, wv, hv))
                =~= alts@.take(k as int).map_values(|c: (i32, i32)| clamp_cell(m, c, true, r.overflow, wv, hv)).push(
                clamp_cell(m, c, true, r.overflow, wv, hv),
            ));
            assert((head + alts@.take(k as int).map_values(|c: (i32, i32)| clamp_cell(m, c, true, r.overflow, wv, hv))).push(
                clamp_cell(m, c, true, r.overflow, wv, hv),
            ) =~= head + alts@.take(k as int + 1).map_values(|c: (i32, i32)| clamp_cell(m, c, true, r.overflow, wv, hv)));
        }
        k += 1;
    }
    assert(alts@.take(k as int) =~= alts@);
    let ghost mid = int_cells(out@);
    let targets = compute_shift_targets(r);
    let ghost t = spec_shift_targets(*r);
    let mut a: usize = 0;
    while a < targets.len()
        invariant
            a <= targets@.len(),
            targets@ == t,
            t == spec_shift_targets(*r),
            wv == w as int,
            hv == h as int,
            rule_in_bounds(*r),
            w <= coord_limit(),
            h <= coord_limit(),
            m.x <= coord_limit(),
            m.y <= coord_limit(),
            writes_on_overflow == (r.overflow is Write || r.overflow is WriteLiteral),
            int_cells(out@) == mid + target_change_cells(t, *r, a as int).map_values(
                |c: (i32, i32)| clamp_cell(m, c, false, r.overflow, wv, hv),
            ),
        decreases targets@.len() - a,
    {
        let tg = targets[a];
        proof {
            lemma_shift_targets_small(*r, a as int);
        }
        let ghost before_a = int_cells(out@);
        let nc = r.changes.len();
        let mut b: usize = 0;
        while b < nc
            invariant
                nc == r.changes@.len(),
                b <= nc,
                a < t.len(),
                tg == t[a as int],
                wv == w as int,
                hv == h as int,
                -0x10000 < tg.0 < 0x10000,
                -0x10000 < tg.1 < 0x10000,
                rule_in_bounds(*r),
                w <= coord_limit(),
                h <= coord_limit(),
                m.x <= coord_limit(),
                m.y <= coord_limit(),
                writes_on_overflow == (r.overflow is Write || r.overflow is WriteLiteral),
                int_cells(out@) == before_a + r.changes@.take(b as int).map_values(
                    |c: (i32, i32, ChangeValue)| ((tg.0 + c.0) as i32, (tg.1 + c.1) as i32),
                ).map_values(|c: (i32, i32)| clamp_cell(m, c, false, r.overflow, wv, hv)),
            decreases nc - b,
        {
            let ch = &r.changes[b];
            assert(-coord_bound() <= r.changes@[b as int].0 <= coord_bound());
            let c = (tg.0 + ch.0, tg.1 + ch.1);
            let cell = clamp_exec(m, c, false, writes_on_overflow, r.overflow, w, h);
            let ghost before = out@;
            out.push(cell);
            proof {
                assert(int_cells(out@) =~= int_cells(before).push((cell.0 as int, cell.1 as int)));
                assert(r.changes@.take(b as int + 1) =~= r.changes@.take(b as int).push(r.changes@[b as int]));
                assert(r.changes@.take(b as int + 1).map_values(
                    |c: (i32, i32, ChangeValue)| ((tg.0 + c.0) as i32, (tg.1 + c.1) as i32),
                ).map_values(|c: (i32, i32)| clamp_cell(m, c, false, r.overflow, wv, hv)) =~= r.changes@.take(
                    b as int,
                ).map_values(|c: (i32, i32, ChangeValue)| ((tg.0 + c.0) as i32, (tg.1 + c.1) as i32)).map_values(
                    |c: (i32, i32)| clamp_cell(m, c, false, r.overflow, wv, hv),
                ).push(clamp_cell(m, c, false, r.overflow, wv, hv)));
            }
            b += 1;
        }
        proof {
            assert(r.changes@.take(nc as int) =~= r.changes@);
            let step = r.changes@.map_values(|c: (i32, i32, ChangeValue)| ((t[a as int].0 + c.0) as i32, (t[a as int].1 + c.1) as i32));
            assert(target_change_cells(t, *r, a as int + 1) == target_change_cells(t, *r, a as int) + step);
            assert((target_change_cells(t, *r, a as int) + step).map_values(
                |c: (i32, i32)| clamp_cell(m, c, false, r.overflow, wv, hv),
            ) =~= target_change_cells(t, *r, a as int).map_values(
                |c: (i32, i32)| clamp_cell(m, c, false, r.overflow, wv, hv),
            ) + step.map_values(|c: (i32, i32)| clamp_cell(m, c, false, r.overflow, wv, hv)));
        }
        a += 1;
    }
    proof {
        assert(int_cells(out@) =~= directed_cells(m, *r, av, wv, hv));
    }
    out
}


/// The cells match `m` writes.
pub(crate) fn get_match_affected_cells(
    index: &RuleIndex,
    cache: &RuleDataCache,
    cams: &MatchMap<(u32, u32)>,
    fb: &MatchMap<u64>,
    w: usize,
    h: usize,
    m: RuleMatch,
) -> (r: Vec<(i32, i32)>)
    requires
        index_in_bounds(*index),
        cache.caches(*index),
        w <= coord_limit(),
        h <= coord_limit(),
        m.x <= coord_limit(),
        m.y <= coord_limit(),
        forall|k: (u32, u32, usize)| #[trigger] cams@.contains_key(k) ==> cams@[k].0 <= coord_limit() && cams@[k].1 <= coord_limit(),
    ensures
        int_cells(r@) == match_cells(*index, *cache, cams@, fb@, w as int, h as int, m),
{
    let ghost spec_cells = match_cells(*index, *cache, cams@, fb@, w as int, h as int, m);
    let rule = find_rule(index, m);
    let cam_rec = match rule {
        Some(r) => r.cam.is_some() && r.recursion.is_some(),
        None => false,
    };
    let mut out: Vec<(i32, i32)> = Vec::new();
    if !cam_rec {
        if let Some(f) = cams.get((m.x, m.y, m.rule_idx)) {
            out.push((f.0 as i32, f.1 as i32));
            out.push((m.x as i32, m.y as i32));
            assert(out@.map_values(|c: (i32, i32)| (c.0 as int, c.1 as int)) =~= spec_cells);
            return out;
        }
    }
    match rule {
        None => {
            out.push((m.x as i32, m.y as i32));
            assert(out@.map_values(|c: (i32, i32)| (c.0 as int, c.1 as int)) =~= spec_cells);
            out
        },
        Some(r) => {
            if let Some(f) = r.feedback {
                let targets = compute_shift_targets(r);
                if targets.len() > 0 {
                    assert(rule_in_bounds(*r));
                    let count = match fb.get((m.x, m.y, m.rule_idx)) {
                        Some(v) => v,
                        None => 0,
                    };
                    let ts = if count >= f.timeout {
                        compute_redirected_targets(r, f.new_direction)
                    } else {
                        targets
                    };
                    proof {
                        assert(ts@ == feedback_targets(*r, fb@, m));
                        assert forall|a: int| 0 <= a < ts@.len() implies -0x10000 < (#[trigger] ts@[a]).0 < 0x10000
                            && -0x10000 < ts@[a].1 < 0x10000 by {
                            if count >= f.timeout {
                                lemma_redirected_small(*r, f.new_direction, a);
                            } else {
                                lemma_shift_targets_small(*r, a);
                            }
                        }
                    }
                    return directed_cells_exec(m, r, ts, w, h);
                }
            }
            let data = match get_rule_data(cache, m.head, m.rule_idx) {
                Some(d) => d,
                None => {
                    assert(false);
                    return out;
                },
            };
            assert(rule_data_of(*data, *r));
            assert(rule_in_bounds(*r));
            let ghost d = cache.entry(m.head.0 as int, m.rule_idx as int);
            let writes_on_overflow = match r.overflow {
                OverflowAction::Write(_) => true,
                OverflowAction::WriteLiteral(_) => true,
                OverflowAction::Discard => false,
            };
            let wi = w as i32;
            let hi = h as i32;
            let n = data.write_cells.len();
            let mut k: usize = 0;
            while k < n
                invariant
                    n == data.write_cells@.len(),
                    k <= n,
                    *data == d,
                    rule_data_of(*data, *r),
                    rule_in_bounds(*r),
                    w <= coord_limit(),
                    h <= coord_limit(),
                    wi == w as int,
                    hi == h as int,
                    m.x <= coord_limit(),
                    m.y <= coord_limit(),
                    writes_on_overflow == (r.overflow is Write || r.overflow is WriteLiteral),
                    out@.map_values(|c: (i32, i32)| (c.0 as int, c.1 as int)) == data.write_cells@.take(
                        k as int,
                    ).map_values(|c: (i32, i32)| clamp_cell(m, c, d.shift_targets@.contains(c), r.overflow, w as int, h as int)),
                decreases n - k,
            {
                let c = data.write_cells[k];
                assert(data.write_cells@.contains(c));
                proof {
                    lemma_write_set_small(*r, c);
                }
                let mut is_target = false;
                let mut t: usize = 0;
                while t < data.shift_targets.len()
                    invariant
                        t <= data.shift_targets@.len(),
                        is_target == data.shift_targets@.take(t as int).contains(c),
                    decreases data.shift_targets@.len() - t,
                {
                    if data.shift_targets[t].0 == c.0 && data.shift_targets[t].1 == c.1 {
                        is_target = true;
                    }
                    proof {
                        let s1 = data.shift_targets@.take(t as int + 1);
                        assert(s1 =~= data.shift_targets@.take(t as int).push(data.shift_targets@[t as int]));
                        if s1.contains(c) && !data.shift_targets@.take(t as int).contains(c) {
                            let q = choose|q: int| 0 <= q < s1.len() && s1[q] == c;
                            if q < t {
                                assert(data.shift_targets@.take(t as int)[q] == c);
                            }
                        }
                        if data.shift_targets@.take(t as int).contains(c) {
                            let q = choose|q: int| 0 <= q < t && data.shift_targets@.take(t as int)[q] == c;
                            assert(s1[q] == c);
                        }
                        if data.shift_targets[t as int] == c {
                            assert(s1[t as int] == c);
                        }
                    }
                    t += 1;
                }
                assert(data.shift_targets@.take(t as int) =~= data.shift_targets@);
                let ax = m.x as i32 + c.0;
                let ay = m.y as i32 + c.1;
                let cell = if wi > 0 && hi > 0 && is_target && writes_on_overflow && (ax < 0 || ax >= wi || ay < 0
                    || ay >= hi) {
                    let cx = if ax < 0 {
                        0
                    } else if ax > wi - 1 {
                        wi - 1
                    } else {
                        ax
                    };
                    let cy = if ay < 0 {
                        0
                    } else if ay > hi - 1 {
                        hi - 1
                    } else {
                        ay
                    };
                    (cx, cy)
                } else {
                    (ax, ay)
                };
                assert(is_target == d.shift_targets@.contains(c));
                assert((cell.0 as int, cell.1 as int) == clamp_cell(m, c, is_target, r.overflow, w as int, h as int));
                let ghost before = out@;
                out.push(cell);
                assert(data.write_cells@.take(k as int + 1) =~= data.write_cells@.take(k as int).push(c));
                assert(out@.map_values(|c: (i32, i32)| (c.0 as int, c.1 as int)) =~= before.map_values(
                    |c: (i32, i32)| (c.0 as int, c.1 as int),
                ).push((cell.0 as int, cell.1 as int)));
                assert(data.write_cells@.take(k as int).push(c).map_values(
                    |c: (i32, i32)| clamp_cell(m, c, d.shift_targets@.contains(c), r.overflow, w as int, h as int),
                ) =~= data.write_cells@.take(k as int).map_values(
                    |c: (i32, i32)| clamp_cell(m, c, d.shift_targets@.contains(c), r.overflow, w as int, h as int),
                ).push(clamp_cell(m, c, d.shift_targets@.contains(c), r.overflow, w as int, h as int)));
                assert(out@.map_values(|c: (i32, i32)| (c.0 as int, c.1 as int)) =~= data.write_cells@.take(
                    k as int + 1,
                ).map_values(|c: (i32, i32)| clamp_cell(m, c, d.shift_targets@.contains(c), r.overflow, w as int, h as int)));
                k += 1;
            }
            assert(data.write_cells@.take(k as int) =~= data.write_cells@);
            out
        },
    }
}

// ---------------------------------------------------------------------------
// Greedy arbitration
// ---------------------------------------------------------------------------

/// Number of `true` entries.
pub open spec fn count_true(s: Seq<bool>) -> nat
    decreases s.len(),
{
    if s.len() == 0 {
        0
    } else {
        count_true(s.drop_last()) + if s.last() {
            1nat
        } else {
            0nat
        }
    }
}

proof fn lemma_count_true_bound(s: Seq<bool>)
    ensures
        count_true(s) <= s.len(),
    decreases s.len(),
{
    if s.len() > 0 {
        lemma_count_true_bound(s.drop_last());
    }
}

proof fn lemma_count_true_set(s: Seq<bool>, i: int)
    requires
        0 <= i < s.len(),
        !s[i],
    ensures
        count_true(s.update(i, true)) == count_true(s) + 1,
    decreases s.len(),
{
    let t = s.update(i, true);
    if i == s.len() - 1 {
        assert(t.drop_last() =~= s.drop_last());
    } else {
        assert(t.drop_last() =~= s.drop_last().update(i, true));
        lemma_count_true_set(s.drop_last(), i);
    }
}

proof fn lemma_lex_trans(a: Seq<u8>, b: Seq<u8>, c: Seq<u8>)
    requires
        lex_lt(a, b),
        lex_lt(b, c),
    ensures
        lex_lt(a, c),
    decreases a.len(),
{
    if a.len() > 0 && a[0] == b[0] && b[0] == c[0] {
        lemma_lex_trans(a.drop_first(), b.drop_first(), c.drop_first());
    }
}

proof fn lemma_ranks_transitive(keys: Seq<MatchKey>, i: int, j: int, l: int)
    requires
        0 <= i < keys.len(),
        0 <= j < keys.len(),
        0 <= l < keys.len(),
        ranks_before(keys, i, j),
        ranks_before(keys, j, l),
    ensures
        ranks_before(keys, i, l),
{
    let (a, b, c) = (keys[i], keys[j], keys[l]);
    if lex_lt(c.3, b.3) && lex_lt(b.3, a.3) {
        lemma_lex_trans(c.3, b.3, a.3);
    }
    lemma_lex_strict(a.3, c.3);
}

proof fn lemma_overlap_ints(u: Seq<(i32, i32)>, v: Seq<(i32, i32)>)
    ensures
        overlap(int_cells(u), int_cells(v)) <==> exists|c: (i32, i32)| u.contains(c) && v.contains(c),
{
    if exists|c: (i32, i32)| u.contains(c) && v.contains(c) {
        let c = choose|c: (i32, i32)| u.contains(c) && v.contains(c);
        let q = choose|q: int| 0 <= q < u.len() && u[q] == c;
        let r = choose|r: int| 0 <= r < v.len() && v[r] == c;
        let d = (c.0 as int, c.1 as int);
        assert(int_cells(u)[q] == d);
        assert(int_cells(v)[r] == d);
        assert(int_cells(u).contains(d) && int_cells(v).contains(d));
    }
    if overlap(int_cells(u), int_cells(v)) {
        let d = choose|d: (int, int)| int_cells(u).contains(d) && int_cells(v).contains(d);
        let q = choose|q: int| 0 <= q < int_cells(u).len() && int_cells(u)[q] == d;
        let r = choose|r: int| 0 <= r < int_cells(v).len() && int_cells(v)[r] == d;
        assert(u[q] == v[r]);
        assert(u.contains(u[q]) && v.contains(u[q]));
    }
}

/// The id of the rule of match `m` (empty without a rule).
fn rule_id_of<'a>(index: &'a RuleIndex, m: RuleMatch) -> (r: &'a [CellType])
    ensures
        r@.map_values(|c: CellType| c.0) == match match_rule(*index, m) {
            Some(rule) => id_bytes(rule),
            None => Seq::empty(),
        },
{
    match find_rule(index, m) {
        Some(rule) => rule.id.as_slice(),
        None => {
            let e: &[CellType] = &[];
            assert(e@.map_values(|c: CellType| c.0) =~= Seq::<u8>::empty());
            e
        },
    }
}

/// The key of every match: its numbers in `nums`, the rest read off the match.
pub open spec fn keys_described(index: RuleIndex, ms: Seq<RuleMatch>, nums: Seq<(u32, u32, u32)>, keys: Seq<MatchKey>) -> bool {
    &&& nums.len() == ms.len()
    &&& keys.len() == ms.len()
    &&& forall|k: int|
        0 <= k < ms.len() ==> (#[trigger] nums[k]).0 == keys[k].0 && nums[k].1 == keys[k].1 && nums[k].2 == keys[k].2
            && keys[k].3 == (match match_rule(index, ms[k]) {
            Some(rule) => id_bytes(rule),
            None => Seq::empty(),
        }) && keys[k].4 == ms[k].x && keys[k].5 == ms[k].y && keys[k].6 == ms[k].rule_idx
}

/// Whether match `i` is considered before match `j`.
fn ranks_before_exec(
    index: &RuleIndex,
    ms: &Vec<RuleMatch>,
    nums: &Vec<(u32, u32, u32)>,
    i: usize,
    j: usize,
    Ghost(keys): Ghost<Seq<MatchKey>>,
) -> (b: bool)
    requires
        i < ms@.len(),
        j < ms@.len(),
        keys_described(*index, ms@, nums@, keys),
    ensures
        b == ranks_before(keys, i as int, j as int),
{
    let a = nums[i];
    let c = nums[j];
    assert(a == nums@[i as int] && c == nums@[j as int]);
    if a.0 != c.0 {
        return a.0 > c.0;
    }
    if a.1 != c.1 {
        return a.1 > c.1;
    }
    if a.2 != c.2 {
        return a.2 > c.2;
    }
    let order = compare_ids(rule_id_of(index, ms[i]), rule_id_of(index, ms[j]));
    proof {
        lemma_lex_strict(keys[i as int].3, keys[j as int].3);
    }
    if order == 1 {
        return true;
    }
    if order == -1 {
        return false;
    }
    let mi = ms[i];
    let mj = ms[j];
    if mi.x != mj.x {
        return mi.x > mj.x;
    }
    if mi.y != mj.y {
        return mi.y > mj.y;
    }
    if mi.rule_idx != mj.rule_idx {
        return mi.rule_idx > mj.rule_idx;
    }
    assert(keys[i as int] == keys[j as int]);
    i < j
}

/// Whether some cell of `cells` is in `used`.
fn any_used(cells: &Vec<(i32, i32)>, used: &Vec<(i32, i32)>) -> (b: bool)
    ensures
        b == exists|c: (i32, i32)| cells@.contains(c) && used@.contains(c),
{
    let mut k: usize = 0;
    while k < cells.len()
        invariant
            k <= cells@.len(),
            forall|q: int| 0 <= q < k ==> !used@.contains(#[trigger] cells@[q]),
        decreases cells@.len() - k,
    {
        let c = cells[k];
        let mut t: usize = 0;
        while t < used.len()
            invariant
                t <= used@.len(),
                k < cells@.len(),
                c == cells@[k as int],
                forall|q: int| 0 <= q < t ==> used@[q] != c,
            decreases used@.len() - t,
        {
            if used[t].0 == c.0 && used[t].1 == c.1 {
                assert(used@[t as int] == c);
                assert(cells@.contains(c) && used@.contains(c));
                return true;
            }
            t += 1;
        }
        assert(!used@.contains(c));
        k += 1;
    }
    assert forall|c: (i32, i32)| !(cells@.contains(c) && used@.contains(c)) by {
        if cells@.contains(c) {
            let q = choose|q: int| 0 <= q < cells@.len() && cells@[q] == c;
        }
    }
    false
}

/// Appends the cells `cs` to `used`.
fn append_cells(used: &mut Vec<(i32, i32)>, cs: &Vec<(i32, i32)>)
    ensures
        final(used)@ == old(used)@ + cs@,
{
    let ghost start = used@;
    let mut t: usize = 0;
    while t < cs.len()
        invariant
            t <= cs@.len(),
            used@ == start + cs@.take(t as int),
        decreases cs@.len() - t,
    {
        used.push(cs[t]);
        let ghost t0 = t;
        t += 1;
        proof {
            assert(cs@.take(t as int) =~= cs@.take(t0 as int).push(cs@[t0 as int]));
        }
    }
    assert(cs@.take(t as int) =~= cs@);
}

/// The first match, in the order considered, among those not yet `done`; `n` when all are.
fn next_match(
    index: &RuleIndex,
    ms: &Vec<RuleMatch>,
    nums: &Vec<(u32, u32, u32)>,
    done: &Vec<bool>,
    Ghost(keys): Ghost<Seq<MatchKey>>,
) -> (best: usize)
    requires
        keys_described(*index, ms@, nums@, keys),
        done@.len() == ms@.len(),
    ensures
        best == ms@.len() ==> forall|q: int| 0 <= q < ms@.len() ==> #[trigger] done@[q],
        best < ms@.len() ==> !done@[best as int],
        best <= ms@.len(),
        best < ms@.len() ==> forall|q: int|
            0 <= q < ms@.len() && !#[trigger] done@[q] && q != best ==> ranks_before(keys, best as int, q),
{
    let n = ms.len();
    let mut best: usize = n;
    let mut i: usize = 0;
    while i < n
        invariant
            n == ms@.len(),
            keys_described(*index, ms@, nums@, keys),
            done@.len() == n,
            i <= n,
            best == n || (best < i && !done@[best as int]),
            best == n ==> forall|q: int| 0 <= q < i ==> #[trigger] done@[q],
            best < n ==> forall|q: int|
                0 <= q < i && !#[trigger] done@[q] && q != best ==> ranks_before(keys, best as int, q),
        decreases n - i,
    {
        if !done[i] {
            if best == n {
                best = i;
            } else {
                let better = ranks_before_exec(index, ms, nums, i, best, Ghost(keys));
                proof {
                    lemma_ranks_order(keys, i as int, best as int);
                }
                if better {
                    proof {
                        assert forall|q: int| 0 <= q < i + 1 && !#[trigger] done@[q] && q != i implies ranks_before(
                            keys,
                            i as int,
                            q,
                        ) by {
                            if q != best {
                                lemma_ranks_transitive(keys, i as int, best as int, q);
                            }
                        }
                    }
                    best = i;
                }
            }
        }
        i += 1;
    }
    best
}

/// `sel` is the greedy selection when the cells `res` are taken from the start: a match is
/// accepted exactly when it writes none of `res` and no accepted match before it shares a
/// cell with it.
pub open spec fn greedy_reserving(
    keys: Seq<MatchKey>,
    cells: Seq<Seq<(int, int)>>,
    sel: Seq<int>,
    res: Seq<(int, int)>,
) -> bool {
    &&& forall|a: int| 0 <= a < sel.len() ==> 0 <= #[trigger] sel[a] < keys.len()
    &&& forall|a: int, b: int| 0 <= a < b < sel.len() ==> ranks_before(keys, #[trigger] sel[a], #[trigger] sel[b])
    &&& forall|i: int|
        0 <= i < keys.len() ==> (#[trigger] sel.contains(i) <==> !overlap(cells[i], res) && !blocked(
            keys,
            cells,
            sel,
            i,
        ))
}

/// The same priority and age as match `j`.
pub open spec fn same_priority_age(keys: Seq<MatchKey>, i: int, j: int) -> bool {
    keys[i].0 == keys[j].0 && keys[i].1 == keys[j].1
}

/// Accepted match `sel[a]` won below priority and age: a match considered after it, of the
/// same priority and age, was rejected while sharing one of its cells.
pub open spec fn tie_decided(keys: Seq<MatchKey>, cells: Seq<Seq<(int, int)>>, sel: Seq<int>, a: int) -> bool {
    exists|i: int|
        0 <= i < keys.len() && !sel.contains(i) && ranks_before(keys, sel[a], i) && #[trigger] overlap(
            cells[i],
            cells[sel[a]],
        ) && same_priority_age(keys, i, sel[a])
}

/// `r` is the greedy selection of `ms` with the cells `res` taken, in the order considered,
/// and `decided[a]` tells whether the win of `r[a]` was decided below priority and age.
pub open spec fn arbitration_outcome(
    r: Seq<RuleMatch>,
    decided: Seq<bool>,
    ms: Seq<RuleMatch>,
    keys: Seq<MatchKey>,
    cells: Seq<Seq<(int, int)>>,
    res: Seq<(int, int)>,
) -> bool {
    exists|sel: Seq<int>|
        #[trigger] greedy_reserving(keys, cells, sel, res) && r == sel.map_values(|k: int| ms[k]) && decided.len()
            == sel.len() && forall|a: int| 0 <= a < sel.len() ==> decided[a] == tie_decided(keys, cells, sel, a)
}

/// With nothing reserved, the outcome is the greedy selection.
pub proof fn lemma_outcome_result(
    r: Seq<RuleMatch>,
    decided: Seq<bool>,
    ms: Seq<RuleMatch>,
    keys: Seq<MatchKey>,
    cells: Seq<Seq<(int, int)>>,
)
    requires
        arbitration_outcome(r, decided, ms, keys, cells, Seq::empty()),
    ensures
        arbitration_result(r, ms, keys, cells),
{
    let sel = choose|sel: Seq<int>|
        #[trigger] greedy_reserving(keys, cells, sel, Seq::empty()) && r == sel.map_values(|k: int| ms[k])
            && decided.len() == sel.len() && forall|a: int|
            0 <= a < sel.len() ==> decided[a] == tie_decided(keys, cells, sel, a);
    assert forall|i: int| 0 <= i < keys.len() implies (#[trigger] sel.contains(i) <==> !blocked(keys, cells, sel, i)) by {
        assert(!overlap(cells[i], Seq::<(int, int)>::empty()));
    }
    assert(greedy_selection(keys, cells, sel));
}

/// `tie_decided`, counting only the matches already considered.
pub open spec fn tie_decided_upto(
    keys: Seq<MatchKey>,
    cells: Seq<Seq<(int, int)>>,
    sel: Seq<int>,
    done: Seq<bool>,
    a: int,
) -> bool {
    exists|i: int|
        0 <= i < keys.len() && done[i] && !sel.contains(i) && ranks_before(keys, sel[a], i) && #[trigger] overlap(
            cells[i],
            cells[sel[a]],
        ) && same_priority_age(keys, i, sel[a])
}

/// Greedy arbitration: the matches are considered in order of their keys (priority, age,
/// rotated tie-break, rule id, x, y, rule index, all highest first); each is accepted
/// exactly when none of its written cells is `reserved` or was written by a match accepted
/// before it. The accepted matches come back in that order, with, for each, whether its win
/// was decided below priority and age (a rejected match of the same priority and age shared
/// one of its cells). `gen` rotates the tie-breaks; `starv` holds the starvation counters;
/// `cams` the targets found by `cam` matches.
pub fn arbitrate_with_cam(
    all_matches: Vec<RuleMatch>,
    index: &RuleIndex,
    cache: &RuleDataCache,
    grid: &Grid,
    cams: &MatchMap<(u32, u32)>,
    fb: &MatchMap<u64>,
    gen: u32,
    starv: &MatchMap<u32>,
    reserved: &Vec<(i32, i32)>,
) -> (r: (Vec<RuleMatch>, Vec<bool>))
    requires
        grid_small(*grid),
        index_in_bounds(*index),
        cache.caches(*index),
        forall|i: int|
            0 <= i < all_matches@.len() ==> (#[trigger] all_matches@[i]).x <= coord_limit() && all_matches@[i].y
                <= coord_limit(),
        forall|k: (u32, u32, usize)| #[trigger] cams@.contains_key(k) ==> cams@[k].0 <= coord_limit() && cams@[k].1 <= coord_limit(),
    ensures
        arbitration_outcome(
            r.0@,
            r.1@,
            all_matches@,
            keys_of(*grid, *index, starv@, gen, all_matches@),
            cells_of(*index, *cache, cams@, fb@, grid.spec_width() as int, grid.spec_height() as int, all_matches@),
            int_cells(reserved@),
        ),
        r.0@.len() <= all_matches@.len(),
{
    let ms = all_matches;
    let n = ms.len();
    let w = grid.width();
    let h = grid.height();
    let ghost keys = keys_of(*grid, *index, starv@, gen, ms@);
    let ghost cells = cells_of(*index, *cache, cams@, fb@, w as int, h as int, ms@);
    let ghost res = int_cells(reserved@);
    let mut nums: Vec<(u32, u32, u32)> = Vec::new();
    let mut cellv: Vec<Vec<(i32, i32)>> = Vec::new();
    let mut done: Vec<bool> = Vec::new();
    let mut k: usize = 0;
    while k < n
        invariant
            n == ms@.len(),
            k <= n,
            grid_small(*grid),
            w == grid.spec_width(),
            h == grid.spec_height(),
            index_in_bounds(*index),
            cache.caches(*index),
            forall|i: int| 0 <= i < ms@.len() ==> (#[trigger] ms@[i]).x <= coord_limit() && ms@[i].y <= coord_limit(),
            forall|q: (u32, u32, usize)| #[trigger] cams@.contains_key(q) ==> cams@[q].0 <= coord_limit() && cams@[q].1 <= coord_limit(),
            keys == keys_of(*grid, *index, starv@, gen, ms@),
            cells == cells_of(*index, *cache, cams@, fb@, w as int, h as int, ms@),
            nums@.len() == k,
            cellv@.len() == k,
            done@.len() == k,
            forall|q: int| 0 <= q < k ==> !(#[trigger] done@[q]),
            forall|q: int|
                0 <= q < k ==> (#[trigger] nums@[q]).0 == keys[q].0 && nums@[q].1 == keys[q].1 && nums@[q].2
                    == keys[q].2,
            forall|q: int| 0 <= q < k ==> int_cells((#[trigger] cellv@[q])@) == cells[q],
        decreases n - k,
    {
        let m = ms[k];
        nums.push(key_numbers(grid, index, starv, gen, m));
        cellv.push(get_match_affected_cells(index, cache, cams, fb, w, h, m));
        done.push(false);
        k += 1;
    }
    assert(keys_described(*index, ms@, nums@, keys));
    let mut used: Vec<(i32, i32)> = Vec::new();
    append_cells(&mut used, reserved);
    let mut accepted: Vec<RuleMatch> = Vec::new();
    let mut acc_idx: Vec<usize> = Vec::new();
    let mut decided: Vec<bool> = Vec::new();
    let ghost mut sel: Seq<int> = Seq::empty();
    assert(used@ =~= reserved@);
    loop
        invariant
            n == ms@.len(),
            keys_described(*index, ms@, nums@, keys),
            cells.len() == n,
            cellv@.len() == n,
            done@.len() == n,
            res == int_cells(reserved@),
            forall|q: int| 0 <= q < n ==> int_cells((#[trigger] cellv@[q])@) == cells[q],
            forall|p: int, u: int|
                0 <= p < n && 0 <= u < n && #[trigger] done@[p] && !#[trigger] done@[u] ==> ranks_before(keys, p, u),
            forall|a: int| 0 <= a < sel.len() ==> 0 <= #[trigger] sel[a] < n && done@[sel[a]],
            forall|a: int, b: int| 0 <= a < b < sel.len() ==> ranks_before(keys, #[trigger] sel[a], #[trigger] sel[b]),
            accepted@ == sel.map_values(|q: int| ms@[q]),
            sel.len() <= count_true(done@),
            acc_idx@.len() == sel.len(),
            forall|a: int| 0 <= a < sel.len() ==> #[trigger] acc_idx@[a] as int == sel[a],
            decided@.len() == sel.len(),
            forall|a: int| 0 <= a < sel.len() ==> #[trigger] decided@[a] == tie_decided_upto(keys, cells, sel, done@, a),
            forall|c: (i32, i32)|
                #[trigger] used@.contains(c) <==> (reserved@.contains(c) || exists|a: int|
                    0 <= a < sel.len() && (#[trigger] cellv@[sel[a]])@.contains(c)),
            forall|i: int|
                0 <= i < n && #[trigger] done@[i] ==> (sel.contains(i) <==> !overlap(cells[i], res) && !blocked(
                    keys,
                    cells,
                    sel,
                    i,
                )),
        ensures
            forall|q: int| 0 <= q < n ==> #[trigger] done@[q],
        decreases n - count_true(done@),
    {
        let best = next_match(index, &ms, &nums, &done, Ghost(keys));
        if best == n {
            break;
        }
        let ghost b = best as int;
        let ghost d0 = done@;
        let ghost sel0 = sel;
        let ghost used0 = used@;
        let ghost dec0 = decided@;
        let conflict = any_used(&cellv[best], &used);
        proof {
            lemma_count_true_set(done@, b);
            lemma_count_true_bound(done@.update(b, true));
            lemma_ranks_order(keys, b, b);
            if sel0.contains(b) {
                let a = choose|a: int| 0 <= a < sel0.len() && sel0[a] == b;
                assert(d0[sel0[a]]);
            }
            // `conflict` exactly when `b` writes a reserved cell or shares a cell with a match
            // already accepted
            lemma_overlap_ints(cellv@[b]@, reserved@);
            if conflict {
                let c = choose|c: (i32, i32)| cellv@[b]@.contains(c) && used@.contains(c);
                if !reserved@.contains(c) {
                    let a = choose|a: int| 0 <= a < sel0.len() && (#[trigger] cellv@[sel0[a]])@.contains(c);
                    lemma_overlap_ints(cellv@[b]@, cellv@[sel0[a]]@);
                    assert(d0[sel0[a]]);
                    assert(sel0.contains(sel0[a]));
                    assert(blocked(keys, cells, sel0, b));
                } else {
                    assert(overlap(cells[b], res));
                }
            } else {
                assert forall|j: int| #[trigger] sel0.contains(j) implies !(ranks_before(keys, j, b) && overlap(
                    cells[b],
                    cells[j],
                )) by {
                    let a = choose|a: int| 0 <= a < sel0.len() && sel0[a] == j;
                    lemma_overlap_ints(cellv@[b]@, cellv@[j]@);
                    if overlap(cells[b], cells[j]) {
                        let c = choose|c: (i32, i32)| cellv@[b]@.contains(c) && cellv@[j]@.contains(c);
                        assert(cellv@[sel0[a]]@.contains(c));
                        assert(used@.contains(c));
                    }
                }
                assert(!blocked(keys, cells, sel0, b));
                if overlap(cells[b], res) {
                    let c = choose|c: (i32, i32)| cellv@[b]@.contains(c) && reserved@.contains(c);
                    assert(used@.contains(c));
                }
            }
            assert(!sel.contains(b));
        }
        done.set(best, true);
        if !conflict {
            append_cells(&mut used, &cellv[best]);
            accepted.push(ms[best]);
            acc_idx.push(best);
            decided.push(false);
            proof {
                sel = sel.push(b);
                assert(accepted@ =~= sel.map_values(|q: int| ms@[q]));
                assert forall|c: (i32, i32)|
                    #[trigger] used@.contains(c) <==> (reserved@.contains(c) || exists|a: int|
                        0 <= a < sel.len() && (#[trigger] cellv@[sel[a]])@.contains(c)) by {
                    if used@.contains(c) {
                        let q = choose|q: int| 0 <= q < used@.len() && used@[q] == c;
                        if q < used0.len() {
                            assert(used0[q] == c);
                            assert(used0.contains(c));
                            if !reserved@.contains(c) {
                                let a = choose|a: int|
                                    0 <= a < sel0.len() && (#[trigger] cellv@[sel0[a]])@.contains(c);
                                assert(sel[a] == sel0[a]);
                            }
                        } else {
                            assert(cellv@[b]@[q - used0.len()] == c);
                            assert(cellv@[b]@.contains(c));
                            assert(sel[sel0.len() as int] == b);
                        }
                    }
                    if reserved@.contains(c) {
                        assert(used0.contains(c));
                        let q = choose|q: int| 0 <= q < used0.len() && used0[q] == c;
                        assert(used@[q] == c);
                    }
                    if exists|a: int| 0 <= a < sel.len() && (#[trigger] cellv@[sel[a]])@.contains(c) {
                        let a = choose|a: int| 0 <= a < sel.len() && (#[trigger] cellv@[sel[a]])@.contains(c);
                        if a < sel0.len() {
                            assert(sel[a] == sel0[a]);
                            assert(used0.contains(c));
                            let q = choose|q: int| 0 <= q < used0.len() && used0[q] == c;
                            assert(used@[q] == c);
                        } else {
                            let q = choose|q: int| 0 <= q < cellv@[b]@.len() && cellv@[b]@[q] == c;
                            assert(used@[used0.len() + q] == c);
                        }
                    }
                }
            }
        } else {
            // Every accepted match that owns one of `b`'s cells with `b`'s priority and age won
            // below them.
            let nb = nums[best];
            let mut a: usize = 0;
            while a < acc_idx.len()
                invariant
                    n == ms@.len(),
                    keys_described(*index, ms@, nums@, keys),
                    cellv@.len() == n,
                    0 <= b < n,
                    b == best as int,
                    nb == nums@[b],
                    acc_idx@.len() == sel.len(),
                    forall|q: int| 0 <= q < sel.len() ==> #[trigger] acc_idx@[q] as int == sel[q],
                    forall|q: int| 0 <= q < sel.len() ==> 0 <= #[trigger] sel[q] < n,
                    a <= sel.len(),
                    decided@.len() == sel.len(),
                    dec0.len() == sel.len(),
                    forall|q: int|
                        0 <= q < a ==> #[trigger] decided@[q] == (dec0[q] || (same_priority_age(keys, b, sel[q])
                            && exists|c: (i32, i32)| cellv@[b]@.contains(c) && cellv@[sel[q]]@.contains(c))),
                    forall|q: int| a <= q < sel.len() ==> #[trigger] decided@[q] == dec0[q],
                decreases sel.len() - a,
            {
                let o = acc_idx[a];
                let no = nums[o];
                let ghost sq = sel[a as int];
                proof {
                    assert(o as int == sq);
                    assert(no == nums@[sq]);
                    assert(nb.0 == keys[b].0 && nb.1 == keys[b].1);
                    assert(no.0 == keys[sq].0 && no.1 == keys[sq].1);
                }
                let ghost before = decided@;
                let mut hit = false;
                if nb.0 == no.0 && nb.1 == no.1 {
                    hit = any_used(&cellv[best], &cellv[o]);
                    if hit {
                        decided.set(a, true);
                    }
                }
                proof {
                    assert(hit == (same_priority_age(keys, b, sq) && exists|c: (i32, i32)|
                        cellv@[b]@.contains(c) && cellv@[sq]@.contains(c)));
                    assert(decided@[a as int] == (dec0[a as int] || hit));
                }
                let ghost a0 = a;
                a += 1;
                proof {
                    assert forall|q: int| 0 <= q < a implies #[trigger] decided@[q] == (dec0[q] || (same_priority_age(
                        keys,
                        b,
                        sel[q],
                    ) && exists|c: (i32, i32)| cellv@[b]@.contains(c) && cellv@[sel[q]]@.contains(c))) by {
                        if q < a0 {
                            assert(decided@[q] == before[q]);
                        }
                    }
                }
            }
        }
        proof {
            assert(done@ == d0.update(b, true));
            assert(sel.len() == sel0.len() || (!conflict && sel == sel0.push(b)));
            assert forall|a: int| 0 <= a < sel0.len() implies sel[a] == sel0[a] by {}
            assert forall|j: int| #[trigger] sel.contains(j) <==> (sel0.contains(j) || (!conflict && j == b)) by {
                if sel0.contains(j) {
                    let a = choose|a: int| 0 <= a < sel0.len() && sel0[a] == j;
                    assert(sel[a] == j);
                }
                if !conflict && j == b {
                    assert(sel[sel0.len() as int] == b);
                }
                if sel.contains(j) {
                    let a = choose|a: int| 0 <= a < sel.len() && sel[a] == j;
                    if a < sel0.len() {
                        assert(sel0[a] == j);
                    }
                }
            }
            assert forall|a: int| 0 <= a < sel.len() implies 0 <= #[trigger] sel[a] < n && done@[sel[a]] by {
                if a < sel0.len() {
                    assert(d0[sel0[a]]);
                }
            }
            assert forall|a: int, c: int| 0 <= a < c < sel.len() implies ranks_before(
                keys,
                #[trigger] sel[a],
                #[trigger] sel[c],
            ) by {
                if c < sel0.len() {
                    assert(sel[c] == sel0[c]);
                } else {
                    assert(d0[sel0[a]]);
                    assert(sel[c] == b);
                }
            }
            assert forall|p: int, u: int|
                0 <= p < n && 0 <= u < n && #[trigger] done@[p] && !#[trigger] done@[u] implies ranks_before(keys, p, u) by {
                if p != b {
                    assert(d0[p] && !d0[u]);
                }
            }
            assert forall|i: int| 0 <= i < n && #[trigger] done@[i] implies (sel.contains(i) <==> !overlap(cells[i], res)
                && !blocked(keys, cells, sel, i)) by {
                if i != b {
                    assert(d0[i]);
                    if blocked(keys, cells, sel, i) {
                        let j = choose|j: int|
                            #[trigger] sel.contains(j) && ranks_before(keys, j, i) && overlap(cells[i], cells[j]);
                        if j == b {
                            lemma_ranks_order(keys, i, b);
                        }
                        assert(sel0.contains(j));
                    }
                    if blocked(keys, cells, sel0, i) {
                        let j = choose|j: int|
                            #[trigger] sel0.contains(j) && ranks_before(keys, j, i) && overlap(cells[i], cells[j]);
                        assert(sel.contains(j));
                    }
                } else if !conflict {
                    if blocked(keys, cells, sel, b) {
                        let j = choose|j: int|
                            #[trigger] sel.contains(j) && ranks_before(keys, j, b) && overlap(cells[b], cells[j]);
                        assert(sel0.contains(j));
                    }
                }
            }
            assert forall|a: int| 0 <= a < sel.len() implies #[trigger] decided@[a] == tie_decided_upto(
                keys,
                cells,
                sel,
                done@,
                a,
            ) by {
                if a < sel0.len() {
                    assert(d0[sel0[a]]);
                    assert(ranks_before(keys, sel0[a], b));
                    lemma_overlap_ints(cellv@[b]@, cellv@[sel0[a]]@);
                    if tie_decided_upto(keys, cells, sel, done@, a) {
                        let i = choose|i: int|
                            0 <= i < keys.len() && done@[i] && !sel.contains(i) && ranks_before(keys, sel[a], i)
                                && #[trigger] overlap(cells[i], cells[sel[a]]) && same_priority_age(keys, i, sel[a]);
                        if i != b {
                            assert(tie_decided_upto(keys, cells, sel0, d0, a));
                        }
                    }
                    if tie_decided_upto(keys, cells, sel0, d0, a) {
                        let i = choose|i: int|
                            0 <= i < keys.len() && d0[i] && !sel0.contains(i) && ranks_before(keys, sel0[a], i)
                                && #[trigger] overlap(cells[i], cells[sel0[a]]) && same_priority_age(keys, i, sel0[a]);
                        assert(i != b);
                        assert(tie_decided_upto(keys, cells, sel, done@, a));
                    }
                    if conflict && same_priority_age(keys, b, sel0[a]) && overlap(cells[b], cells[sel0[a]]) {
                        assert(same_priority_age(keys, b, sel[a]));
                        assert(tie_decided_upto(keys, cells, sel, done@, a));
                    }
                } else {
                    assert(sel[a] == b);
                    if tie_decided_upto(keys, cells, sel, done@, a) {
                        let i = choose|i: int|
                            0 <= i < keys.len() && done@[i] && !sel.contains(i) && ranks_before(keys, sel[a], i)
                                && #[trigger] overlap(cells[i], cells[sel[a]]) && same_priority_age(keys, i, sel[a]);
                        assert(i != b);
                        assert(d0[i]);
                        lemma_ranks_order(keys, i, b);
                    }
                }
            }
        }
    }
    proof {
        assert forall|i: int| 0 <= i < n implies (#[trigger] sel.contains(i) <==> !overlap(cells[i], res) && !blocked(
            keys,
            cells,
            sel,
            i,
        )) by {
            assert(done@[i]);
        }
        assert(greedy_reserving(keys, cells, sel, res));
        assert forall|a: int| 0 <= a < sel.len() implies decided@[a] == tie_decided(keys, cells, sel, a) by {
            assert(decided@[a] == tie_decided_upto(keys, cells, sel, done@, a));
            if tie_decided(keys, cells, sel, a) {
                let i = choose|i: int|
                    0 <= i < keys.len() && !sel.contains(i) && ranks_before(keys, sel[a], i) && #[trigger] overlap(
                        cells[i],
                        cells[sel[a]],
                    ) && same_priority_age(keys, i, sel[a]);
                assert(done@[i]);
            }
        }
        assert(accepted@ == sel.map_values(|k: int| ms@[k]));
        lemma_count_true_bound(done@);
    }
    (accepted, decided)
}

/// Greedy arbitration with no `cam` targets, no starvation counters and generation 0, so
/// that the tie-breaks do not rotate: the matches, considered in order of their keys, are
/// each accepted exactly when none of the cells they write was written by a match accepted
/// before them. Ages and bounds come from `grid`.
pub fn arbitrate(all_matches: Vec<RuleMatch>, index: &RuleIndex, cache: &RuleDataCache, grid: &Grid) -> (r: Vec<
    RuleMatch,
>)
    requires
        grid_small(*grid),
        index_in_bounds(*index),
        cache.caches(*index),
        forall|i: int|
            0 <= i < all_matches@.len() ==> (#[trigger] all_matches@[i]).x <= coord_limit() && all_matches@[i].y
                <= coord_limit(),
    ensures
        arbitration_result(
            r@,
            all_matches@,
            keys_of(*grid, *index, Map::empty(), 0, all_matches@),
            cells_of(*index, *cache, Map::empty(), Map::empty(), grid.spec_width() as int, grid.spec_height() as int, all_matches@),
        ),
{
    let cams: MatchMap<(u32, u32)> = MatchMap::new();
    let fb: MatchMap<u64> = MatchMap::new();
    let starv: MatchMap<u32> = MatchMap::new();
    let reserved: Vec<(i32, i32)> = Vec::new();
    let ghost ms = all_matches@;
    let (r, d) = arbitrate_with_cam(all_matches, index, cache, grid, &cams, &fb, 0, &starv, &reserved);
    proof {
        assert(int_cells(reserved@) =~= Seq::<(int, int)>::empty());
        lemma_outcome_result(
            r@,
            d@,
            ms,
            keys_of(*grid, *index, Map::empty(), 0, ms),
            cells_of(*index, *cache, Map::empty(), Map::empty(), grid.spec_width() as int, grid.spec_height() as int, ms),
        );
    }
    r
}

// ---------------------------------------------------------------------------
// What arbitration guarantees
// ---------------------------------------------------------------------------

/// No two accepted matches write a common cell, every accepted match was among the
/// candidates, and every candidate that was not accepted writes a cell that an accepted
/// match writes.
pub proof fn lemma_arbitration_sound(
    r: Seq<RuleMatch>,
    ms: Seq<RuleMatch>,
    g: Grid,
    index: RuleIndex,
    cache: RuleDataCache,
    cams: Map<(u32, u32, usize), (u32, u32)>,
    fb: Map<(u32, u32, usize), u64>,
    starv: Map<(u32, u32, usize), u32>,
    gen: u32,
)
    requires
        arbitration_result(
            r,
            ms,
            keys_of(g, index, starv, gen, ms),
            cells_of(index, cache, cams, fb, g.spec_width() as int, g.spec_height() as int, ms),
        ),
    ensures
        forall|a: int, b: int|
            0 <= a < b < r.len() ==> !overlap(
                match_cells(index, cache, cams, fb, g.spec_width() as int, g.spec_height() as int, #[trigger] r[a]),
                match_cells(index, cache, cams, fb, g.spec_width() as int, g.spec_height() as int, #[trigger] r[b]),
            ),
        forall|a: int| 0 <= a < r.len() ==> ms.contains(#[trigger] r[a]),
        forall|i: int|
            0 <= i < ms.len() ==> r.contains(#[trigger] ms[i]) || exists|a: int|
                0 <= a < r.len() && overlap(
                    match_cells(index, cache, cams, fb, g.spec_width() as int, g.spec_height() as int, ms[i]),
                    match_cells(index, cache, cams, fb, g.spec_width() as int, g.spec_height() as int, #[trigger] r[a]),
                ),
{
    let w = g.spec_width() as int;
    let h = g.spec_height() as int;
    let keys = keys_of(g, index, starv, gen, ms);
    let cells = cells_of(index, cache, cams, fb, w, h, ms);
    let sel = choose|sel: Seq<int>| #[trigger] greedy_selection(keys, cells, sel) && r == sel.map_values(|k: int| ms[k]);
    assert forall|a: int, b: int| 0 <= a < b < r.len() implies !overlap(
        match_cells(index, cache, cams, fb, w, h, #[trigger] r[a]),
        match_cells(index, cache, cams, fb, w, h, #[trigger] r[b]),
    ) by {
        assert(r[a] == ms[sel[a]] && r[b] == ms[sel[b]]);
        assert(ranks_before(keys, sel[a], sel[b]));
        assert(sel.contains(sel[a]));
        assert(sel.contains(sel[b]));
        assert(!blocked(keys, cells, sel, sel[b]));
        if overlap(cells[sel[a]], cells[sel[b]]) {
            let c = choose|c: (int, int)| cells[sel[a]].contains(c) && cells[sel[b]].contains(c);
            assert(overlap(cells[sel[b]], cells[sel[a]]));
        }
    }
    assert forall|a: int| 0 <= a < r.len() implies ms.contains(#[trigger] r[a]) by {
        assert(r[a] == ms[sel[a]]);
    }
    assert forall|i: int| 0 <= i < ms.len() implies r.contains(#[trigger] ms[i]) || exists|a: int|
        0 <= a < r.len() && overlap(
            match_cells(index, cache, cams, fb, w, h, ms[i]),
            match_cells(index, cache, cams, fb, w, h, #[trigger] r[a]),
        ) by {
        if sel.contains(i) {
            let a = choose|a: int| 0 <= a < sel.len() && sel[a] == i;
            assert(r[a] == ms[i]);
        } else {
            assert(blocked(keys, cells, sel, i));
            let j = choose|j: int| #[trigger] sel.contains(j) && ranks_before(keys, j, i) && overlap(cells[i], cells[j]);
            let a = choose|a: int| 0 <= a < sel.len() && sel[a] == j;
            assert(r[a] == ms[j]);
        }
    }
}

/// Two strictly increasing sequences with the same cells are equal.
pub proof fn lemma_sorted_unique(s1: Seq<(i32, i32)>, s2: Seq<(i32, i32)>)
    requires
        strictly_sorted(s1),
        strictly_sorted(s2),
        forall|c: (i32, i32)| s1.contains(c) <==> s2.contains(c),
    ensures
        s1 == s2,
    decreases s1.len(),
{
    if s1.len() == 0 {
        if s2.len() > 0 {
            assert(s2.contains(s2[0]));
        }
        assert(s1 =~= s2);
    } else {
        let a = s1[0];
        assert(s1.contains(a));
        assert(s2.contains(a));
        let b = s2[0];
        assert(s2.contains(b));
        assert(s1.contains(b));
        let k = choose|k: int| 0 <= k < s1.len() && s1[k] == b;
        let l = choose|l: int| 0 <= l < s2.len() && s2[l] == a;
        if k > 0 && l > 0 {
            assert(cell_lt(s1[0], s1[k]));
            assert(cell_lt(s2[0], s2[l]));
        }
        assert(a == b);
        let t1 = s1.drop_first();
        let t2 = s2.drop_first();
        assert forall|c: (i32, i32)| t1.contains(c) <==> t2.contains(c) by {
            if t1.contains(c) {
                let i = choose|i: int| 0 <= i < t1.len() && t1[i] == c;
                assert(s1[i + 1] == c);
                assert(cell_lt(s1[0], s1[i + 1]));
                assert(s2.contains(c));
                let j = choose|j: int| 0 <= j < s2.len() && s2[j] == c;
                assert(j != 0);
                assert(t2[j - 1] == c);
            }
            if t2.contains(c) {
                let i = choose|i: int| 0 <= i < t2.len() && t2[i] == c;
                assert(s2[i + 1] == c);
                assert(cell_lt(s2[0], s2[i + 1]));
                assert(s1.contains(c));
                let j = choose|j: int| 0 <= j < s1.len() && s1[j] == c;
                assert(j != 0);
                assert(t1[j - 1] == c);
            }
        }
        assert(strictly_sorted(t1)) by {
            assert forall|i: int, j: int| 0 <= i < j < t1.len() implies cell_lt(#[trigger] t1[i], #[trigger] t1[j]) by {
                assert(t1[i] == s1[i + 1] && t1[j] == s1[j + 1]);
            }
        }
        assert(strictly_sorted(t2)) by {
            assert forall|i: int, j: int| 0 <= i < j < t2.len() implies cell_lt(#[trigger] t2[i], #[trigger] t2[j]) by {
                assert(t2[i] == s2[i + 1] && t2[j] == s2[j + 1]);
            }
        }
        lemma_sorted_unique(t1, t2);
        assert(s1 =~= seq![a] + t1);
        assert(s2 =~= seq![b] + t2);
    }
}

/// The cells a match writes are the same whichever cache of the index is used.
pub proof fn lemma_cells_cache_independent(
    index: RuleIndex,
    c1: RuleDataCache,
    c2: RuleDataCache,
    cams: Map<(u32, u32, usize), (u32, u32)>,
    fb: Map<(u32, u32, usize), u64>,
    w: int,
    h: int,
    ms: Seq<RuleMatch>,
)
    requires
        c1.caches(index),
        c2.caches(index),
    ensures
        cells_of(index, c1, cams, fb, w, h, ms) == cells_of(index, c2, cams, fb, w, h, ms),
{
    assert forall|i: int| 0 <= i < ms.len() implies match_cells(index, c1, cams, fb, w, h, ms[i]) == match_cells(
        index,
        c2,
        cams,
        fb,
        w,
        h,
        ms[i],
    ) by {
        let m = ms[i];
        if let Some(r) = match_rule(index, m) {
            let d1 = c1.entry(m.head.0 as int, m.rule_idx as int);
            let d2 = c2.entry(m.head.0 as int, m.rule_idx as int);
            assert(c1.len_of(m.head.0 as int) == index.rules_of(m.head.0 as int).len());
            assert(c2.len_of(m.head.0 as int) == index.rules_of(m.head.0 as int).len());
            assert(rule_data_of(d1, r));
            assert(rule_data_of(d2, r));
            assert forall|c: (i32, i32)| d1.write_cells@.contains(c) <==> d2.write_cells@.contains(c) by {
                assert(d1.write_cells@.contains(c) <==> crate::geometry::in_write_set(r, c));
                assert(d2.write_cells@.contains(c) <==> crate::geometry::in_write_set(r, c));
            }
            lemma_sorted_unique(d1.write_cells@, d2.write_cells@);
        }
    }
    assert(cells_of(index, c1, cams, fb, w, h, ms) =~= cells_of(index, c2, cams, fb, w, h, ms));
}

/// Law: matches that write no common cell are all accepted, whatever their keys: with
/// nothing reserved, the accepted matches are exactly the matches.
pub proof fn lemma_disjoint_matches_all_accepted(
    r: Seq<RuleMatch>,
    decided: Seq<bool>,
    ms: Seq<RuleMatch>,
    keys: Seq<MatchKey>,
    cells: Seq<Seq<(int, int)>>,
)
    requires
        keys.len() == ms.len(),
        arbitration_outcome(r, decided, ms, keys, cells, Seq::empty()),
        forall|i: int, j: int| 0 <= i < ms.len() && 0 <= j < ms.len() && i != j ==> !overlap(#[trigger] cells[i], #[trigger] cells[j]),
    ensures
        forall|m: RuleMatch| r.contains(m) <==> ms.contains(m),
{
    let sel = choose|sel: Seq<int>|
        #[trigger] greedy_reserving(keys, cells, sel, Seq::empty()) && r == sel.map_values(|k: int| ms[k])
            && decided.len() == sel.len() && forall|a: int|
            0 <= a < sel.len() ==> decided[a] == tie_decided(keys, cells, sel, a);
    assert forall|i: int| 0 <= i < ms.len() implies #[trigger] sel.contains(i) by {
        if blocked(keys, cells, sel, i) {
            let j = choose|j: int| #[trigger] sel.contains(j) && ranks_before(keys, j, i) && overlap(cells[i], cells[j]);
            if j == i {
                lemma_lex_strict(keys[i].3, keys[i].3);
            }
            let a = choose|a: int| 0 <= a < sel.len() && sel[a] == j;
            assert(0 <= sel[a] < keys.len());
        }
        assert(!overlap(cells[i], Seq::<(int, int)>::empty()));
    }
    assert forall|m: RuleMatch| r.contains(m) <==> ms.contains(m) by {
        if r.contains(m) {
            let a = choose|a: int| 0 <= a < r.len() && r[a] == m;
            assert(0 <= sel[a] < keys.len());
            assert(ms[sel[a]] == m);
        }
        if ms.contains(m) {
            let i = choose|i: int| 0 <= i < ms.len() && ms[i] == m;
            assert(sel.contains(i));
            let a = choose|a: int| 0 <= a < sel.len() && sel[a] == i;
            assert(r[a] == m);
        }
    }
}

/// Among the indices below `n` that satisfy `d`, one that no other of them ranks before.
proof fn lemma_first_ranked(keys: Seq<MatchKey>, d: spec_fn(int) -> bool, n: int) -> (m: int)
    requires
        0 <= n <= keys.len(),
        exists|i: int| 0 <= i < n && #[trigger] d(i),
    ensures
        0 <= m < n,
        d(m),
        forall|j: int| 0 <= j < n && #[trigger] d(j) ==> !ranks_before(keys, j, m),
    decreases n,
{
    if exists|i: int| 0 <= i < n - 1 && #[trigger] d(i) {
        let m0 = lemma_first_ranked(keys, d, n - 1);
        if d(n - 1) && ranks_before(keys, n - 1, m0) {
            assert forall|j: int| 0 <= j < n && #[trigger] d(j) implies !ranks_before(keys, j, n - 1) by {
                lemma_ranks_order(keys, j, n - 1);
                if j < n - 1 && ranks_before(keys, j, n - 1) {
                    lemma_ranks_transitive(keys, j, n - 1, m0);
                }
            }
            n - 1
        } else {
            assert forall|j: int| 0 <= j < n && #[trigger] d(j) implies !ranks_before(keys, j, m0) by {}
            m0
        }
    } else {
        assert forall|j: int| 0 <= j < n && #[trigger] d(j) implies !ranks_before(keys, j, n - 1) by {
            lemma_ranks_order(keys, j, n - 1);
        }
        n - 1
    }
}

/// Match `m` is accepted in the outcome `r` of `ms`.
spec fn accepted_in(sel: Seq<int>, ms: Seq<RuleMatch>, m: RuleMatch) -> bool {
    exists|a: int| 0 <= a < sel.len() && #[trigger] ms[sel[a]] == m
}

proof fn lemma_outcome_membership(
    r: Seq<RuleMatch>,
    dec: Seq<bool>,
    ms: Seq<RuleMatch>,
    kf: spec_fn(RuleMatch) -> MatchKey,
    cf: spec_fn(RuleMatch) -> Seq<(int, int)>,
) -> (sel: Seq<int>)
    requires
        arbitration_outcome(r, dec, ms, ms.map_values(kf), ms.map_values(cf), Seq::empty()),
        forall|i: int, j: int| 0 <= i < ms.len() && 0 <= j < ms.len() && i != j ==> kf(#[trigger] ms[i]) != kf(#[trigger] ms[j]),
    ensures
        forall|m: RuleMatch| r.contains(m) <==> accepted_in(sel, ms, m),
        forall|m: RuleMatch| accepted_in(sel, ms, m) ==> ms.contains(m),
        forall|i: int|
            0 <= i < ms.len() ==> (accepted_in(sel, ms, #[trigger] ms[i]) <==> !exists|j: int|
                0 <= j < ms.len() && accepted_in(sel, ms, #[trigger] ms[j]) && key_gt(kf(ms[j]), kf(ms[i]))
                    && overlap(cf(ms[i]), cf(ms[j]))),
{
    let keys = ms.map_values(kf);
    let cells = ms.map_values(cf);
    let sel = choose|sel: Seq<int>|
        #[trigger] greedy_reserving(keys, cells, sel, Seq::empty()) && r == sel.map_values(|k: int| ms[k])
            && dec.len() == sel.len() && forall|a: int|
            0 <= a < sel.len() ==> dec[a] == tie_decided(keys, cells, sel, a);
    assert forall|m: RuleMatch| accepted_in(sel, ms, m) implies ms.contains(m) by {
        let a = choose|a: int| 0 <= a < sel.len() && #[trigger] ms[sel[a]] == m;
        assert(0 <= sel[a] < keys.len());
    }
    assert forall|m: RuleMatch| r.contains(m) <==> accepted_in(sel, ms, m) by {
        if r.contains(m) {
            let a = choose|a: int| 0 <= a < r.len() && r[a] == m;
            assert(ms[sel[a]] == m);
        }
        if accepted_in(sel, ms, m) {
            let a = choose|a: int| 0 <= a < sel.len() && #[trigger] ms[sel[a]] == m;
            assert(r[a] == m);
        }
    }
    // an index is selected exactly when its match is accepted
    assert forall|i: int| 0 <= i < ms.len() implies (sel.contains(i) <==> accepted_in(sel, ms, #[trigger] ms[i])) by {
        if sel.contains(i) {
            let a = choose|a: int| 0 <= a < sel.len() && sel[a] == i;
            assert(ms[sel[a]] == ms[i]);
        }
        if accepted_in(sel, ms, ms[i]) {
            let a = choose|a: int| 0 <= a < sel.len() && #[trigger] ms[sel[a]] == ms[i];
            assert(0 <= sel[a] < keys.len());
            if sel[a] != i {
                assert(kf(ms[sel[a]]) != kf(ms[i]));
            }
            assert(sel.contains(sel[a]));
        }
    }
    assert forall|i: int| 0 <= i < ms.len() implies (accepted_in(sel, ms, #[trigger] ms[i]) <==> !exists|j: int|
        0 <= j < ms.len() && accepted_in(sel, ms, #[trigger] ms[j]) && key_gt(kf(ms[j]), kf(ms[i]))
            && overlap(cf(ms[i]), cf(ms[j]))) by {
        assert(!overlap(cells[i], Seq::<(int, int)>::empty()));
        if blocked(keys, cells, sel, i) {
            let j = choose|j: int| #[trigger] sel.contains(j) && ranks_before(keys, j, i) && overlap(cells[i], cells[j]);
            let a = choose|a: int| 0 <= a < sel.len() && sel[a] == j;
            assert(0 <= sel[a] < keys.len());
            lemma_ranks_order(keys, i, j);
            assert(accepted_in(sel, ms, ms[j]));
            assert(key_gt(kf(ms[j]), kf(ms[i])));
        }
        if exists|j: int|
            0 <= j < ms.len() && accepted_in(sel, ms, #[trigger] ms[j]) && key_gt(kf(ms[j]), kf(ms[i]))
                && overlap(cf(ms[i]), cf(ms[j])) {
            let j = choose|j: int|
                0 <= j < ms.len() && accepted_in(sel, ms, #[trigger] ms[j]) && key_gt(kf(ms[j]), kf(ms[i]))
                    && overlap(cf(ms[i]), cf(ms[j]));
            assert(sel.contains(j));
            assert(ranks_before(keys, j, i));
            assert(blocked(keys, cells, sel, i));
        }
    }
    sel
}

/// Law: with every match's key distinct, arbitration depends only on the set of matches,
/// not on the order they come in: two inputs holding the same matches accept the same
/// matches.
pub proof fn lemma_arbitration_order_free(
    r1: Seq<RuleMatch>,
    d1: Seq<bool>,
    ms1: Seq<RuleMatch>,
    r2: Seq<RuleMatch>,
    d2: Seq<bool>,
    ms2: Seq<RuleMatch>,
    kf: spec_fn(RuleMatch) -> MatchKey,
    cf: spec_fn(RuleMatch) -> Seq<(int, int)>,
)
    requires
        ms1.to_set() == ms2.to_set(),
        forall|i: int, j: int| 0 <= i < ms1.len() && 0 <= j < ms1.len() && i != j ==> kf(#[trigger] ms1[i]) != kf(#[trigger] ms1[j]),
        forall|i: int, j: int| 0 <= i < ms2.len() && 0 <= j < ms2.len() && i != j ==> kf(#[trigger] ms2[i]) != kf(#[trigger] ms2[j]),
        arbitration_outcome(r1, d1, ms1, ms1.map_values(kf), ms1.map_values(cf), Seq::empty()),
        arbitration_outcome(r2, d2, ms2, ms2.map_values(kf), ms2.map_values(cf), Seq::empty()),
    ensures
        forall|m: RuleMatch| r1.contains(m) <==> r2.contains(m),
{
    let sel1 = lemma_outcome_membership(r1, d1, ms1, kf, cf);
    let sel2 = lemma_outcome_membership(r2, d2, ms2, kf, cf);
    let keys = ms1.map_values(kf);
    let d = |i: int| accepted_in(sel1, ms1, ms1[i]) != accepted_in(sel2, ms2, ms1[i]);
    assert forall|m: RuleMatch| ms1.contains(m) <==> ms2.contains(m) by {
        assert(ms1.to_set().contains(m) == ms1.contains(m));
        assert(ms2.to_set().contains(m) == ms2.contains(m));
        assert(ms1.to_set().contains(m) == ms2.to_set().contains(m));
    }
    if exists|i: int| 0 <= i < ms1.len() && #[trigger] d(i) {
        let i = lemma_first_ranked(keys, d, ms1.len() as int);
        let m = ms1[i];
        assert(ms2.contains(m));
        let i2 = choose|i2: int| 0 <= i2 < ms2.len() && ms2[i2] == m;
        // every match ranked before m is accepted in both or in neither
        assert forall|m2: RuleMatch| ms1.contains(m2) && key_gt(kf(m2), kf(m)) implies accepted_in(sel1, ms1, m2)
            == accepted_in(sel2, ms2, m2) by {
            let j = choose|j: int| 0 <= j < ms1.len() && ms1[j] == m2;
            assert(ranks_before(keys, j, i));
            if d(j) {
                assert(!ranks_before(keys, j, i));
            }
        }
        let e1 = exists|j: int|
            0 <= j < ms1.len() && accepted_in(sel1, ms1, #[trigger] ms1[j]) && key_gt(kf(ms1[j]), kf(m)) && overlap(
                cf(m),
                cf(ms1[j]),
            );
        let e2 = exists|j: int|
            0 <= j < ms2.len() && accepted_in(sel2, ms2, #[trigger] ms2[j]) && key_gt(kf(ms2[j]), kf(m)) && overlap(
                cf(m),
                cf(ms2[j]),
            );
        if e1 {
            let j = choose|j: int|
                0 <= j < ms1.len() && accepted_in(sel1, ms1, #[trigger] ms1[j]) && key_gt(kf(ms1[j]), kf(m)) && overlap(
                    cf(m),
                    cf(ms1[j]),
                );
            assert(ms1.contains(ms1[j]));
            assert(ms2.contains(ms1[j]));
            let j2 = choose|j2: int| 0 <= j2 < ms2.len() && ms2[j2] == ms1[j];
            assert(accepted_in(sel2, ms2, ms2[j2]));
        }
        if e2 {
            let j2 = choose|j2: int|
                0 <= j2 < ms2.len() && accepted_in(sel2, ms2, #[trigger] ms2[j2]) && key_gt(kf(ms2[j2]), kf(m))
                    && overlap(cf(m), cf(ms2[j2]));
            assert(ms2.contains(ms2[j2]));
            assert(ms1.contains(ms2[j2]));
            let j = choose|j: int| 0 <= j < ms1.len() && ms1[j] == ms2[j2];
            assert(accepted_in(sel1, ms1, ms1[j]));
        }
        assert(accepted_in(sel1, ms1, ms1[i]) == !e1);
        assert(accepted_in(sel2, ms2, ms2[i2]) == !e2);
        assert(false);
    }
    assert forall|m: RuleMatch| r1.contains(m) <==> r2.contains(m) by {
        if accepted_in(sel1, ms1, m) || accepted_in(sel2, ms2, m) {
            assert(ms1.contains(m));
            let i = choose|i: int| 0 <= i < ms1.len() && ms1[i] == m;
            assert(!d(i));
        }
    }
}

} // verus!
