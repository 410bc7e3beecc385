use vstd::prelude::*;
use crate::apply::{
    cam_candidate, coord_limit, default_value, grid_small, grid_value, in_bounds, nearest, search_nearest_effective,
};
use crate::grid::Grid;
use crate::journal::{MatchMap, WriteBuffer};
use crate::types::{Cell, CellType, CellValue, Rule, RuleIndex, RuleMatch};

verus! {

// ---------------------------------------------------------------------------
// What matches where
// ---------------------------------------------------------------------------

/// The pattern the matcher checks for a rule: its pattern, or, when that is empty, the one
/// its id spells: `(0, 0, id[0]), (1, 0, id[1]), ...`.
pub open spec fn matcher_pattern(r: Rule) -> Seq<(i8, i8, CellType)> {
    if r.pattern@.len() > 0 {
        r.pattern@
    } else {
        r.id@.map(|i: int, ct: CellType| (i as i8, 0i8, ct))
    }
}

/// Every cell rule `r` reads from `(x, y)` lies inside the grid.
pub open spec fn pattern_in_bounds(g: Grid, r: Rule, x: int, y: int) -> bool {
    forall|k: int|
        0 <= k < matcher_pattern(r).len() ==> in_bounds(
            g,
            x + (#[trigger] matcher_pattern(r)[k]).0,
            y + matcher_pattern(r)[k].1,
        )
}

/// The cell at `(x, y)` passes rule `r`'s gates: old enough, and not a fresh default cell
/// for an `active_only` rule.
pub open spec fn center_gate(g: Grid, r: Rule, x: int, y: int) -> bool {
    &&& g.spec_age(x, y) >= r.min_age
    &&& !(r.active_only && g.spec_cell(x, y).value == default_value() && g.spec_age(x, y) == 0)
}

/// Rule `i` of the group `rules` (the rules of the cell's type) matches at `(x, y)`: it is
/// not a `cam` rule, the cell passes its gates, every cell its own pattern reads lies inside
/// the grid (what the other rules of the group read does not matter), and every entry of
/// its pattern holds the expected type.
pub open spec fn matches_at(g: Grid, rules: Seq<Rule>, i: int, x: int, y: int) -> bool {
    &&& rules[i].cam is None
    &&& center_gate(g, rules[i], x, y)
    &&& pattern_in_bounds(g, rules[i], x, y)
    &&& forall|k: int|
        0 <= k < matcher_pattern(rules[i]).len() ==> grid_value(
            g,
            x + (#[trigger] matcher_pattern(rules[i])[k]).0,
            y + matcher_pattern(rules[i])[k].1,
        ).0 == matcher_pattern(rules[i])[k].2
}

/// Matches of the first `n` rules of the group at `(x, y)`, in rule order.
pub open spec fn rule_matches_upto(g: Grid, rules: Seq<Rule>, head: CellType, x: int, y: int, n: int) -> Seq<RuleMatch>
    decreases n,
{
    if n <= 0 {
        Seq::empty()
    } else {
        let p = rule_matches_upto(g, rules, head, x, y, n - 1);
        if matches_at(g, rules, n - 1, x, y) {
            p.push(RuleMatch { x: x as u32, y: y as u32, head, rule_idx: (n - 1) as usize })
        } else {
            p
        }
    }
}

/// Matches at the cell `(x, y)`: every rule of its type that matches there, in rule order
/// (none off the grid).
pub open spec fn cell_matches(g: Grid, index: RuleIndex, x: int, y: int) -> Seq<RuleMatch> {
    if !g.spec_in_grid(x, y) {
        Seq::empty()
    } else {
        let head = g.spec_cell(x, y).value.0;
        let rules = index.rules_of(head.0 as int);
        rule_matches_upto(g, rules, head, x, y, rules.len() as int)
    }
}

/// Matches at every cell of `coords`, cell by cell.
pub open spec fn coords_matches(g: Grid, index: RuleIndex, coords: Seq<(usize, usize)>) -> Seq<RuleMatch>
    decreases coords.len(),
{
    if coords.len() == 0 {
        Seq::empty()
    } else {
        coords_matches(g, index, coords.drop_last()) + cell_matches(g, index, coords.last().0 as int, coords.last().1 as int)
    }
}

// ---------------------------------------------------------------------------
// Precomputed data of the rules of one head
// ---------------------------------------------------------------------------

/// What the matcher reads of the rules of one head: `(min_age, active_only, is_cam)` of
/// each rule, each rule's pattern, and every offset some pattern reads.
pub struct GroupData {
    pub rule_meta: Vec<(u64, bool, bool)>,
    pub effective_patterns: Vec<Vec<(i8, i8, CellType)>>,
    pub all_offsets: Vec<(i8, i8)>,
}

/// `gd` describes `rules`.
pub open spec fn group_describes(gd: GroupData, rules: Seq<Rule>) -> bool {
    &&& gd.rule_meta@.len() == rules.len()
    &&& gd.effective_patterns@.len() == rules.len()
    &&& forall|i: int|
        0 <= i < rules.len() ==> (#[trigger] gd.rule_meta@[i]) == (
            rules[i].min_age,
            rules[i].active_only,
            rules[i].cam is Some,
        ) && gd.effective_patterns@[i]@ == matcher_pattern(rules[i])
    &&& forall|o: (i8, i8)|
        gd.all_offsets@.contains(o) <==> exists|i: int, k: int|
            0 <= i < rules.len() && 0 <= k < matcher_pattern(rules[i]).len() && (
            #[trigger] matcher_pattern(rules[i])[k]).0 == o.0 && matcher_pattern(rules[i])[k].1 == o.1
}

/// Matcher data of every head of a rule index.
pub struct GroupCache {
    groups: Vec<GroupData>,
}

impl GroupCache {
    pub closed spec fn group(self, h: int) -> GroupData {
        self.groups@[h]
    }

    /// The cache describes every head of `index`.
    pub open spec fn describes(self, index: RuleIndex) -> bool {
        forall|h: int| 0 <= h < 256 ==> group_describes(#[trigger] self.group(h), index.rules_of(h))
    }

    /// One entry per head.
    pub closed spec fn wf(self) -> bool {
        self.groups@.len() == 256
    }
}

/// The pattern the matcher checks for a rule.
fn effective_pattern_i8(rule: &Rule) -> (r: Vec<(i8, i8, CellType)>)
    ensures
        r@ == matcher_pattern(*rule),
{
    let mut out: Vec<(i8, i8, CellType)> = Vec::new();
    if rule.pattern.len() > 0 {
        let mut k: usize = 0;
        while k < rule.pattern.len()
            invariant
                k <= rule.pattern@.len(),
                out@ == rule.pattern@.take(k as int),
            decreases rule.pattern@.len() - k,
        {
            out.push(rule.pattern[k]);
            assert(rule.pattern@.take(k as int + 1) =~= rule.pattern@.take(k as int).push(rule.pattern@[k as int]));
            k += 1;
        }
        assert(rule.pattern@.take(k as int) =~= rule.pattern@);
    } else {
        let mut k: usize = 0;
        while k < rule.id.len()
            invariant
                rule.pattern@.len() == 0,
                k <= rule.id@.len(),
                out@ == rule.id@.take(k as int).map(|i: int, ct: CellType| (i as i8, 0i8, ct)),
            decreases rule.id@.len() - k,
        {
            out.push((k as i8, 0i8, rule.id[k]));
            assert(rule.id@.take(k as int + 1).map(|i: int, ct: CellType| (i as i8, 0i8, ct)) =~= rule.id@.take(
                k as int,
            ).map(|i: int, ct: CellType| (i as i8, 0i8, ct)).push((k as i8, 0i8, rule.id@[k as int])));
            k += 1;
        }
        assert(rule.id@.take(k as int) =~= rule.id@);
    }
    out
}

/// Whether `v` holds the offset `o`.
fn has_offset(v: &Vec<(i8, i8)>, o: (i8, i8)) -> (b: bool)
    ensures
        b == v@.contains(o),
{
    let mut k: usize = 0;
    while k < v.len()
        invariant
            k <= v@.len(),
            forall|j: int| 0 <= j < k ==> v@[j] != o,
        decreases v@.len() - k,
    {
        if v[k].0 == o.0 && v[k].1 == o.1 {
            assert(v@[k as int] == o);
            return true;
        }
        k += 1;
    }
    false
}

/// Matcher data of the rules of one head.
fn build_group(rules: &[Rule]) -> (gd: GroupData)
    ensures
        group_describes(gd, rules@),
{
    let mut rule_meta: Vec<(u64, bool, bool)> = Vec::new();
    let mut pats: Vec<Vec<(i8, i8, CellType)>> = Vec::new();
    let mut offs: Vec<(i8, i8)> = Vec::new();
    let n = rules.len();
    let mut i: usize = 0;
    while i < n
        invariant
            n == rules@.len(),
            i <= n,
            rule_meta@.len() == i,
            pats@.len() == i,
            forall|j: int|
                0 <= j < i ==> (#[trigger] rule_meta@[j]) == (
                    rules@[j].min_age,
                    rules@[j].active_only,
                    rules@[j].cam is Some,
                ) && pats@[j]@ == matcher_pattern(rules@[j]),
            forall|o: (i8, i8)|
                offs@.contains(o) <==> exists|j: int, k: int|
                    0 <= j < i && 0 <= k < matcher_pattern(rules@[j]).len() && (#[trigger] matcher_pattern(
                        rules@[j],
                    )[k]).0 == o.0 && matcher_pattern(rules@[j])[k].1 == o.1,
        decreases n - i,
    {
        let rule = &rules[i];
        let p = effective_pattern_i8(rule);
        let mut k: usize = 0;
        while k < p.len()
            invariant
                i < n,
                n == rules@.len(),
                p@ == matcher_pattern(rules@[i as int]),
                k <= p@.len(),
                forall|o: (i8, i8)|
                    offs@.contains(o) <==> (exists|j: int, q: int|
                        0 <= j < i && 0 <= q < matcher_pattern(rules@[j]).len() && (#[trigger] matcher_pattern(
                            rules@[j],
                        )[q]).0 == o.0 && matcher_pattern(rules@[j])[q].1 == o.1) || (exists|q: int|
                        0 <= q < k && p@[q].0 == o.0 && p@[q].1 == o.1),
            decreases p@.len() - k,
        {
            let o = (p[k].0, p[k].1);
            let ghost before = offs@;
            if !has_offset(&offs, o) {
                offs.push(o);
            }
            proof {
                assert forall|oo: (i8, i8)| offs@.contains(oo) <==> (exists|j: int, q: int|
                    0 <= j < i && 0 <= q < matcher_pattern(rules@[j]).len() && (#[trigger] matcher_pattern(
                        rules@[j],
                    )[q]).0 == oo.0 && matcher_pattern(rules@[j])[q].1 == oo.1) || (exists|q: int|
                    0 <= q < k + 1 && p@[q].0 == oo.0 && p@[q].1 == oo.1) by {
                    if oo == o {
                        if !before.contains(o) {
                            assert(offs@[offs@.len() - 1] == o);
                        }
                    } else {
                        if offs@.contains(oo) && !before.contains(oo) {
                            let w = choose|w: int| 0 <= w < offs@.len() && offs@[w] == oo;
                            assert(w < before.len());
                            assert(before[w] == oo);
                        }
                        if before.contains(oo) {
                            let w = choose|w: int| 0 <= w < before.len() && before[w] == oo;
                            assert(offs@[w] == oo);
                        }
                    }
                }
            }
            k += 1;
        }
        proof {
            assert forall|o: (i8, i8)| offs@.contains(o) <==> exists|j: int, q: int|
                0 <= j < i + 1 && 0 <= q < matcher_pattern(rules@[j]).len() && (#[trigger] matcher_pattern(
                    rules@[j],
                )[q]).0 == o.0 && matcher_pattern(rules@[j])[q].1 == o.1 by {
                if exists|q: int| 0 <= q < k && p@[q].0 == o.0 && p@[q].1 == o.1 {
                    let q = choose|q: int| 0 <= q < k && p@[q].0 == o.0 && p@[q].1 == o.1;
                    assert(matcher_pattern(rules@[i as int])[q] == p@[q]);
                }
                if exists|j: int, q: int|
                    0 <= j < i + 1 && 0 <= q < matcher_pattern(rules@[j]).len() && (#[trigger] matcher_pattern(
                        rules@[j],
                    )[q]).0 == o.0 && matcher_pattern(rules@[j])[q].1 == o.1 {
                    let (j, q) = choose|j: int, q: int|
                        0 <= j < i + 1 && 0 <= q < matcher_pattern(rules@[j]).len() && (#[trigger] matcher_pattern(
                            rules@[j],
                        )[q]).0 == o.0 && matcher_pattern(rules@[j])[q].1 == o.1;
                    if j == i {
                        assert(p@[q] == matcher_pattern(rules@[j])[q]);
                    }
                }
            }
        }
        rule_meta.push((rule.min_age, rule.active_only, rule.cam.is_some()));
        pats.push(p);
        i += 1;
    }
    GroupData { rule_meta, effective_patterns: pats, all_offsets: offs }
}

/// Matcher data of every head of the index.
pub fn build_group_data(index: &RuleIndex) -> (cache: GroupCache)
    ensures
        cache.describes(*index),
        cache.wf(),
{
    let mut groups: Vec<GroupData> = Vec::new();
    let mut h: usize = 0;
    while h < 256
        invariant
            h <= 256,
            groups@.len() == h,
            forall|q: int| 0 <= q < h ==> group_describes(#[trigger] groups@[q], index.rules_of(q)),
        decreases 256 - h,
    {
        groups.push(build_group(index.rules(h as u8)));
        h += 1;
    }
    GroupCache { groups }
}

impl GroupCache {
    /// Matcher data of head `h`.
    pub fn get(&self, h: u8) -> (gd: &GroupData)
        requires
            self.wf(),
        ensures
            *gd == self.group(h as int),
    {
        &self.groups[h as usize]
    }
}

// ---------------------------------------------------------------------------
// Matching one cell
// ---------------------------------------------------------------------------

/// Add to `out` the matches of the rules of the cell `(cx, cy)`.
fn match_cell(grid: &Grid, index: &RuleIndex, cache: &GroupCache, cx: usize, cy: usize, out: &mut Vec<RuleMatch>)
    requires
        cache.describes(*index),
        cache.wf(),
        grid_small(*grid),
    ensures
        final(out)@ == old(out)@ + cell_matches(*grid, *index, cx as int, cy as int),
{
    let center = match grid.get_cell(cx, cy) {
        Some(c) => c,
        None => {
            assert(old(out)@ + Seq::<RuleMatch>::empty() =~= old(out)@);
            return;
        },
    };
    let head = center.value.0;
    let gd = cache.get(head.0);
    let rules = index.rules(head.0);
    let ghost rs = index.rules_of(head.0 as int);
    assert(group_describes(*gd, rs));
    let age = grid.get_age(cx, cy);
    assert(cx < grid.spec_width() && cy < grid.spec_height());
    let n = rules.len();
    let ghost o0 = out@;
    let mut i: usize = 0;
    while i < n
        invariant
            n == rs.len(),
            rules@ == rs,
            i <= n,
            group_describes(*gd, rs),
            grid_small(*grid),
            grid.spec_in_grid(cx as int, cy as int),
            cx < grid.spec_width(),
            cy < grid.spec_height(),
            center == grid.spec_cell(cx as int, cy as int),
            head == center.value.0,
            age == grid.spec_age(cx as int, cy as int),
            out@ == o0 + rule_matches_upto(*grid, rs, head, cx as int, cy as int, i as int),
        decreases n - i,
    {
        let (min_age, active_only, is_cam) = gd.rule_meta[i];
        assert(gd.rule_meta@[i as int] == (rs[i as int].min_age, rs[i as int].active_only, rs[i as int].cam is Some));
        let mut ok = !is_cam && age >= min_age && !(active_only && center.value.0.0 == 0 && age == 0);
        if ok {
            let pat = &gd.effective_patterns[i];
            assert(pat@ == matcher_pattern(rs[i as int]));
            let mut k: usize = 0;
            let mut all = true;
            while k < pat.len() && all
                invariant
                    pat@ == matcher_pattern(rs[i as int]),
                    i < n,
                    n == rs.len(),
                    k <= pat@.len(),
                    grid_small(*grid),
                    cx <= coord_limit(),
                    cy <= coord_limit(),
                    forall|q: int|
                        0 <= q < k ==> in_bounds(*grid, cx + (#[trigger] pat@[q]).0, cy + pat@[q].1) && grid_value(
                            *grid,
                            cx + pat@[q].0,
                            cy + pat@[q].1,
                        ).0 == pat@[q].2,
                    !all ==> k < pat@.len() && (!in_bounds(*grid, cx + pat@[k as int].0, cy + pat@[k as int].1)
                        || grid_value(*grid, cx + pat@[k as int].0, cy + pat@[k as int].1).0 != pat@[k as int].2),
                decreases pat@.len() - k + (if all {
                    1int
                } else {
                    0int
                }),
            {
                let (dx, dy, expected) = pat[k];
                let sx = cx as i64 + dx as i64;
                let sy = cy as i64 + dy as i64;
                if sx < 0 || sy < 0 || sx as usize >= grid.width() || sy as usize >= grid.height() {
                    all = false;
                } else {
                    let t = match grid.get_cell(sx as usize, sy as usize) {
                        Some(c) => c.value.0,
                        None => CellType(0),
                    };
                    if t != expected {
                        all = false;
                    } else {
                        k += 1;
                    }
                }
            }
            ok = all;
        }
        assert(ok == matches_at(*grid, rs, i as int, cx as int, cy as int));
        if ok {
            out.push(RuleMatch { x: cx as u32, y: cy as u32, head, rule_idx: i });
        }
        i += 1;
    }
}

// ---------------------------------------------------------------------------
// Matching many cells
// ---------------------------------------------------------------------------

/// Matches at every cell of `coords`, cell by cell, rule by rule; `cam` rules are left to
/// `detect_cam_matches`.
pub fn detect_matches_with_group_data(
    grid: &Grid,
    index: &RuleIndex,
    cache: &GroupCache,
    active_coords: &Vec<(usize, usize)>,
) -> (r: Vec<RuleMatch>)
    requires
        cache.describes(*index),
        cache.wf(),
        grid_small(*grid),
    ensures
        r@ == coords_matches(*grid, *index, active_coords@),
{
    let mut out: Vec<RuleMatch> = Vec::new();
    let mut k: usize = 0;
    while k < active_coords.len()
        invariant
            k <= active_coords@.len(),
            cache.describes(*index),
            cache.wf(),
            grid_small(*grid),
            out@ == coords_matches(*grid, *index, active_coords@.take(k as int)),
        decreases active_coords@.len() - k,
    {
        let (cx, cy) = active_coords[k];
        assert(active_coords@.take(k as int + 1).drop_last() =~= active_coords@.take(k as int));
        match_cell(grid, index, cache, cx, cy, &mut out);
        k += 1;
    }
    assert(active_coords@.take(k as int) =~= active_coords@);
    out
}

/// Find every match of the rules (other than `cam` rules) at the given cells.
pub fn detect_matches(grid: &Grid, index: &RuleIndex, active_coords: &Vec<(usize, usize)>) -> (r: Vec<RuleMatch>)
    requires
        grid_small(*grid),
    ensures
        r@ == coords_matches(*grid, *index, active_coords@),
{
    let cache = build_group_data(index);
    detect_matches_with_group_data(grid, index, &cache, active_coords)
}

// ---------------------------------------------------------------------------
// Content-addressable matches
// ---------------------------------------------------------------------------

/// `cam` matches of the first `n` rules of the group at `(x, y)`, each with the target found:
/// a `cam` rule matches when the cell passes its gates and a target lies within its radius
/// (the nearest one, read before the tick).
pub open spec fn cam_rule_matches_upto(g: Grid, rules: Seq<Rule>, head: CellType, x: int, y: int, n: int) -> Seq<
    (RuleMatch, (u32, u32)),
>
    decreases n,
{
    if n <= 0 {
        Seq::empty()
    } else {
        let p = cam_rule_matches_upto(g, rules, head, x, y, n - 1);
        let r = rules[n - 1];
        match r.cam {
            Some(cam) => if center_gate(g, r, x, y) {
                match nearest(g, Map::empty(), true, x, y, cam.radius as int, cam.target_type) {
                    Some(f) => p.push(
                        (RuleMatch { x: x as u32, y: y as u32, head, rule_idx: (n - 1) as usize }, (f.0 as u32, f.1 as u32)),
                    ),
                    None => p,
                }
            } else {
                p
            },
            None => p,
        }
    }
}

/// `cam` matches at the cell `(x, y)`.
pub open spec fn cell_cam_matches(g: Grid, index: RuleIndex, x: int, y: int) -> Seq<(RuleMatch, (u32, u32))> {
    if !g.spec_in_grid(x, y) {
        Seq::empty()
    } else {
        let head = g.spec_cell(x, y).value.0;
        let rules = index.rules_of(head.0 as int);
        cam_rule_matches_upto(g, rules, head, x, y, rules.len() as int)
    }
}

/// `cam` matches at every cell of `coords`, cell by cell.
pub open spec fn coords_cam_matches(g: Grid, index: RuleIndex, coords: Seq<(usize, usize)>) -> Seq<
    (RuleMatch, (u32, u32)),
>
    decreases coords.len(),
{
    if coords.len() == 0 {
        Seq::empty()
    } else {
        coords_cam_matches(g, index, coords.drop_last()) + cell_cam_matches(
            g,
            index,
            coords.last().0 as int,
            coords.last().1 as int,
        )
    }
}

/// Targets found, keyed by `(x, y, rule index)` of their match (a later entry wins).
pub open spec fn cam_positions_map(s: Seq<(RuleMatch, (u32, u32))>) -> Map<(u32, u32, usize), (u32, u32)>
    decreases s.len(),
{
    if s.len() == 0 {
        Map::empty()
    } else {
        cam_positions_map(s.drop_last()).insert((s.last().0.x, s.last().0.y, s.last().0.rule_idx), s.last().1)
    }
}

/// The matches of a list of `cam` matches with their targets.
pub open spec fn cam_match_list(s: Seq<(RuleMatch, (u32, u32))>) -> Seq<RuleMatch> {
    s.map_values(|p: (RuleMatch, (u32, u32))| p.0)
}

proof fn lemma_cam_lists_push(
    s: Seq<(RuleMatch, (u32, u32))>,
    e: (RuleMatch, (u32, u32)),
)
    ensures
        cam_positions_map(s.push(e)) == cam_positions_map(s).insert((e.0.x, e.0.y, e.0.rule_idx), e.1),
        cam_match_list(s.push(e)) == cam_match_list(s).push(e.0),
{
    assert(s.push(e).drop_last() =~= s);
    assert(cam_match_list(s.push(e)) =~= cam_match_list(s).push(e.0));
}

/// Add the `cam` matches of the cell `(cx, cy)`, with the targets found.
fn cam_match_cell(
    grid: &Grid,
    index: &RuleIndex,
    cx: usize,
    cy: usize,
    empty: &WriteBuffer,
    out: &mut Vec<RuleMatch>,
    positions: &mut MatchMap<(u32, u32)>,
    Ghost(acc): Ghost<Seq<(RuleMatch, (u32, u32))>>,
) -> (r: Ghost<Seq<(RuleMatch, (u32, u32))>>)
    requires
        grid_small(*grid),
        empty@ == Map::<(u32, u32), Cell>::empty(),
        old(out)@ == cam_match_list(acc),
        old(positions)@ == cam_positions_map(acc),
    ensures
        r@ == acc + cell_cam_matches(*grid, *index, cx as int, cy as int),
        final(out)@ == cam_match_list(r@),
        final(positions)@ == cam_positions_map(r@),
{
    let center = match grid.get_cell(cx, cy) {
        Some(c) => c,
        None => {
            assert(acc + Seq::<(RuleMatch, (u32, u32))>::empty() =~= acc);
            return Ghost(acc);
        },
    };
    let head = center.value.0;
    let rules = index.rules(head.0);
    let ghost rs = index.rules_of(head.0 as int);
    let age = grid.get_age(cx, cy);
    let n = rules.len();
    let ghost mut cur = acc;
    let mut i: usize = 0;
    while i < n
        invariant
            n == rs.len(),
            rules@ == rs,
            i <= n,
            grid_small(*grid),
            empty@ == Map::<(u32, u32), Cell>::empty(),
            grid.spec_in_grid(cx as int, cy as int),
            cx < grid.spec_width(),
            cy < grid.spec_height(),
            center == grid.spec_cell(cx as int, cy as int),
            head == center.value.0,
            age == grid.spec_age(cx as int, cy as int),
            cur == acc + cam_rule_matches_upto(*grid, rs, head, cx as int, cy as int, i as int),
            out@ == cam_match_list(cur),
            positions@ == cam_positions_map(cur),
        decreases n - i,
    {
        let rule = &rules[i];
        match rule.cam {
            Some(cam) => {
                if age >= rule.min_age && !(rule.active_only && center.value.0.0 == 0 && age == 0) {
                    match search_nearest_effective(grid, empty, true, cx as i32, cy as i32, cam.radius, cam.target_type) {
                        Some(f) => {
                            let m = RuleMatch { x: cx as u32, y: cy as u32, head, rule_idx: i };
                            let pos = (f.0 as u32, f.1 as u32);
                            proof {
                                lemma_cam_lists_push(cur, (m, pos));
                                assert(acc + cam_rule_matches_upto(*grid, rs, head, cx as int, cy as int, i as int + 1)
                                    =~= cur.push((m, pos)));
                                cur = cur.push((m, pos));
                            }
                            out.push(m);
                            positions.set((cx as u32, cy as u32, i), pos);
                        },
                        None => {},
                    }
                }
            },
            None => {},
        }
        i += 1;
    }
    Ghost(cur)
}

/// Find every `cam` match at the given cells, with the target each one found: the nearest
/// cell of the target type within the radius (by distance, then row, then column).
pub fn detect_cam_matches(grid: &Grid, index: &RuleIndex, active_coords: &Vec<(usize, usize)>) -> (r: (
    Vec<RuleMatch>,
    MatchMap<(u32, u32)>,
))
    requires
        grid_small(*grid),
    ensures
        r.0@ == cam_match_list(coords_cam_matches(*grid, *index, active_coords@)),
        r.1@ == cam_positions_map(coords_cam_matches(*grid, *index, active_coords@)),
{
    let empty = WriteBuffer::new();
    let mut out: Vec<RuleMatch> = Vec::new();
    let mut positions: MatchMap<(u32, u32)> = MatchMap::new();
    let ghost mut acc: Seq<(RuleMatch, (u32, u32))> = Seq::empty();
    assert(out@ =~= cam_match_list(acc));
    let mut k: usize = 0;
    while k < active_coords.len()
        invariant
            k <= active_coords@.len(),
            grid_small(*grid),
            empty@ == Map::<(u32, u32), Cell>::empty(),
            acc == coords_cam_matches(*grid, *index, active_coords@.take(k as int)),
            out@ == cam_match_list(acc),
            positions@ == cam_positions_map(acc),
        decreases active_coords@.len() - k,
    {
        let (cx, cy) = active_coords[k];
        assert(active_coords@.take(k as int + 1).drop_last() =~= active_coords@.take(k as int));
        let next = cam_match_cell(grid, index, cx, cy, &empty, &mut out, &mut positions, Ghost(acc));
        proof {
            acc = next@;
        }
        k += 1;
    }
    assert(active_coords@.take(k as int) =~= active_coords@);
    (out, positions)
}

} // verus!
