use vstd::prelude::*;
use crate::apply::{
    apply_matches_with_cam, coord_limit, grid_applied, grid_small, in_regions, match_rule, matches_applicable,
    matches_effect, outputs_enqueued, region_matches, reset_age_for_regions, RegionSpec,
};
use crate::arbitrator::{
    arbitrate_with_cam, arbitration_result, cells_of, int_cells, keys_of, lemma_arbitration_sound,
    lemma_cells_cache_independent, lemma_outcome_result,
};
use crate::conflict_analyzer::{build_rule_data_cache, index_in_bounds, RuleDataCache};
use crate::grid::Grid;
use crate::journal::{MatchMap, MemoryBuffers};
use crate::matcher::{
    cam_match_list, cam_positions_map, cam_rule_matches_upto, cell_cam_matches, cell_matches, coords_cam_matches,
    coords_matches, matches_at, rule_matches_upto,
};
use crate::matcher::{detect_cam_matches, detect_matches};
use crate::types::{AffectedRegion, Cell, CellType, Rule, RuleIndex, RuleMatch};

verus! {

// ---------------------------------------------------------------------------
// What the matcher finds
// ---------------------------------------------------------------------------

/// Every match in `ms` sits on a stored cell and names an existing rule that is not a `cam`
/// rule.
pub open spec fn plain_matches_valid(g: Grid, index: RuleIndex, ms: Seq<RuleMatch>) -> bool {
    forall|i: int|
        0 <= i < ms.len() ==> {
            let m = #[trigger] ms[i];
            &&& g.spec_in_grid(m.x as int, m.y as int)
            &&& match_rule(index, m) matches Some(r) && r.cam is None
        }
}

/// Every `cam` match in `s` sits on a stored cell and names an existing `cam` rule, and its
/// target is a stored cell.
pub open spec fn cam_matches_valid(g: Grid, index: RuleIndex, s: Seq<(RuleMatch, (u32, u32))>) -> bool {
    forall|i: int|
        0 <= i < s.len() ==> {
            let p = #[trigger] s[i];
            &&& g.spec_in_grid(p.0.x as int, p.0.y as int)
            &&& match_rule(index, p.0) matches Some(r) && r.cam is Some
            &&& g.spec_in_grid(p.1.0 as int, p.1.1 as int)
        }
}

proof fn lemma_rule_matches_valid(g: Grid, rules: Seq<Rule>, head: CellType, x: int, y: int, n: int)
    requires
        0 <= n <= rules.len(),
        rules.len() <= usize::MAX,
        0 <= x <= u32::MAX,
        0 <= y <= u32::MAX,
    ensures
        forall|i: int|
            0 <= i < rule_matches_upto(g, rules, head, x, y, n).len() ==> {
                let m = #[trigger] rule_matches_upto(g, rules, head, x, y, n)[i];
                &&& m.x == x
                &&& m.y == y
                &&& m.head == head
                &&& m.rule_idx < n
                &&& rules[m.rule_idx as int].cam is None
            },
    decreases n,
{
    if n > 0 {
        lemma_rule_matches_valid(g, rules, head, x, y, n - 1);
        let p = rule_matches_upto(g, rules, head, x, y, n - 1);
        if matches_at(g, rules, n - 1, x, y) {
            let s = rule_matches_upto(g, rules, head, x, y, n);
            assert forall|i: int| 0 <= i < s.len() implies {
                let m = #[trigger] s[i];
                &&& m.x == x
                &&& m.y == y
                &&& m.head == head
                &&& m.rule_idx < n
                &&& rules[m.rule_idx as int].cam is None
            } by {
                if i < p.len() {
                    assert(s[i] == p[i]);
                }
            }
        }
    }
}

proof fn lemma_cam_rule_matches_valid(g: Grid, rules: Seq<Rule>, head: CellType, x: int, y: int, n: int)
    requires
        0 <= n <= rules.len(),
        rules.len() <= usize::MAX,
        0 <= x <= u32::MAX,
        0 <= y <= u32::MAX,
        grid_small(g),
    ensures
        forall|i: int|
            0 <= i < cam_rule_matches_upto(g, rules, head, x, y, n).len() ==> {
                let p = #[trigger] cam_rule_matches_upto(g, rules, head, x, y, n)[i];
                &&& p.0.x == x
                &&& p.0.y == y
                &&& p.0.head == head
                &&& p.0.rule_idx < n
                &&& rules[p.0.rule_idx as int].cam is Some
                &&& g.spec_in_grid(p.1.0 as int, p.1.1 as int)
            },
    decreases n,
{
    if n > 0 {
        lemma_cam_rule_matches_valid(g, rules, head, x, y, n - 1);
        let p = cam_rule_matches_upto(g, rules, head, x, y, n - 1);
        let s = cam_rule_matches_upto(g, rules, head, x, y, n);
        if s.len() > p.len() {
            let e = s[p.len() as int];
            let r = rules[n - 1];
            let cam = r.cam->0;
            let f = crate::apply::nearest(g, vstd::map::Map::empty(), true, x, y, cam.radius as int, cam.target_type)->0;
            assert(crate::apply::is_nearest(g, vstd::map::Map::empty(), true, x, y, cam.radius as int, cam.target_type, f));
            g.lemma_in_grid(f.0, f.1);
            assert(e.1.0 == f.0 && e.1.1 == f.1);
            assert forall|i: int| 0 <= i < s.len() implies {
                let q = #[trigger] s[i];
                &&& q.0.x == x
                &&& q.0.y == y
                &&& q.0.head == head
                &&& q.0.rule_idx < n
                &&& rules[q.0.rule_idx as int].cam is Some
                &&& g.spec_in_grid(q.1.0 as int, q.1.1 as int)
            } by {
                if i < p.len() {
                    assert(s[i] == p[i]);
                }
            }
        } else {
            assert(s == p);
        }
    }
}

/// What the matcher finds over `coords` is valid.
pub proof fn lemma_found_matches_valid(g: Grid, index: RuleIndex, coords: Seq<(usize, usize)>)
    requires
        grid_small(g),
    ensures
        plain_matches_valid(g, index, coords_matches(g, index, coords)),
        cam_matches_valid(g, index, coords_cam_matches(g, index, coords)),
    decreases coords.len(),
{
    if coords.len() > 0 {
        lemma_found_matches_valid(g, index, coords.drop_last());
        let (cx, cy) = coords.last();
        let x = cx as int;
        let y = cy as int;
        let pm = coords_matches(g, index, coords.drop_last());
        let pc = coords_cam_matches(g, index, coords.drop_last());
        let sm = coords_matches(g, index, coords);
        let sc = coords_cam_matches(g, index, coords);
        if g.spec_in_grid(x, y) {
            g.lemma_in_grid(x, y);
            let head = g.spec_cell(x, y).value.0;
            let rules = index.rules_of(head.0 as int);
            index.lemma_rules_len(head.0 as int);
            lemma_rule_matches_valid(g, rules, head, x, y, rules.len() as int);
            lemma_cam_rule_matches_valid(g, rules, head, x, y, rules.len() as int);
            let cm = cell_matches(g, index, x, y);
            let cc = cell_cam_matches(g, index, x, y);
            assert forall|i: int| 0 <= i < sm.len() implies {
                let m = #[trigger] sm[i];
                &&& g.spec_in_grid(m.x as int, m.y as int)
                &&& match_rule(index, m) matches Some(r) && r.cam is None
            } by {
                if i >= pm.len() {
                    assert(sm[i] == cm[i - pm.len()]);
                } else {
                    assert(sm[i] == pm[i]);
                }
            }
            assert forall|i: int| 0 <= i < sc.len() implies {
                let p = #[trigger] sc[i];
                &&& g.spec_in_grid(p.0.x as int, p.0.y as int)
                &&& match_rule(index, p.0) matches Some(r) && r.cam is Some
                &&& g.spec_in_grid(p.1.0 as int, p.1.1 as int)
            } by {
                if i >= pc.len() {
                    assert(sc[i] == cc[i - pc.len()]);
                } else {
                    assert(sc[i] == pc[i]);
                }
            }
        } else {
            assert(sm =~= pm);
            assert(sc =~= pc);
        }
    }
}

/// Targets found, looked up by their match: each entry comes from some found match, and every
/// found match has an entry.
proof fn lemma_cam_positions(s: Seq<(RuleMatch, (u32, u32))>)
    ensures
        forall|k: (u32, u32, usize)|
            #[trigger] cam_positions_map(s).contains_key(k) ==> exists|i: int|
                0 <= i < s.len() && (s[i].0.x, s[i].0.y, s[i].0.rule_idx) == k && s[i].1 == cam_positions_map(s)[k],
        forall|i: int|
            0 <= i < s.len() ==> cam_positions_map(s).contains_key(((#[trigger] s[i]).0.x, s[i].0.y, s[i].0.rule_idx)),
    decreases s.len(),
{
    if s.len() > 0 {
        let p = s.drop_last();
        lemma_cam_positions(p);
        let e = s.last();
        let ke = (e.0.x, e.0.y, e.0.rule_idx);
        assert forall|k: (u32, u32, usize)| #[trigger] cam_positions_map(s).contains_key(k) implies exists|i: int|
            0 <= i < s.len() && (s[i].0.x, s[i].0.y, s[i].0.rule_idx) == k && s[i].1 == cam_positions_map(s)[k] by {
            if k == ke {
                assert(s[s.len() - 1] == e);
            } else {
                let i = choose|i: int|
                    0 <= i < p.len() && (p[i].0.x, p[i].0.y, p[i].0.rule_idx) == k && p[i].1 == cam_positions_map(p)[k];
                assert(s[i] == p[i]);
            }
        }
        assert forall|i: int| 0 <= i < s.len() implies cam_positions_map(s).contains_key(
            ((#[trigger] s[i]).0.x, s[i].0.y, s[i].0.rule_idx),
        ) by {
            if i < p.len() {
                assert(s[i] == p[i]);
            }
        }
    }
}

// ---------------------------------------------------------------------------
// One tick from no remembered state
// ---------------------------------------------------------------------------

/// Every cell of a `w` by `h` grid, row by row.
pub open spec fn all_coords(w: int, h: int) -> Seq<(usize, usize)>
    decreases h,
{
    if h <= 0 {
        Seq::empty()
    } else {
        all_coords(w, h - 1) + Seq::new(w as nat, |x: int| (x as usize, (h - 1) as usize))
    }
}

/// The coordinates of every cell of a `w` by `h` grid, row by row.
pub(crate) fn grid_coords(w: usize, h: usize) -> (r: Vec<(usize, usize)>)
    ensures
        r@ == all_coords(w as int, h as int),
{
    let mut out: Vec<(usize, usize)> = Vec::new();
    let mut y: usize = 0;
    while y < h
        invariant
            y <= h,
            out@ == all_coords(w as int, y as int),
        decreases h - y,
    {
        let ghost start = out@;
        let mut x: usize = 0;
        while x < w
            invariant
                x <= w,
                y < h,
                out@ == start + Seq::new(x as nat, |i: int| (i as usize, y)),
            decreases w - x,
        {
            out.push((x, y));
            let ghost x0 = x;
            x += 1;
            proof {
                assert(Seq::new(x as nat, |i: int| (i as usize, y)) =~= Seq::new(x0 as nat, |i: int| (i as usize, y)).push(
                    (x0, y),
                ));
            }
        }
        let ghost y0 = y;
        y += 1;
        proof {
            assert(Seq::new(w as nat, |i: int| (i as usize, y0)) =~= Seq::new(w as nat, |i: int| (i as usize, (y - 1) as usize)));
        }
    }
    out
}

/// A match takes part in a tick started from no remembered state: the buffer of a rule
/// with `memory` cannot be full yet, and a rule with an activation budget of 0 has used it.
pub open spec fn fresh_gate(index: RuleIndex, m: RuleMatch) -> bool {
    match match_rule(index, m) {
        Some(r) => r.memory is None && r.max_activations != Some(0u32),
        None => true,
    }
}

/// The matches that pass `fresh_gate`, in order.
pub open spec fn fresh_candidates(index: RuleIndex, ms: Seq<RuleMatch>) -> Seq<RuleMatch>
    decreases ms.len(),
{
    if ms.len() == 0 {
        Seq::empty()
    } else {
        let p = fresh_candidates(index, ms.drop_last());
        if fresh_gate(index, ms.last()) {
            p.push(ms.last())
        } else {
            p
        }
    }
}

proof fn lemma_fresh_subset(index: RuleIndex, ms: Seq<RuleMatch>)
    ensures
        forall|i: int| 0 <= i < fresh_candidates(index, ms).len() ==> ms.contains(#[trigger] fresh_candidates(index, ms)[i]),
    decreases ms.len(),
{
    if ms.len() > 0 {
        let p = ms.drop_last();
        lemma_fresh_subset(index, p);
        let f = fresh_candidates(index, ms);
        assert forall|i: int| 0 <= i < f.len() implies ms.contains(#[trigger] f[i]) by {
            if i < fresh_candidates(index, p).len() {
                assert(f[i] == fresh_candidates(index, p)[i]);
                let j = choose|j: int| 0 <= j < p.len() && p[j] == f[i];
                assert(ms[j] == f[i]);
            } else {
                assert(ms[ms.len() - 1] == f[i]);
            }
        }
    }
}

/// The matches of `ms` that pass `fresh_gate`.
fn gate_fresh(index: &RuleIndex, ms: &Vec<RuleMatch>) -> (r: Vec<RuleMatch>)
    ensures
        r@ == fresh_candidates(*index, ms@),
{
    let mut out: Vec<RuleMatch> = Vec::new();
    let mut k: usize = 0;
    while k < ms.len()
        invariant
            k <= ms@.len(),
            out@ == fresh_candidates(*index, ms@.take(k as int)),
        decreases ms@.len() - k,
    {
        let m = ms[k];
        let rules = index.rules(m.head.0);
        let pass = if m.rule_idx < rules.len() {
            let rule = &rules[m.rule_idx];
            rule.memory.is_none() && !matches!(rule.max_activations, Some(0))
        } else {
            true
        };
        proof {
            assert(ms@.take(k as int + 1).drop_last() =~= ms@.take(k as int));
            assert(ms@.take(k as int + 1).last() == m);
        }
        if pass {
            out.push(m);
        }
        k += 1;
    }
    assert(ms@.take(k as int) =~= ms@);
    out
}

/// `(x, y)` is among the written cells of one of the regions.
pub open spec fn in_region_specs(regions: Seq<RegionSpec>, x: int, y: int) -> bool
    decreases regions.len(),
{
    if regions.len() == 0 {
        false
    } else {
        in_region_specs(regions.drop_last(), x, y) || (regions.last().0.contains((x as u32, y as u32)) && 0 <= x
            <= u32::MAX && 0 <= y <= u32::MAX)
    }
}

pub proof fn lemma_in_regions_specs(regions: Seq<AffectedRegion>, specs: Seq<RegionSpec>, x: int, y: int)
    requires
        regions.len() == specs.len(),
        forall|i: int| 0 <= i < specs.len() ==> region_matches(#[trigger] regions[i], specs[i]),
    ensures
        in_regions(regions, x, y) == in_region_specs(specs, x, y),
    decreases regions.len(),
{
    if regions.len() > 0 {
        let n = regions.len() - 1;
        assert(region_matches(regions[n], specs[n]));
        lemma_in_regions_specs(regions.drop_last(), specs.drop_last(), x, y);
    }
}

/// `gn` is `go` after one tick that wrote `buf`, output `outs` and re-aged the cells of
/// `regions`: each written stored cell takes its value, born at the old generation; the
/// generation advances by one; each stored cell a region wrote is then born again at the new
/// generation.
pub open spec fn grid_ticked(
    gn: Grid,
    go: Grid,
    buf: Map<(u32, u32), Cell>,
    regions: Seq<RegionSpec>,
    outs: Seq<(usize, usize, Cell)>,
) -> bool {
    &&& gn.spec_width() == go.spec_width()
    &&& gn.spec_height() == go.spec_height()
    &&& gn.spec_generation() == go.spec_generation() + 1
    &&& forall|a: int, b: int| #[trigger] gn.spec_in_grid(a, b) == go.spec_in_grid(a, b)
    &&& forall|a: int, b: int|
        #[trigger] gn.spec_cell(a, b) == {
            let c = if 0 <= a <= u32::MAX && 0 <= b <= u32::MAX && buf.contains_key((a as u32, b as u32))
                && go.spec_in_grid(a, b) {
                Cell { value: buf[(a as u32, b as u32)].value, born_at: go.spec_generation() }
            } else {
                go.spec_cell(a, b)
            };
            if go.spec_in_grid(a, b) && in_region_specs(regions, a, b) {
                Cell { value: c.value, born_at: (go.spec_generation() + 1) as u64 }
            } else {
                c
            }
        }
    &&& outputs_enqueued(gn, go, outs)
}

/// The generation as the tie-breaks see it: its low 32 bits.
pub open spec fn tick_generation(g: Grid) -> u32 {
    (g.spec_generation() % 0x1_0000_0000) as u32
}

/// Every `cam` rule with `recursion` has an id, whose first type the cascade matches.
pub open spec fn cam_recursion_ids(index: RuleIndex) -> bool {
    forall|h: int, k: int|
        0 <= h < 256 && 0 <= k < index.rules_of(h).len() ==> {
            let r = #[trigger] index.rules_of(h)[k];
            r.cam is Some && r.recursion is Some ==> r.id@.len() > 0
        }
}

/// The matches a tick finds: the matches of every cell, row by row, then the `cam` matches.
pub open spec fn tick_found(g: Grid, index: RuleIndex) -> Seq<RuleMatch> {
    let coords = all_coords(g.spec_width() as int, g.spec_height() as int);
    coords_matches(g, index, coords) + cam_match_list(coords_cam_matches(g, index, coords))
}

/// The candidates of a tick from no remembered state: the found matches, without those
/// `fresh_gate` keeps out.
pub open spec fn tick_candidates(g: Grid, index: RuleIndex) -> Seq<RuleMatch> {
    fresh_candidates(index, tick_found(g, index))
}

/// Every found match sits on a stored cell, names an existing rule and, for a `cam` rule,
/// has its target in `cams`; every target lies within the coordinate limit.
pub open spec fn found_valid(
    g: Grid,
    index: RuleIndex,
    cams: Map<(u32, u32, usize), (u32, u32)>,
    found: Seq<RuleMatch>,
) -> bool {
    &&& forall|i: int|
        0 <= i < found.len() ==> {
            let m = #[trigger] found[i];
            &&& g.spec_in_grid(m.x as int, m.y as int)
            &&& match_rule(index, m) matches Some(r) && (r.cam is Some ==> cams.contains_key((m.x, m.y, m.rule_idx)))
        }
    &&& forall|k: (u32, u32, usize)| #[trigger] cams.contains_key(k) ==> cams[k].0 <= coord_limit() && cams[k].1 <= coord_limit()
}

/// Matches drawn from valid found matches can be arbitrated and applied.
pub proof fn lemma_drawn_matches_fit(
    g: Grid,
    index: RuleIndex,
    cams: Map<(u32, u32, usize), (u32, u32)>,
    found: Seq<RuleMatch>,
    ms: Seq<RuleMatch>,
)
    requires
        grid_small(g),
        cam_recursion_ids(index),
        found_valid(g, index, cams, found),
        forall|i: int| 0 <= i < ms.len() ==> found.contains(#[trigger] ms[i]),
    ensures
        forall|i: int| 0 <= i < ms.len() ==> (#[trigger] ms[i]).x <= coord_limit() && ms[i].y <= coord_limit(),
        matches_applicable(ms, index, cams),
{
    assert forall|i: int| 0 <= i < ms.len() implies {
        let m = #[trigger] ms[i];
        &&& m.x <= coord_limit()
        &&& m.y <= coord_limit()
        &&& match match_rule(index, m) {
            Some(rule) => rule.cam is Some ==> cams.contains_key((m.x, m.y, m.rule_idx)) && (rule.recursion is Some
                ==> rule.id@.len() > 0),
            None => true,
        }
    } by {
        let m = ms[i];
        assert(found.contains(m));
        let j = choose|j: int| 0 <= j < found.len() && found[j] == m;
        g.lemma_in_grid(m.x as int, m.y as int);
        assert(index.rules_of(m.head.0 as int)[m.rule_idx as int] == match_rule(index, m)->0);
    }
}

/// Detect the matches of every cell and the `cam` matches, with their targets.
pub fn detect_all(grid: &Grid, index: &RuleIndex) -> (r: (Vec<RuleMatch>, MatchMap<(u32, u32)>))
    requires
        grid_small(*grid),
    ensures
        r.0@ == tick_found(*grid, *index),
        r.1@ == tick_cams(*grid, *index),
        found_valid(*grid, *index, r.1@, r.0@),
{
    let ghost g = *grid;
    let coords = grid_coords(grid.width(), grid.height());
    let mut found = detect_matches(grid, index, &coords);
    let (mut cam_found, cams) = detect_cam_matches(grid, index, &coords);
    let ghost plain = found@;
    let ghost camlist = coords_cam_matches(g, *index, coords@);
    found.append(&mut cam_found);
    proof {
        lemma_found_matches_valid(g, *index, coords@);
        lemma_cam_positions(camlist);
        assert forall|i: int| 0 <= i < found@.len() implies {
            let m = #[trigger] found@[i];
            &&& g.spec_in_grid(m.x as int, m.y as int)
            &&& match_rule(*index, m) matches Some(r) && (r.cam is Some ==> cams@.contains_key((m.x, m.y, m.rule_idx)))
        } by {
            if i >= plain.len() {
                let j = i - plain.len();
                assert(found@[i] == camlist[j].0);
            } else {
                assert(found@[i] == plain[i]);
            }
        }
        assert forall|k: (u32, u32, usize)| #[trigger] cams@.contains_key(k) implies cams@[k].0 <= coord_limit()
            && cams@[k].1 <= coord_limit() by {
            let i = choose|i: int|
                0 <= i < camlist.len() && (camlist[i].0.x, camlist[i].0.y, camlist[i].0.rule_idx) == k && camlist[i].1
                    == cams@[k];
            assert(g.spec_in_grid(camlist[i].1.0 as int, camlist[i].1.1 as int));
            g.lemma_in_grid(camlist[i].1.0 as int, camlist[i].1.1 as int);
        }
    }
    (found, cams)
}

/// The `cam` targets found in a tick.
pub open spec fn tick_cams(g: Grid, index: RuleIndex) -> Map<(u32, u32, usize), (u32, u32)> {
    cam_positions_map(coords_cam_matches(g, index, all_coords(g.spec_width() as int, g.spec_height() as int)))
}

/// One tick with no state kept between calls: detect the matches of every cell (and the
/// `cam` matches, with their targets), leave out those whose rule needs remembered state to
/// fire (`memory`, an activation budget of 0), arbitrate them greedily (tie-breaks rotated by
/// the generation, no starvation counters), apply the accepted ones, age the grid by one
/// generation and give the cells they wrote age 0. Returns the accepted matches, in the
/// order considered, and the values output to boundary buffers, by channel.
pub fn run_tick(grid: &mut Grid, index: &RuleIndex) -> (r: (Vec<RuleMatch>, Vec<(u32, Cell)>))
    requires
        grid_small(*old(grid)),
        index_in_bounds(*index),
        cam_recursion_ids(*index),
        old(grid).spec_generation() < u64::MAX,
    ensures
        ({
            let g = *old(grid);
            let cands = tick_candidates(g, *index);
            let cams = tick_cams(g, *index);
            let e = matches_effect(g, r.0@, *index, cams, g.spec_generation(), Map::empty(), Map::empty(), Map::empty());
            &&& forall|cache: RuleDataCache|
                #[trigger] cache.caches(*index) ==> arbitration_result(
                    r.0@,
                    cands,
                    keys_of(g, *index, Map::empty(), tick_generation(g), cands),
                    cells_of(*index, cache, cams, Map::empty(), g.spec_width() as int, g.spec_height() as int, cands),
                )
            &&& grid_ticked(*final(grid), g, e.0, e.1, e.2)
            &&& r.1@ == e.2.map_values(|o: (usize, usize, Cell)| (o.0 as u32, o.2))
        }),
{
    let ghost g = *grid;
    let w = grid.width();
    let h = grid.height();
    let cache = build_rule_data_cache(index);
    let (found, cams) = detect_all(grid, index);
    let cands = gate_fresh(index, &found);
    let gen = (grid.generation() % 0x1_0000_0000) as u32;
    let starv: MatchMap<u32> = MatchMap::new();
    let fb: MatchMap<u64> = MatchMap::new();
    proof {
        lemma_fresh_subset(*index, found@);
        lemma_drawn_matches_fit(g, *index, cams@, found@, cands@);
    }
    let reserved: Vec<(i32, i32)> = Vec::new();
    let (accepted, decided) = arbitrate_with_cam(cands, index, &cache, grid, &cams, &fb, gen, &starv, &reserved);
    proof {
        assert(int_cells(reserved@) =~= Seq::<(int, int)>::empty());
        lemma_outcome_result(
            accepted@,
            decided@,
            cands@,
            keys_of(g, *index, starv@, gen, cands@),
            cells_of(*index, cache, cams@, fb@, w as int, h as int, cands@),
        );
        assert forall|c: RuleDataCache| #[trigger] c.caches(*index) implies arbitration_result(
            accepted@,
            tick_candidates(g, *index),
            keys_of(g, *index, Map::empty(), tick_generation(g), tick_candidates(g, *index)),
            cells_of(*index, c, tick_cams(g, *index), Map::empty(), w as int, h as int, tick_candidates(g, *index)),
        ) by {
            lemma_cells_cache_independent(*index, cache, c, cams@, fb@, w as int, h as int, cands@);
        }
        lemma_arbitration_sound(accepted@, cands@, g, *index, cache, cams@, fb@, Map::empty(), gen);
        assert forall|i: int| 0 <= i < accepted@.len() implies found@.contains(#[trigger] accepted@[i]) by {
            assert(cands@.contains(accepted@[i]));
            let j = choose|j: int| 0 <= j < cands@.len() && cands@[j] == accepted@[i];
        }
        lemma_drawn_matches_fit(g, *index, cams@, found@, accepted@);
        assert(matches_applicable(accepted@, *index, cams@));
    }
    if accepted.len() == 0 {
        grid.advance_age();
        proof {
            assert(accepted@ =~= Seq::<RuleMatch>::empty());
            assert forall|a: usize, b: usize| true implies #[trigger] grid.spec_boundary_at(a, b) == g.spec_boundary_at(a, b) by {}
        }
        return (accepted, Vec::new());
    }
    let mut fb: MatchMap<u64> = MatchMap::new();
    let mut mem = MemoryBuffers::new();
    let (regions, outputs) = apply_matches_with_cam(grid, &accepted, index, &cache, &cams, &mut fb, &mut mem);
    let ghost mid = *grid;
    grid.advance_age();
    reset_age_for_regions(grid, &regions);
    proof {
        let e = matches_effect(g, accepted@, *index, cams@, g.spec_generation(), Map::empty(), Map::empty(), Map::empty());
        assert forall|a: int, b: int| in_regions(regions@, a, b) == in_region_specs(e.1, a, b) by {
            lemma_in_regions_specs(regions@, e.1, a, b);
        }
        assert forall|a: usize, b: usize| true implies #[trigger] grid.spec_boundary_at(a, b) == mid.spec_boundary_at(a, b) by {}
    }
    (accepted, outputs)
}

// ---------------------------------------------------------------------------
// Records of a run
// ---------------------------------------------------------------------------

/// A value pushed into an input channel, with the tick it was pushed before.
#[derive(Debug, Clone, Copy, PartialEq, Eq, Structural)]
pub struct InputEvent {
    pub tick: u64,
    pub channel: u32,
    pub value: u8,
}

/// What one tick did: accepted and rejected candidates, and how many candidates belonged to
/// rules with starvation counters or feedback.
#[derive(Debug, Clone, Copy, PartialEq, Eq, Structural)]
pub struct TickLogEntry {
    pub tick: u64,
    pub accepted: usize,
    pub rejected: usize,
    pub starvation_events: usize,
    pub feedback_events: usize,
}

/// Time spent in the phases of one tick.
#[derive(Debug, Clone, Copy)]
pub struct TickPhaseTimings {
    pub detect: core::time::Duration,
    pub arbitrate: core::time::Duration,
    pub apply: core::time::Duration,
}

/// Whether a grid still has work to do.
#[derive(Debug, Clone, Copy, PartialEq, Eq, Structural)]
pub enum TerminationVerdict {
    /// Some match would be applied.
    Active,
    /// No match, or arbitration would reject every one.
    Stable,
}

/// Whether the grid is stable: no cell matches a (non-`cam`) rule, or, from the second tick
/// on, arbitration would accept none of the matches. Arbitration accepts the first match in
/// its order whenever there is one, so the verdict is `Stable` exactly when nothing matches.
pub fn detect_termination(grid: &Grid, index: &RuleIndex, tick: u32) -> (v: TerminationVerdict)
    requires
        grid_small(*grid),
        index_in_bounds(*index),
    ensures
        (v == TerminationVerdict::Stable) == (coords_matches(
            *grid,
            *index,
            all_coords(grid.spec_width() as int, grid.spec_height() as int),
        ).len() == 0),
{
    let coords = grid_coords(grid.width(), grid.height());
    let matches = detect_matches(grid, index, &coords);
    if matches.len() == 0 {
        TerminationVerdict::Stable
    } else if tick > 0 {
        let ghost ms = matches@;
        let cache = build_rule_data_cache(index);
        let cams: MatchMap<(u32, u32)> = MatchMap::new();
        let fb: MatchMap<u64> = MatchMap::new();
        let starv: MatchMap<u32> = MatchMap::new();
        let gen = (grid.generation() % 0x1_0000_0000) as u32;
        proof {
            lemma_found_matches_valid(*grid, *index, coords@);
            assert forall|i: int| 0 <= i < ms.len() implies (#[trigger] ms[i]).x <= coord_limit() && ms[i].y
                <= coord_limit() by {
                grid.lemma_in_grid(ms[i].x as int, ms[i].y as int);
            }
        }
        let reserved: Vec<(i32, i32)> = Vec::new();
        let (accepted, decided) = arbitrate_with_cam(matches, index, &cache, grid, &cams, &fb, gen, &starv, &reserved);
        proof {
            assert(int_cells(reserved@) =~= Seq::<(int, int)>::empty());
            lemma_outcome_result(
                accepted@,
                decided@,
                ms,
                keys_of(*grid, *index, starv@, gen, ms),
                cells_of(*index, cache, cams@, fb@, grid.spec_width() as int, grid.spec_height() as int, ms),
            );
            lemma_arbitration_sound(accepted@, ms, *grid, *index, cache, cams@, fb@, starv@, gen);
            assert(accepted@.contains(ms[0]) || exists|a: int| 0 <= a < accepted@.len() && crate::arbitrator::overlap(
                crate::arbitrator::match_cells(*index, cache, cams@, fb@, grid.spec_width() as int, grid.spec_height() as int, ms[0]),
                crate::arbitrator::match_cells(*index, cache, cams@, fb@, grid.spec_width() as int, grid.spec_height() as int, #[trigger] accepted@[a]),
            ));
        }
        if accepted.len() == 0 {
            TerminationVerdict::Stable
        } else {
            TerminationVerdict::Active
        }
    } else {
        TerminationVerdict::Active
    }
}

} // verus!
