use vstd::prelude::*;
use crate::apply::{
    apply_matches_with_cam, coord_limit, grid_small, in_regions, match_rule, matches_effect, reset_age_for_regions,
};
use crate::arbitrator::{
    arbitrate_with_cam, arbitration_outcome, cells_of, greedy_reserving, int_cells, keys_of, lemma_cells_cache_independent,
    tie_decided, MatchKey,
};
use crate::conflict_analyzer::{build_rule_data_cache, index_in_bounds, RuleDataCache};
use crate::grid::Grid;
use crate::pipeline::{
    cam_recursion_ids, detect_all, found_valid, grid_ticked, in_region_specs, lemma_drawn_matches_fit,
    lemma_in_regions_specs, tick_cams, tick_found, tick_generation,
};
use crate::journal::{sat_inc32, sat_inc64, spec_observe, ActivationCounters, MatchMap, MemoryBuffers};
use crate::types::{
    direction_delta, spec_direction_delta, Cell, CellType, RecordTrigger, RecordedValue, Rule, RuleIndex, RuleMatch,
};

verus! {

/// The key of the state kept for a match: its position and rule index.
pub open spec fn match_key3(m: RuleMatch) -> (u32, u32, usize) {
    (m.x, m.y, m.rule_idx)
}

/// The value of `k` in `m`, or `d` when it has none.
pub open spec fn value_or<K, V>(m: Map<K, V>, k: K, d: V) -> V {
    if m.contains_key(k) {
        m[k]
    } else {
        d
    }
}

/// The matches of `ms` that satisfy `f`, in order.
pub open spec fn keep_where(ms: Seq<RuleMatch>, f: spec_fn(RuleMatch) -> bool) -> Seq<RuleMatch>
    decreases ms.len(),
{
    if ms.len() == 0 {
        Seq::empty()
    } else {
        let p = keep_where(ms.drop_last(), f);
        if f(ms.last()) {
            p.push(ms.last())
        } else {
            p
        }
    }
}

pub proof fn lemma_keep_where_subset(ms: Seq<RuleMatch>, f: spec_fn(RuleMatch) -> bool)
    ensures
        forall|i: int| 0 <= i < keep_where(ms, f).len() ==> ms.contains(#[trigger] keep_where(ms, f)[i]) && f(keep_where(ms, f)[i]),
    decreases ms.len(),
{
    if ms.len() > 0 {
        let p = ms.drop_last();
        lemma_keep_where_subset(p, f);
        let k = keep_where(ms, f);
        assert forall|i: int| 0 <= i < k.len() implies ms.contains(#[trigger] k[i]) && f(k[i]) by {
            if i < keep_where(p, f).len() {
                assert(k[i] == keep_where(p, f)[i]);
                let j = choose|j: int| 0 <= j < p.len() && p[j] == k[i];
                assert(ms[j] == k[i]);
            } else {
                assert(ms[ms.len() - 1] == k[i]);
            }
        }
    }
}

/// The rule keeps state for each position it matches at.
pub open spec fn keeps_position_state(r: Rule) -> bool {
    r.feedback is Some || r.memory is Some || r.starvation_after is Some
}

/// The rule of `m` exists and satisfies `f`.
pub open spec fn rule_has(index: RuleIndex, m: RuleMatch, f: spec_fn(Rule) -> bool) -> bool {
    match match_rule(index, m) {
        Some(r) => f(r),
        None => false,
    }
}

// ---------------------------------------------------------------------------
// Dropping the state of positions that no longer match
// ---------------------------------------------------------------------------

/// Some rule (of any head) at position `r` of its head's rules keeps position state.
pub open spec fn extension_index(index: RuleIndex, r: usize) -> bool {
    exists|h: int| 0 <= h < 256 && r < index.rules_of(h).len() && #[trigger] keeps_position_state(index.rules_of(h)[r as int])
}

/// A match found this tick, of a rule that keeps position state, has key `k`.
pub open spec fn live_key(index: RuleIndex, found: Seq<RuleMatch>, k: (u32, u32, usize)) -> bool {
    exists|i: int|
        0 <= i < found.len() && match_key3(#[trigger] found[i]) == k && rule_has(index, found[i], |r: Rule| keeps_position_state(r))
}

/// The state of `k` is dropped: it lies on the grid, at a rule index some rule keeps
/// position state for, and no match found this tick keeps it alive.
pub open spec fn stale_key(w: int, h: int, index: RuleIndex, found: Seq<RuleMatch>, k: (u32, u32, usize)) -> bool {
    &&& k.0 < w
    &&& k.1 < h
    &&& extension_index(index, k.2)
    &&& !live_key(index, found, k)
}

/// `m` without its stale keys.
pub open spec fn without_stale<V>(m: Map<(u32, u32, usize), V>, w: int, h: int, index: RuleIndex, found: Seq<RuleMatch>) -> Map<
    (u32, u32, usize),
    V,
> {
    Map::new(|k: (u32, u32, usize)| m.contains_key(k) && !stale_key(w, h, index, found, k), |k: (u32, u32, usize)| m[k])
}

/// `m` without the stale keys of the cells before `(x, y)`, row by row.
pub open spec fn pruned_upto<V>(
    m: Map<(u32, u32, usize), V>,
    w: int,
    h: int,
    index: RuleIndex,
    found: Seq<RuleMatch>,
    y: int,
    x: int,
) -> Map<(u32, u32, usize), V> {
    Map::new(
        |k: (u32, u32, usize)|
            m.contains_key(k) && !(stale_key(w, h, index, found, k) && (k.1 < y || (k.1 == y && k.0 < x))),
        |k: (u32, u32, usize)| m[k],
    )
}

/// `m` without the keys of cell `(x, y)` at the rule indices of `rs` that no found match
/// keeps alive.
pub open spec fn cell_pruned<V>(
    m: Map<(u32, u32, usize), V>,
    x: u32,
    y: u32,
    rs: Seq<usize>,
    index: RuleIndex,
    found: Seq<RuleMatch>,
) -> Map<(u32, u32, usize), V> {
    Map::new(
        |k: (u32, u32, usize)| m.contains_key(k) && !(k.0 == x && k.1 == y && rs.contains(k.2) && !live_key(index, found, k)),
        |k: (u32, u32, usize)| m[k],
    )
}

/// What a run remembers between ticks: starvation counters, feedback counters and memory
/// buffers per match position, and wins per rule.
pub struct TickState {
    pub starvation: MatchMap<u32>,
    pub feedback: MatchMap<u64>,
    pub memory: MemoryBuffers,
    pub activations: ActivationCounters,
}

impl TickState {
    /// Nothing remembered yet.
    pub fn new() -> (s: TickState)
        ensures
            s.starvation@ == Map::<(u32, u32, usize), u32>::empty(),
            s.feedback@ == Map::<(u32, u32, usize), u64>::empty(),
            s.memory@ == Map::<(u32, u32, usize), Seq<RecordedValue>>::empty(),
            s.activations@ == Map::<(u8, usize), u32>::empty(),
    {
        TickState {
            starvation: MatchMap::new(),
            feedback: MatchMap::new(),
            memory: MemoryBuffers::new(),
            activations: ActivationCounters::new(),
        }
    }

    /// A copy of the state.
    pub fn duplicate(&self) -> (s: TickState)
        ensures
            s.starvation@ == self.starvation@,
            s.feedback@ == self.feedback@,
            s.memory@ == self.memory@,
            s.activations@ == self.activations@,
    {
        TickState {
            starvation: self.starvation.duplicate(),
            feedback: self.feedback.duplicate(),
            memory: self.memory.duplicate(),
            activations: self.activations.duplicate(),
        }
    }
}

/// Whether a rule keeps position state.
fn rule_keeps_position_state(r: &Rule) -> (b: bool)
    ensures
        b == keeps_position_state(*r),
{
    r.feedback.is_some() || r.memory.is_some() || r.starvation_after.is_some()
}

/// Whether `v` holds `x`.
fn contains_index(v: &Vec<usize>, x: usize) -> (b: bool)
    ensures
        b == v@.contains(x),
{
    let mut q: usize = 0;
    while q < v.len()
        invariant
            q <= v@.len(),
            forall|j: int| 0 <= j < q ==> v@[j] != x,
        decreases v@.len() - q,
    {
        if v[q] == x {
            assert(v@[q as int] == x);
            return true;
        }
        q += 1;
    }
    false
}

/// The rule indices at which some rule keeps position state, each once.
fn extension_indices(index: &RuleIndex) -> (r: Vec<usize>)
    ensures
        forall|i: usize| r@.contains(i) <==> extension_index(*index, i),
{
    let mut out: Vec<usize> = Vec::new();
    let mut h: usize = 0;
    while h < 256
        invariant
            h <= 256,
            forall|i: usize|
                out@.contains(i) <==> exists|h2: int|
                    0 <= h2 < h && i < index.rules_of(h2).len() && #[trigger] keeps_position_state(index.rules_of(h2)[i as int]),
        decreases 256 - h,
    {
        let rules = index.rules(h as u8);
        let mut k: usize = 0;
        while k < rules.len()
            invariant
                h < 256,
                rules@ == index.rules_of(h as int),
                k <= rules@.len(),
                forall|i: usize|
                    out@.contains(i) <==> (exists|h2: int|
                        0 <= h2 < h && i < index.rules_of(h2).len() && #[trigger] keeps_position_state(
                            index.rules_of(h2)[i as int],
                        )) || (i < k && keeps_position_state(index.rules_of(h as int)[i as int])),
            decreases rules@.len() - k,
        {
            let ghost out0 = out@;
            let ghost k0 = k;
            let keeps = rule_keeps_position_state(&rules[k]);
            if keeps {
                if !contains_index(&out, k) {
                    out.push(k);
                }
            }
            k += 1;
            proof {
                assert forall|i: usize| out@.contains(i) <==> (exists|h2: int|
                    0 <= h2 < h && i < index.rules_of(h2).len() && #[trigger] keeps_position_state(
                        index.rules_of(h2)[i as int],
                    )) || (i < k && keeps_position_state(index.rules_of(h as int)[i as int])) by {
                    if out@.contains(i) && !out0.contains(i) {
                        let q = choose|q: int| 0 <= q < out@.len() && out@[q] == i;
                        assert(q == out0.len());
                    }
                    if out0.contains(i) {
                        let q = choose|q: int| 0 <= q < out0.len() && out0[q] == i;
                        assert(out@[q] == i);
                    }
                    if i == k0 && keeps && !out0.contains(i) {
                        assert(out@[out0.len() as int] == i);
                    }
                }
            }
        }
        let ghost h0 = h;
        h += 1;
        proof {
            assert forall|i: usize| out@.contains(i) <==> exists|h2: int|
                0 <= h2 < h && i < index.rules_of(h2).len() && #[trigger] keeps_position_state(index.rules_of(h2)[i as int]) by {
                if out@.contains(i) && !(exists|h2: int|
                    0 <= h2 < h0 && i < index.rules_of(h2).len() && #[trigger] keeps_position_state(
                        index.rules_of(h2)[i as int],
                    )) {
                    assert(i < index.rules_of(h0 as int).len() && keeps_position_state(index.rules_of(h0 as int)[i as int]));
                }
            }
        }
    }
    proof {
        assert forall|i: usize| out@.contains(i) <==> extension_index(*index, i) by {
            if extension_index(*index, i) {
                let h2 = choose|h2: int|
                    0 <= h2 < 256 && i < index.rules_of(h2).len() && #[trigger] keeps_position_state(index.rules_of(h2)[i as int]);
            }
        }
    }
    out
}

/// Whether a found match of a rule that keeps position state has key `k`.
fn is_live(index: &RuleIndex, found: &Vec<RuleMatch>, k: (u32, u32, usize)) -> (b: bool)
    ensures
        b == live_key(*index, found@, k),
{
    let mut j: usize = 0;
    while j < found.len()
        invariant
            j <= found@.len(),
            forall|q: int| 0 <= q < j ==> !(match_key3(#[trigger] found@[q]) == k && rule_has(*index, found@[q], |r: Rule| keeps_position_state(r))),
        decreases found@.len() - j,
    {
        let m = found[j];
        if m.x == k.0 && m.y == k.1 && m.rule_idx == k.2 {
            let rules = index.rules(m.head.0);
            if m.rule_idx < rules.len() && rule_keeps_position_state(&rules[m.rule_idx]) {
                assert(match_key3(found@[j as int]) == k);
                return true;
            }
        }
        j += 1;
    }
    false
}

/// Drop the state of cell `(x, y)` at every rule index of `ext` that no found match keeps
/// alive.
fn prune_cell(st: &mut TickState, x: u32, y: u32, ext: &Vec<usize>, index: &RuleIndex, found: &Vec<RuleMatch>)
    ensures
        final(st).starvation@ == cell_pruned(old(st).starvation@, x, y, ext@, *index, found@),
        final(st).feedback@ == cell_pruned(old(st).feedback@, x, y, ext@, *index, found@),
        final(st).memory@ == cell_pruned(old(st).memory@, x, y, ext@, *index, found@),
        final(st).activations@ == old(st).activations@,
{
    let mut j: usize = 0;
    while j < ext.len()
        invariant
            j <= ext@.len(),
            st.starvation@ == cell_pruned(old(st).starvation@, x, y, ext@.take(j as int), *index, found@),
            st.feedback@ == cell_pruned(old(st).feedback@, x, y, ext@.take(j as int), *index, found@),
            st.memory@ == cell_pruned(old(st).memory@, x, y, ext@.take(j as int), *index, found@),
            st.activations@ == old(st).activations@,
        decreases ext@.len() - j,
    {
        let r = ext[j];
        let key = (x, y, r);
        let live = is_live(index, found, key);
        if !live {
            st.starvation.remove(key);
            st.feedback.remove(key);
            st.memory.remove(key);
        }
        let ghost j0 = j;
        j += 1;
        proof {
            let t0 = ext@.take(j0 as int);
            let t1 = ext@.take(j as int);
            assert(t1 =~= t0.push(r));
            assert forall|i: usize| t1.contains(i) <==> (t0.contains(i) || i == r) by {
                if t1.contains(i) {
                    let q = choose|q: int| 0 <= q < t1.len() && t1[q] == i;
                    if q < t0.len() {
                        assert(t0[q] == i);
                    }
                }
                if t0.contains(i) {
                    let q = choose|q: int| 0 <= q < t0.len() && t0[q] == i;
                    assert(t1[q] == i);
                }
                if i == r {
                    assert(t1[j0 as int] == i);
                }
            }
            assert(st.starvation@ =~= cell_pruned(old(st).starvation@, x, y, t1, *index, found@));
            assert(st.feedback@ =~= cell_pruned(old(st).feedback@, x, y, t1, *index, found@));
            assert(st.memory@ =~= cell_pruned(old(st).memory@, x, y, t1, *index, found@));
        }
    }
    assert(ext@.take(j as int) =~= ext@);
}

proof fn lemma_prune_step<V>(
    m: Map<(u32, u32, usize), V>,
    w: int,
    h: int,
    index: RuleIndex,
    found: Seq<RuleMatch>,
    ext: Seq<usize>,
    y: int,
    x: int,
)
    requires
        0 <= x < w <= u32::MAX,
        0 <= y < h <= u32::MAX,
        forall|r: usize| ext.contains(r) <==> extension_index(index, r),
    ensures
        cell_pruned(pruned_upto(m, w, h, index, found, y, x), x as u32, y as u32, ext, index, found) == pruned_upto(
            m,
            w,
            h,
            index,
            found,
            y,
            x + 1,
        ),
{
    assert(cell_pruned(pruned_upto(m, w, h, index, found, y, x), x as u32, y as u32, ext, index, found) =~= pruned_upto(
        m,
        w,
        h,
        index,
        found,
        y,
        x + 1,
    ));
}

proof fn lemma_prune_bounds<V>(m: Map<(u32, u32, usize), V>, w: int, h: int, index: RuleIndex, found: Seq<RuleMatch>)
    requires
        0 <= w,
        0 <= h,
    ensures
        pruned_upto(m, w, h, index, found, 0, 0) == m,
        pruned_upto(m, w, h, index, found, h, 0) == without_stale(m, w, h, index, found),
        forall|y: int| #[trigger] pruned_upto(m, w, h, index, found, y, w) == pruned_upto(m, w, h, index, found, y + 1, 0),
{
    assert(pruned_upto(m, w, h, index, found, 0, 0) =~= m);
    assert(pruned_upto(m, w, h, index, found, h, 0) =~= without_stale(m, w, h, index, found));
    assert forall|y: int| #[trigger] pruned_upto(m, w, h, index, found, y, w) == pruned_upto(m, w, h, index, found, y + 1, 0) by {
        assert(pruned_upto(m, w, h, index, found, y, w) =~= pruned_upto(m, w, h, index, found, y + 1, 0));
    }
}

/// Drop the state of every stale key: on a cell of the `w` by `h` grid, at a rule index
/// some rule keeps position state for, and kept alive by no found match.
fn prune_stale(st: &mut TickState, w: usize, h: usize, index: &RuleIndex, found: &Vec<RuleMatch>)
    requires
        w <= coord_limit(),
        h <= coord_limit(),
    ensures
        final(st).starvation@ == without_stale(old(st).starvation@, w as int, h as int, *index, found@),
        final(st).feedback@ == without_stale(old(st).feedback@, w as int, h as int, *index, found@),
        final(st).memory@ == without_stale(old(st).memory@, w as int, h as int, *index, found@),
        final(st).activations@ == old(st).activations@,
{
    let ghost s0 = st.starvation@;
    let ghost f0 = st.feedback@;
    let ghost m0 = st.memory@;
    let ghost (wi, hi) = (w as int, h as int);
    proof {
        lemma_prune_bounds(s0, wi, hi, *index, found@);
        lemma_prune_bounds(f0, wi, hi, *index, found@);
        lemma_prune_bounds(m0, wi, hi, *index, found@);
    }
    let ext = extension_indices(index);
    if ext.len() == 0 {
        proof {
            assert(st.starvation@ =~= without_stale(s0, wi, hi, *index, found@));
            assert(st.feedback@ =~= without_stale(f0, wi, hi, *index, found@));
            assert(st.memory@ =~= without_stale(m0, wi, hi, *index, found@));
        }
        return;
    }
    let mut y: usize = 0;
    while y < h
        invariant
            y <= h,
            h <= coord_limit(),
            w <= coord_limit(),
            wi == w,
            hi == h,
            forall|r: usize| ext@.contains(r) <==> extension_index(*index, r),
            st.starvation@ == pruned_upto(s0, wi, hi, *index, found@, y as int, 0),
            st.feedback@ == pruned_upto(f0, wi, hi, *index, found@, y as int, 0),
            st.memory@ == pruned_upto(m0, wi, hi, *index, found@, y as int, 0),
            st.activations@ == old(st).activations@,
            forall|yy: int| #[trigger] pruned_upto(s0, wi, hi, *index, found@, yy, wi) == pruned_upto(s0, wi, hi, *index, found@, yy + 1, 0),
            forall|yy: int| #[trigger] pruned_upto(f0, wi, hi, *index, found@, yy, wi) == pruned_upto(f0, wi, hi, *index, found@, yy + 1, 0),
            forall|yy: int| #[trigger] pruned_upto(m0, wi, hi, *index, found@, yy, wi) == pruned_upto(m0, wi, hi, *index, found@, yy + 1, 0),
        decreases h - y,
    {
        let mut x: usize = 0;
        while x < w
            invariant
                x <= w,
                y < h,
                h <= coord_limit(),
                w <= coord_limit(),
                wi == w,
                hi == h,
                forall|r: usize| ext@.contains(r) <==> extension_index(*index, r),
                st.starvation@ == pruned_upto(s0, wi, hi, *index, found@, y as int, x as int),
                st.feedback@ == pruned_upto(f0, wi, hi, *index, found@, y as int, x as int),
                st.memory@ == pruned_upto(m0, wi, hi, *index, found@, y as int, x as int),
                st.activations@ == old(st).activations@,
            decreases w - x,
        {
            proof {
                lemma_prune_step(s0, wi, hi, *index, found@, ext@, y as int, x as int);
                lemma_prune_step(f0, wi, hi, *index, found@, ext@, y as int, x as int);
                lemma_prune_step(m0, wi, hi, *index, found@, ext@, y as int, x as int);
            }
            prune_cell(st, x as u32, y as u32, &ext, index, found);
            x += 1;
        }
        y += 1;
    }
}

// ---------------------------------------------------------------------------
// Gates that read the remembered state
// ---------------------------------------------------------------------------

/// A match of a rule with `memory` takes part only when its buffer holds exactly the
/// rule's pattern (a full window).
pub open spec fn memory_gate(index: RuleIndex, mem: Map<(u32, u32, usize), Seq<RecordedValue>>, m: RuleMatch) -> bool {
    match match_rule(index, m) {
        Some(r) => match r.memory {
            Some(spec) => mem.contains_key(match_key3(m)) && mem[match_key3(m)].len() == spec.window
                && mem[match_key3(m)] == spec.match_pattern@,
            None => true,
        },
        None => true,
    }
}

/// A match of a rule with an activation budget takes part only while the rule has won
/// fewer times than the budget.
pub open spec fn activation_gate(index: RuleIndex, act: Map<(u8, usize), u32>, m: RuleMatch) -> bool {
    match match_rule(index, m) {
        Some(r) => match r.max_activations {
            Some(limit) => value_or(act, (m.head.0, m.rule_idx), 0u32) < limit,
            None => true,
        },
        None => true,
    }
}

/// The candidates of a tick: the found matches that pass the memory gate, then the
/// activation gate.
pub open spec fn state_candidates(
    index: RuleIndex,
    mem: Map<(u32, u32, usize), Seq<RecordedValue>>,
    act: Map<(u8, usize), u32>,
    found: Seq<RuleMatch>,
) -> Seq<RuleMatch> {
    keep_where(
        keep_where(found, |m: RuleMatch| memory_gate(index, mem, m)),
        |m: RuleMatch| activation_gate(index, act, m),
    )
}

/// The matches whose buffer is ready.
fn gate_memory(index: &RuleIndex, mem: &MemoryBuffers, ms: &Vec<RuleMatch>) -> (r: Vec<RuleMatch>)
    ensures
        r@ == keep_where(ms@, |m: RuleMatch| memory_gate(*index, mem@, m)),
{
    let mut out: Vec<RuleMatch> = Vec::new();
    let mut k: usize = 0;
    while k < ms.len()
        invariant
            k <= ms@.len(),
            out@ == keep_where(ms@.take(k as int), |m: RuleMatch| memory_gate(*index, mem@, m)),
        decreases ms@.len() - k,
    {
        let m = ms[k];
        let rules = index.rules(m.head.0);
        let pass = if m.rule_idx < rules.len() {
            match &rules[m.rule_idx].memory {
                Some(spec) => mem.gate_open((m.x, m.y, m.rule_idx), spec.window, &spec.match_pattern),
                None => true,
            }
        } else {
            true
        };
        proof {
            assert(ms@.take(k as int + 1).drop_last() =~= ms@.take(k as int));
            assert(ms@.take(k as int + 1).last() == m);
        }
        if pass {
            out.push(m);
        }
        k += 1;
    }
    assert(ms@.take(k as int) =~= ms@);
    out
}

/// The matches whose rule has budget left.
fn gate_activations(index: &RuleIndex, act: &ActivationCounters, ms: &Vec<RuleMatch>) -> (r: Vec<RuleMatch>)
    ensures
        r@ == keep_where(ms@, |m: RuleMatch| activation_gate(*index, act@, m)),
{
    let mut out: Vec<RuleMatch> = Vec::new();
    let mut k: usize = 0;
    while k < ms.len()
        invariant
            k <= ms@.len(),
            out@ == keep_where(ms@.take(k as int), |m: RuleMatch| activation_gate(*index, act@, m)),
        decreases ms@.len() - k,
    {
        let m = ms[k];
        let rules = index.rules(m.head.0);
        let pass = if m.rule_idx < rules.len() {
            match rules[m.rule_idx].max_activations {
                Some(limit) => act.get((m.head.0, m.rule_idx)) < limit,
                None => true,
            }
        } else {
            true
        };
        proof {
            assert(ms@.take(k as int + 1).drop_last() =~= ms@.take(k as int));
            assert(ms@.take(k as int + 1).last() == m);
        }
        if pass {
            out.push(m);
        }
        k += 1;
    }
    assert(ms@.take(k as int) =~= ms@);
    out
}

/// The rule has feedback (`feedback`), or starvation counters (otherwise).
pub open spec fn tracked_by(r: Rule, feedback: bool) -> bool {
    if feedback {
        r.feedback is Some
    } else {
        r.starvation_after is Some
    }
}

/// The keys of the matches whose rule has feedback (`feedback`) or starvation counters
/// (otherwise), in order.
pub open spec fn keys_where(index: RuleIndex, ms: Seq<RuleMatch>, feedback: bool) -> Seq<(u32, u32, usize)>
    decreases ms.len(),
{
    if ms.len() == 0 {
        Seq::empty()
    } else {
        let p = keys_where(index, ms.drop_last(), feedback);
        let m = ms.last();
        if match match_rule(index, m) {
            Some(r) => tracked_by(r, feedback),
            None => false,
        } {
            p.push(match_key3(m))
        } else {
            p
        }
    }
}

/// The keys of the matches of rules with feedback (`feedback`) or starvation counters.
fn keys_of_rules_with(index: &RuleIndex, ms: &Vec<RuleMatch>, feedback: bool) -> (r: Vec<(u32, u32, usize)>)
    ensures
        r@ == keys_where(*index, ms@, feedback),
{
    let mut out: Vec<(u32, u32, usize)> = Vec::new();
    let mut k: usize = 0;
    while k < ms.len()
        invariant
            k <= ms@.len(),
            out@ == keys_where(*index, ms@.take(k as int), feedback),
        decreases ms@.len() - k,
    {
        let m = ms[k];
        let rules = index.rules(m.head.0);
        let pass = if m.rule_idx < rules.len() {
            if feedback {
                rules[m.rule_idx].feedback.is_some()
            } else {
                rules[m.rule_idx].starvation_after.is_some()
            }
        } else {
            false
        };
        proof {
            assert(ms@.take(k as int + 1).drop_last() =~= ms@.take(k as int));
            assert(ms@.take(k as int + 1).last() == m);
        }
        if pass {
            out.push((m.x, m.y, m.rule_idx));
        }
        k += 1;
    }
    assert(ms@.take(k as int) =~= ms@);
    out
}

// ---------------------------------------------------------------------------
// Updating the remembered state after arbitration
// ---------------------------------------------------------------------------

/// Some accepted match has key `k`.
pub open spec fn accepted_key(acc: Seq<RuleMatch>, k: (u32, u32, usize)) -> bool {
    exists|a: int| 0 <= a < acc.len() && match_key3(#[trigger] acc[a]) == k
}

/// Some accepted match with key `k` won below priority and age.
pub open spec fn decided_key(acc: Seq<RuleMatch>, dec: Seq<bool>, k: (u32, u32, usize)) -> bool {
    exists|a: int| 0 <= a < acc.len() && match_key3(#[trigger] acc[a]) == k && dec[a]
}

/// Starvation counters after a tick: a candidate that won outright is reset, one that won
/// below priority and age keeps its count, one that lost counts one more loss.
pub open spec fn starvation_after_tick(
    st: Map<(u32, u32, usize), u32>,
    keys: Seq<(u32, u32, usize)>,
    acc: Seq<RuleMatch>,
    dec: Seq<bool>,
) -> Map<(u32, u32, usize), u32>
    decreases keys.len(),
{
    if keys.len() == 0 {
        st
    } else {
        let p = starvation_after_tick(st, keys.drop_last(), acc, dec);
        let k = keys.last();
        if accepted_key(acc, k) {
            if decided_key(acc, dec, k) {
                p
            } else {
                p.remove(k)
            }
        } else {
            p.insert(k, sat_inc32(value_or(p, k, 0u32)))
        }
    }
}

/// Feedback counters after a tick: every candidate that lost counts one more detection
/// (winners were counted when applied).
pub open spec fn feedback_after_tick(
    fb: Map<(u32, u32, usize), u64>,
    keys: Seq<(u32, u32, usize)>,
    acc: Seq<RuleMatch>,
) -> Map<(u32, u32, usize), u64>
    decreases keys.len(),
{
    if keys.len() == 0 {
        fb
    } else {
        let p = feedback_after_tick(fb, keys.drop_last(), acc);
        let k = keys.last();
        if accepted_key(acc, k) {
            p
        } else {
            p.insert(k, sat_inc64(value_or(p, k, 0u64)))
        }
    }
}

/// Activation counters after a tick: one more win for the rule of every accepted match
/// whose rule has a budget.
pub open spec fn activations_after_tick(act: Map<(u8, usize), u32>, index: RuleIndex, acc: Seq<RuleMatch>) -> Map<
    (u8, usize),
    u32,
>
    decreases acc.len(),
{
    if acc.len() == 0 {
        act
    } else {
        let p = activations_after_tick(act, index, acc.drop_last());
        let m = acc.last();
        if rule_has(index, m, |r: Rule| r.max_activations is Some) {
            p.insert((m.head.0, m.rule_idx), sat_inc32(value_or(p, (m.head.0, m.rule_idx), 0u32)))
        } else {
            p
        }
    }
}

/// The value a memory buffer records for match `m`: the type of its neighbour in the
/// rule's direction (the default type off the grid), or whether it was accepted.
pub open spec fn observed_value(g: Grid, index: RuleIndex, acc: Seq<RuleMatch>, m: RuleMatch) -> RecordedValue {
    match match_rule(index, m) {
        Some(r) => match r.memory {
            Some(spec) => match spec.record_trigger {
                RecordTrigger::NeighborType(d) => {
                    let nx = m.x + spec_direction_delta(d).0;
                    let ny = m.y + spec_direction_delta(d).1;
                    RecordedValue::Type(
                        if nx < 0 || ny < 0 {
                            CellType(0)
                        } else {
                            g.spec_cell(nx, ny).value.0
                        },
                    )
                },
                RecordTrigger::RuleOutcome => if accepted_key(acc, match_key3(m)) {
                    RecordedValue::Applied
                } else {
                    RecordedValue::Missed
                },
            },
            None => RecordedValue::Missed,
        },
        None => RecordedValue::Missed,
    }
}

/// The window of the memory of the rule of `m`.
pub open spec fn memory_window(index: RuleIndex, m: RuleMatch) -> usize {
    match match_rule(index, m) {
        Some(r) => match r.memory {
            Some(spec) => spec.window,
            None => 0,
        },
        None => 0,
    }
}

/// Memory buffers after every target observed its value, in order.
pub open spec fn memory_after_observing(
    mem: Map<(u32, u32, usize), Seq<RecordedValue>>,
    g: Grid,
    index: RuleIndex,
    acc: Seq<RuleMatch>,
    targets: Seq<RuleMatch>,
) -> Map<(u32, u32, usize), Seq<RecordedValue>>
    decreases targets.len(),
{
    if targets.len() == 0 {
        mem
    } else {
        let p = memory_after_observing(mem, g, index, acc, targets.drop_last());
        let m = targets.last();
        let k = match_key3(m);
        p.insert(
            k,
            spec_observe(value_or(p, k, Seq::empty()), observed_value(g, index, acc, m), memory_window(index, m)),
        )
    }
}

/// Whether some accepted match has key `k`.
fn is_accepted(acc: &Vec<RuleMatch>, k: (u32, u32, usize)) -> (b: bool)
    ensures
        b == accepted_key(acc@, k),
{
    let mut j: usize = 0;
    while j < acc.len()
        invariant
            j <= acc@.len(),
            forall|q: int| 0 <= q < j ==> match_key3(#[trigger] acc@[q]) != k,
        decreases acc@.len() - j,
    {
        if acc[j].x == k.0 && acc[j].y == k.1 && acc[j].rule_idx == k.2 {
            assert(match_key3(acc@[j as int]) == k);
            return true;
        }
        j += 1;
    }
    false
}

/// Whether some accepted match with key `k` won below priority and age.
fn is_decided(acc: &Vec<RuleMatch>, dec: &Vec<bool>, k: (u32, u32, usize)) -> (b: bool)
    requires
        dec@.len() == acc@.len(),
    ensures
        b == decided_key(acc@, dec@, k),
{
    let mut j: usize = 0;
    while j < acc.len()
        invariant
            j <= acc@.len(),
            dec@.len() == acc@.len(),
            forall|q: int| 0 <= q < j ==> !(match_key3(#[trigger] acc@[q]) == k && dec@[q]),
        decreases acc@.len() - j,
    {
        if acc[j].x == k.0 && acc[j].y == k.1 && acc[j].rule_idx == k.2 && dec[j] {
            assert(match_key3(acc@[j as int]) == k);
            return true;
        }
        j += 1;
    }
    false
}

/// Reset, keep or count up the starvation counter of every key.
fn update_starvation(st: &mut MatchMap<u32>, keys: &Vec<(u32, u32, usize)>, acc: &Vec<RuleMatch>, dec: &Vec<bool>)
    requires
        dec@.len() == acc@.len(),
    ensures
        final(st)@ == starvation_after_tick(old(st)@, keys@, acc@, dec@),
{
    let mut k: usize = 0;
    while k < keys.len()
        invariant
            k <= keys@.len(),
            dec@.len() == acc@.len(),
            st@ == starvation_after_tick(old(st)@, keys@.take(k as int), acc@, dec@),
        decreases keys@.len() - k,
    {
        let key = keys[k];
        proof {
            assert(keys@.take(k as int + 1).drop_last() =~= keys@.take(k as int));
            assert(keys@.take(k as int + 1).last() == key);
        }
        if is_accepted(acc, key) {
            if !is_decided(acc, dec, key) {
                st.remove(key);
            }
        } else {
            let c = match st.get(key) {
                Some(c) => c,
                None => 0,
            };
            let v = if c == u32::MAX {
                c
            } else {
                c + 1
            };
            st.set(key, v);
        }
        k += 1;
    }
    assert(keys@.take(k as int) =~= keys@);
}

/// Count one more detection for every key that lost.
fn count_losses(fb: &mut MatchMap<u64>, keys: &Vec<(u32, u32, usize)>, acc: &Vec<RuleMatch>)
    ensures
        final(fb)@ == feedback_after_tick(old(fb)@, keys@, acc@),
{
    let mut k: usize = 0;
    while k < keys.len()
        invariant
            k <= keys@.len(),
            fb@ == feedback_after_tick(old(fb)@, keys@.take(k as int), acc@),
        decreases keys@.len() - k,
    {
        let key = keys[k];
        proof {
            assert(keys@.take(k as int + 1).drop_last() =~= keys@.take(k as int));
            assert(keys@.take(k as int + 1).last() == key);
        }
        if !is_accepted(acc, key) {
            let c = match fb.get(key) {
                Some(c) => c,
                None => 0,
            };
            let v = if c == u64::MAX {
                c
            } else {
                c + 1
            };
            fb.set(key, v);
        }
        k += 1;
    }
    assert(keys@.take(k as int) =~= keys@);
}

/// Count one more win for the rule of every accepted match whose rule has a budget.
fn count_activations(act: &mut ActivationCounters, index: &RuleIndex, acc: &Vec<RuleMatch>)
    ensures
        final(act)@ == activations_after_tick(old(act)@, *index, acc@),
{
    let mut k: usize = 0;
    while k < acc.len()
        invariant
            k <= acc@.len(),
            act@ == activations_after_tick(old(act)@, *index, acc@.take(k as int)),
        decreases acc@.len() - k,
    {
        let m = acc[k];
        proof {
            assert(acc@.take(k as int + 1).drop_last() =~= acc@.take(k as int));
            assert(acc@.take(k as int + 1).last() == m);
        }
        let rules = index.rules(m.head.0);
        if m.rule_idx < rules.len() && rules[m.rule_idx].max_activations.is_some() {
            act.increment((m.head.0, m.rule_idx));
        }
        k += 1;
    }
    assert(acc@.take(k as int) =~= acc@);
}

/// Record, for every target in order, the value its rule's memory observes.
fn observe_memory(
    mem: &mut MemoryBuffers,
    grid: &Grid,
    index: &RuleIndex,
    acc: &Vec<RuleMatch>,
    targets: &Vec<RuleMatch>,
)
    requires
        forall|i: int| 0 <= i < targets@.len() ==> (#[trigger] targets@[i]).x <= coord_limit() && targets@[i].y <= coord_limit(),
    ensures
        final(mem)@ == memory_after_observing(old(mem)@, *grid, *index, acc@, targets@),
{
    let mut k: usize = 0;
    while k < targets.len()
        invariant
            k <= targets@.len(),
            forall|i: int| 0 <= i < targets@.len() ==> (#[trigger] targets@[i]).x <= coord_limit() && targets@[i].y <= coord_limit(),
            mem@ == memory_after_observing(old(mem)@, *grid, *index, acc@, targets@.take(k as int)),
        decreases targets@.len() - k,
    {
        let m = targets[k];
        assert(m == targets@[k as int]);
        proof {
            assert(targets@.take(k as int + 1).drop_last() =~= targets@.take(k as int));
            assert(targets@.take(k as int + 1).last() == m);
        }
        let rules = index.rules(m.head.0);
        let key = (m.x, m.y, m.rule_idx);
        let (value, window) = if m.rule_idx < rules.len() {
            match &rules[m.rule_idx].memory {
                Some(spec) => {
                    let v = match spec.record_trigger {
                        RecordTrigger::NeighborType(d) => {
                            let (dx, dy) = direction_delta(d);
                            let nx = m.x as i64 + dx as i64;
                            let ny = m.y as i64 + dy as i64;
                            let t = if nx < 0 || ny < 0 {
                                CellType(0)
                            } else {
                                match grid.get_cell(nx as usize, ny as usize) {
                                    Some(c) => c.value.0,
                                    None => CellType(0),
                                }
                            };
                            RecordedValue::Type(t)
                        },
                        RecordTrigger::RuleOutcome => if is_accepted(acc, key) {
                            RecordedValue::Applied
                        } else {
                            RecordedValue::Missed
                        },
                    };
                    (v, spec.window)
                },
                None => (RecordedValue::Missed, 0),
            }
        } else {
            (RecordedValue::Missed, 0)
        };
        proof {
            assert(window == memory_window(*index, m));
            assert(value == observed_value(*grid, *index, acc@, m));
        }
        mem.observe(key, value, window);
        k += 1;
    }
    assert(targets@.take(k as int) =~= targets@);
}

// ---------------------------------------------------------------------------
// A tick that remembers
// ---------------------------------------------------------------------------

/// The found matches whose rule has `memory`: their buffers observe every tick, gate open
/// or not.
pub open spec fn memory_targets(index: RuleIndex, found: Seq<RuleMatch>) -> Seq<RuleMatch> {
    keep_where(found, |m: RuleMatch| rule_has(index, m, |r: Rule| r.memory is Some))
}

fn collect_memory_targets(index: &RuleIndex, ms: &Vec<RuleMatch>) -> (r: Vec<RuleMatch>)
    ensures
        r@ == memory_targets(*index, ms@),
{
    let mut out: Vec<RuleMatch> = Vec::new();
    let mut k: usize = 0;
    while k < ms.len()
        invariant
            k <= ms@.len(),
            out@ == keep_where(ms@.take(k as int), |m: RuleMatch| rule_has(*index, m, |r: Rule| r.memory is Some)),
        decreases ms@.len() - k,
    {
        let m = ms[k];
        let rules = index.rules(m.head.0);
        let pass = m.rule_idx < rules.len() && rules[m.rule_idx].memory.is_some();
        proof {
            assert(ms@.take(k as int + 1).drop_last() =~= ms@.take(k as int));
            assert(ms@.take(k as int + 1).last() == m);
        }
        if pass {
            out.push(m);
        }
        k += 1;
    }
    assert(ms@.take(k as int) =~= ms@);
    out
}

/// `m` without the keys a tick on `g` finds stale.
pub open spec fn stale_free<V>(g: Grid, index: RuleIndex, m: Map<(u32, u32, usize), V>) -> Map<(u32, u32, usize), V> {
    without_stale(m, g.spec_width() as int, g.spec_height() as int, index, tick_found(g, index))
}

/// The candidates of a tick on `g` with buffers `mem` and activation counters `act` (before
/// stale keys are dropped).
pub open spec fn tick_state_candidates(
    g: Grid,
    index: RuleIndex,
    mem: Map<(u32, u32, usize), Seq<RecordedValue>>,
    act: Map<(u8, usize), u32>,
) -> Seq<RuleMatch> {
    state_candidates(index, stale_free(g, index, mem), act, tick_found(g, index))
}

/// What applying `acc` does on `g`, with the feedback counters and memory buffers the tick
/// reached: stale keys dropped, and the memory targets' observations recorded.
pub open spec fn tick_state_effect(
    g: Grid,
    index: RuleIndex,
    fb: Map<(u32, u32, usize), u64>,
    mem: Map<(u32, u32, usize), Seq<RecordedValue>>,
    acc: Seq<RuleMatch>,
) -> (Map<(u32, u32), Cell>, Seq<crate::apply::RegionSpec>, Seq<(usize, usize, Cell)>, Map<(u32, u32, usize), u64>, Map<
    (u32, u32, usize),
    Seq<RecordedValue>,
>) {
    matches_effect(
        g,
        acc,
        index,
        tick_cams(g, index),
        g.spec_generation(),
        Map::empty(),
        stale_free(g, index, fb),
        memory_after_observing(stale_free(g, index, mem), g, index, acc, memory_targets(index, tick_found(g, index))),
    )
}

/// `acc` is the outcome of arbitrating the candidates of a tick on `g` (with state
/// `starv`, `mem`, `act` before stale keys are dropped), `dec` telling which wins were
/// decided below priority and age, whichever cache of the index supplies the written cells.
pub open spec fn tick_arbitrated(
    acc: Seq<RuleMatch>,
    dec: Seq<bool>,
    g: Grid,
    index: RuleIndex,
    starv: Map<(u32, u32, usize), u32>,
    mem: Map<(u32, u32, usize), Seq<RecordedValue>>,
    act: Map<(u8, usize), u32>,
    fb: Map<(u32, u32, usize), u64>,
) -> bool {
    let cands = tick_state_candidates(g, index, mem, act);
    forall|cache: RuleDataCache|
        #[trigger] cache.caches(index) ==> arbitration_outcome(
            acc,
            dec,
            cands,
            keys_of(g, index, stale_free(g, index, starv), tick_generation(g), cands),
            cells_of(
                index,
                cache,
                tick_cams(g, index),
                stale_free(g, index, fb),
                g.spec_width() as int,
                g.spec_height() as int,
                cands,
            ),
            Seq::empty(),
        )
}

/// `acc` and `dec` are the outcome of arbitrating a tick on `g` (see `tick_arbitrated`), and
/// `starv_new` the starvation counters `starv` become after it.
pub open spec fn tick_starvation_updated(
    acc: Seq<RuleMatch>,
    dec: Seq<bool>,
    g: Grid,
    index: RuleIndex,
    starv: Map<(u32, u32, usize), u32>,
    mem: Map<(u32, u32, usize), Seq<RecordedValue>>,
    act: Map<(u8, usize), u32>,
    fb: Map<(u32, u32, usize), u64>,
    starv_new: Map<(u32, u32, usize), u32>,
) -> bool {
    &&& tick_arbitrated(acc, dec, g, index, starv, mem, act, fb)
    &&& starv_new == starvation_after_tick(
        stale_free(g, index, starv),
        keys_where(index, tick_state_candidates(g, index, mem, act), false),
        acc,
        dec,
    )
}

/// One stateful tick took grid `g0` with state `st0` to grid `g1` with state `st1`, accepting
/// `acc` and outputting `outs` (see `run_tick_with_state`).
pub open spec fn tick_ran(
    g0: Grid,
    index: RuleIndex,
    st0: TickState,
    g1: Grid,
    st1: TickState,
    acc: Seq<RuleMatch>,
    outs: Seq<(u32, Cell)>,
) -> bool {
    let e = tick_state_effect(g0, index, st0.feedback@, st0.memory@, acc);
    &&& exists|dec: Seq<bool>|
        #[trigger] tick_starvation_updated(
            acc,
            dec,
            g0,
            index,
            st0.starvation@,
            st0.memory@,
            st0.activations@,
            st0.feedback@,
            st1.starvation@,
        )
    &&& grid_ticked(g1, g0, e.0, e.1, e.2)
    &&& outs == e.2.map_values(|o: (usize, usize, Cell)| (o.0 as u32, o.2))
    &&& st1.memory@ == e.4
    &&& st1.feedback@ == feedback_after_tick(
        e.3,
        keys_where(index, tick_state_candidates(g0, index, st0.memory@, st0.activations@), true),
        acc,
    )
    &&& st1.activations@ == activations_after_tick(st0.activations@, index, acc)
}

/// One tick that keeps state between calls. The state of positions no longer matched is
/// dropped first; a match of a rule with `memory` takes part only when its buffer holds the
/// rule's pattern, a match of a rule with an activation budget only while budget is left;
/// arbitration reads the starvation counters (a starved match counts with the highest
/// priority) and the tie-breaks rotate with the generation. After arbitration the
/// starvation counters of winners decided by priority or age are reset, those of losers
/// count up; memory buffers record their observation; the winners are applied (reading and
/// counting feedback, moving state along with shifts); losers with feedback count one more
/// detection; winners with a budget count one more win. The grid ages by one generation and
/// the cells written get age 0. Returns the accepted matches, in the order considered, and
/// the values output to boundary buffers, by channel, and how many candidates there were, how
/// many of them belong to rules with starvation counters and how many to rules with feedback.
pub fn run_tick_counted(grid: &mut Grid, index: &RuleIndex, st: &mut TickState) -> (r: (
    Vec<RuleMatch>,
    Vec<(u32, Cell)>,
    (usize, usize, usize),
))
    requires
        grid_small(*old(grid)),
        index_in_bounds(*index),
        cam_recursion_ids(*index),
        old(grid).spec_generation() < u64::MAX,
    ensures
        exists|dec: Seq<bool>|
            #[trigger] tick_starvation_updated(
                r.0@,
                dec,
                *old(grid),
                *index,
                old(st).starvation@,
                old(st).memory@,
                old(st).activations@,
                old(st).feedback@,
                final(st).starvation@,
            ),
        grid_ticked(
            *final(grid),
            *old(grid),
            tick_state_effect(*old(grid), *index, old(st).feedback@, old(st).memory@, r.0@).0,
            tick_state_effect(*old(grid), *index, old(st).feedback@, old(st).memory@, r.0@).1,
            tick_state_effect(*old(grid), *index, old(st).feedback@, old(st).memory@, r.0@).2,
        ),
        r.1@ == tick_state_effect(*old(grid), *index, old(st).feedback@, old(st).memory@, r.0@).2.map_values(
            |o: (usize, usize, Cell)| (o.0 as u32, o.2),
        ),
        final(st).memory@ == tick_state_effect(*old(grid), *index, old(st).feedback@, old(st).memory@, r.0@).4,
        final(st).feedback@ == feedback_after_tick(
            tick_state_effect(*old(grid), *index, old(st).feedback@, old(st).memory@, r.0@).3,
            keys_where(*index, tick_state_candidates(*old(grid), *index, old(st).memory@, old(st).activations@), true),
            r.0@,
        ),
        final(st).activations@ == activations_after_tick(old(st).activations@, *index, r.0@),
        r.2.0 == tick_state_candidates(*old(grid), *index, old(st).memory@, old(st).activations@).len(),
        r.2.1 == keys_where(*index, tick_state_candidates(*old(grid), *index, old(st).memory@, old(st).activations@), false).len(),
        r.2.2 == keys_where(*index, tick_state_candidates(*old(grid), *index, old(st).memory@, old(st).activations@), true).len(),
        r.0@.len() <= r.2.0,
{
    let ghost g = *grid;
    let w = grid.width();
    let h = grid.height();
    let rcache = build_rule_data_cache(index);
    let (found, cams) = detect_all(grid, index);
    prune_stale(st, w, h, index, &found);
    let ghost starv0 = st.starvation@;
    let ghost fb0 = st.feedback@;
    let ghost mem0 = st.memory@;
    let ghost act0 = st.activations@;
    let targets = collect_memory_targets(index, &found);
    let gated = gate_memory(index, &st.memory, &found);
    let cands = gate_activations(index, &st.activations, &gated);
    let starving = keys_of_rules_with(index, &cands, false);
    let fbkeys = keys_of_rules_with(index, &cands, true);
    let counts = (cands.len(), starving.len(), fbkeys.len());
    let gen = (grid.generation() % 0x1_0000_0000) as u32;
    proof {
        lemma_keep_where_subset(found@, |m: RuleMatch| memory_gate(*index, mem0, m));
        lemma_keep_where_subset(gated@, |m: RuleMatch| activation_gate(*index, act0, m));
        lemma_keep_where_subset(found@, |m: RuleMatch| rule_has(*index, m, |r: Rule| r.memory is Some));
        assert forall|i: int| 0 <= i < cands@.len() implies found@.contains(#[trigger] cands@[i]) by {
            assert(gated@.contains(cands@[i]));
            let j = choose|j: int| 0 <= j < gated@.len() && gated@[j] == cands@[i];
        }
        lemma_drawn_matches_fit(g, *index, cams@, found@, cands@);
        lemma_drawn_matches_fit(g, *index, cams@, found@, targets@);
    }
    let reserved: Vec<(i32, i32)> = Vec::new();
    let (accepted, decided) = arbitrate_with_cam(cands, index, &rcache, grid, &cams, &st.feedback, gen, &st.starvation, &reserved);
    proof {
        assert(int_cells(reserved@) =~= Seq::<(int, int)>::empty());
        assert forall|i: int| 0 <= i < accepted@.len() implies found@.contains(#[trigger] accepted@[i]) by {
            let sel = choose|sel: Seq<int>|
                #[trigger] crate::arbitrator::greedy_reserving(
                    keys_of(g, *index, starv0, gen, cands@),
                    cells_of(*index, rcache, cams@, fb0, w as int, h as int, cands@),
                    sel,
                    Seq::empty(),
                ) && accepted@ == sel.map_values(|k: int| cands@[k]) && decided@.len() == sel.len() && forall|a: int|
                    0 <= a < sel.len() ==> decided@[a] == crate::arbitrator::tie_decided(
                        keys_of(g, *index, starv0, gen, cands@),
                        cells_of(*index, rcache, cams@, fb0, w as int, h as int, cands@),
                        sel,
                        a,
                    );
            assert(accepted@[i] == cands@[sel[i]]);
            assert(cands@.contains(cands@[sel[i]]));
        }
        lemma_drawn_matches_fit(g, *index, cams@, found@, accepted@);
    }
    let ghost dec = decided@;
    update_starvation(&mut st.starvation, &starving, &accepted, &decided);
    observe_memory(&mut st.memory, grid, index, &accepted, &targets);
    let outputs = if accepted.len() == 0 {
        grid.advance_age();
        proof {
            assert forall|a: usize, b: usize| true implies #[trigger] grid.spec_boundary_at(a, b) == g.spec_boundary_at(a, b) by {}
        }
        Vec::new()
    } else {
        let (regions, outputs) = apply_matches_with_cam(grid, &accepted, index, &rcache, &cams, &mut st.feedback, &mut st.memory);
        let ghost mid = *grid;
        grid.advance_age();
        reset_age_for_regions(grid, &regions);
        proof {
            let e = matches_effect(g, accepted@, *index, cams@, g.spec_generation(), Map::empty(), fb0, memory_after_observing(mem0, g, *index, accepted@, targets@));
            assert forall|a: int, b: int| in_regions(regions@, a, b) == in_region_specs(e.1, a, b) by {
                lemma_in_regions_specs(regions@, e.1, a, b);
            }
            assert forall|a: usize, b: usize| true implies #[trigger] grid.spec_boundary_at(a, b) == mid.spec_boundary_at(a, b) by {}
        }
        outputs
    };
    count_losses(&mut st.feedback, &fbkeys, &accepted);
    count_activations(&mut st.activations, index, &accepted);
    proof {
        let g_cands = tick_state_candidates(g, *index, old(st).memory@, old(st).activations@);
        let g_starv = stale_free(g, *index, old(st).starvation@);
        assert(found@ == tick_found(g, *index));
        assert(cands@ == g_cands);
        assert(starv0 == g_starv);
        assert(gen == tick_generation(g));
        assert(cams@ == tick_cams(g, *index));
        assert(st.starvation@ == starvation_after_tick(g_starv, keys_where(*index, g_cands, false), accepted@, dec));
        assert(tick_arbitrated(
            accepted@,
            dec,
            g,
            *index,
            old(st).starvation@,
            old(st).memory@,
            old(st).activations@,
            old(st).feedback@,
        )) by {
            assert forall|c: RuleDataCache| #[trigger] c.caches(*index) implies arbitration_outcome(
                accepted@,
                dec,
                g_cands,
                keys_of(g, *index, g_starv, tick_generation(g), g_cands),
                cells_of(
                    *index,
                    c,
                    tick_cams(g, *index),
                    stale_free(g, *index, old(st).feedback@),
                    g.spec_width() as int,
                    g.spec_height() as int,
                    g_cands,
                ),
                Seq::empty(),
            ) by {
                lemma_cells_cache_independent(*index, rcache, c, cams@, fb0, w as int, h as int, cands@);
            }
        }
        assert(tick_starvation_updated(
            accepted@,
            dec,
            *old(grid),
            *index,
            old(st).starvation@,
            old(st).memory@,
            old(st).activations@,
            old(st).feedback@,
            st.starvation@,
        ));
    }
    let ghost acc_v = accepted@;
    let result = (accepted, outputs, counts);
    assert(result.0@ == acc_v);
    result
}

/// One tick that keeps state between calls. The state of positions no longer matched is
/// dropped first; a match of a rule with `memory` takes part only when its buffer holds the
/// rule's pattern, a match of a rule with an activation budget only while budget is left;
/// arbitration reads the starvation counters (a starved match counts with the highest
/// priority) and the tie-breaks rotate with the generation. After arbitration the
/// starvation counters of winners decided by priority or age are reset, those of losers
/// count up; memory buffers record their observation; the winners are applied (reading and
/// counting feedback, moving state along with shifts); losers with feedback count one more
/// detection; winners with a budget count one more win. The grid ages by one generation and
/// the cells written get age 0. Returns the accepted matches, in the order considered, and
/// the values output to boundary buffers, by channel.
pub fn run_tick_with_state(grid: &mut Grid, index: &RuleIndex, st: &mut TickState) -> (r: (
    Vec<RuleMatch>,
    Vec<(u32, Cell)>,
))
    requires
        grid_small(*old(grid)),
        index_in_bounds(*index),
        cam_recursion_ids(*index),
        old(grid).spec_generation() < u64::MAX,
    ensures
        exists|dec: Seq<bool>|
            #[trigger] tick_starvation_updated(
                r.0@,
                dec,
                *old(grid),
                *index,
                old(st).starvation@,
                old(st).memory@,
                old(st).activations@,
                old(st).feedback@,
                final(st).starvation@,
            ),
        grid_ticked(
            *final(grid),
            *old(grid),
            tick_state_effect(*old(grid), *index, old(st).feedback@, old(st).memory@, r.0@).0,
            tick_state_effect(*old(grid), *index, old(st).feedback@, old(st).memory@, r.0@).1,
            tick_state_effect(*old(grid), *index, old(st).feedback@, old(st).memory@, r.0@).2,
        ),
        r.1@ == tick_state_effect(*old(grid), *index, old(st).feedback@, old(st).memory@, r.0@).2.map_values(
            |o: (usize, usize, Cell)| (o.0 as u32, o.2),
        ),
        final(st).memory@ == tick_state_effect(*old(grid), *index, old(st).feedback@, old(st).memory@, r.0@).4,
        final(st).feedback@ == feedback_after_tick(
            tick_state_effect(*old(grid), *index, old(st).feedback@, old(st).memory@, r.0@).3,
            keys_where(*index, tick_state_candidates(*old(grid), *index, old(st).memory@, old(st).activations@), true),
            r.0@,
        ),
        final(st).activations@ == activations_after_tick(old(st).activations@, *index, r.0@),
{
    let t = run_tick_counted(grid, index, st);
    let ghost acc_v = t.0@;
    let (accepted, outputs, _) = t;
    let result = (accepted, outputs);
    assert(result.0@ == acc_v);
    result
}

proof fn lemma_activations_untouched(act: Map<(u8, usize), u32>, index: RuleIndex, acc: Seq<RuleMatch>, key: (u8, usize))
    requires
        forall|a: int| 0 <= a < acc.len() ==> !((#[trigger] acc[a]).head.0 == key.0 && acc[a].rule_idx == key.1),
    ensures
        value_or(activations_after_tick(act, index, acc), key, 0u32) == value_or(act, key, 0u32),
    decreases acc.len(),
{
    if acc.len() > 0 {
        let p = acc.drop_last();
        assert forall|a: int| 0 <= a < p.len() implies !((#[trigger] p[a]).head.0 == key.0 && p[a].rule_idx == key.1) by {
            assert(p[a] == acc[a]);
        }
        lemma_activations_untouched(act, index, p, key);
        assert(acc.last() == acc[acc.len() - 1]);
    }
}

/// Law: once a rule has spent its activation budget, a tick accepts none of its matches and
/// leaves its counter as it was, so no later tick that shares this state accepts it again.
pub proof fn lemma_spent_budget_blocks_acceptance(
    acc: Seq<RuleMatch>,
    dec: Seq<bool>,
    g: Grid,
    index: RuleIndex,
    starv: Map<(u32, u32, usize), u32>,
    mem: Map<(u32, u32, usize), Seq<RecordedValue>>,
    act: Map<(u8, usize), u32>,
    fb: Map<(u32, u32, usize), u64>,
    cache: RuleDataCache,
    key: (u8, usize),
    limit: u32,
)
    requires
        cache.caches(index),
        tick_arbitrated(acc, dec, g, index, starv, mem, act, fb),
        key.1 < index.rules_of(key.0 as int).len(),
        index.rules_of(key.0 as int)[key.1 as int].max_activations == Some(limit),
        value_or(act, key, 0u32) >= limit,
    ensures
        forall|a: int| 0 <= a < acc.len() ==> !((#[trigger] acc[a]).head.0 == key.0 && acc[a].rule_idx == key.1),
        value_or(activations_after_tick(act, index, acc), key, 0u32) == value_or(act, key, 0u32),
{
    let cands = tick_state_candidates(g, index, mem, act);
    let keys = keys_of(g, index, stale_free(g, index, starv), tick_generation(g), cands);
    let cells = cells_of(
        index,
        cache,
        tick_cams(g, index),
        stale_free(g, index, fb),
        g.spec_width() as int,
        g.spec_height() as int,
        cands,
    );
    assert(arbitration_outcome(acc, dec, cands, keys, cells, Seq::empty()));
    let sel = choose|sel: Seq<int>|
        #[trigger] greedy_reserving(keys, cells, sel, Seq::empty()) && acc == sel.map_values(|k: int| cands[k])
            && dec.len() == sel.len() && forall|a: int|
            0 <= a < sel.len() ==> dec[a] == tie_decided(keys, cells, sel, a);
    let inner = keep_where(tick_found(g, index), |m: RuleMatch| memory_gate(index, stale_free(g, index, mem), m));
    lemma_keep_where_subset(inner, |m: RuleMatch| activation_gate(index, act, m));
    assert forall|a: int| 0 <= a < acc.len() implies !((#[trigger] acc[a]).head.0 == key.0 && acc[a].rule_idx == key.1) by {
        assert(0 <= sel[a] < keys.len());
        assert(acc[a] == cands[sel[a]]);
        assert(activation_gate(index, act, cands[sel[a]]));
    }
    lemma_activations_untouched(act, index, acc, key);
}

} // verus!
