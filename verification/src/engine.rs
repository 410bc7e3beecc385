use vstd::prelude::*;
use crate::apply::{
    coord_limit, grid_applied, grid_small, in_regions, matches_applicable, matches_effect,
    region_matches, reset_age_for_regions,
};
use crate::arbitrator::{arbitration_result, cells_of, keys_of};
use crate::conflict_analyzer::{
    build_rule_data_cache, index_in_bounds, spec_conflict_edges, CompositionVerdict, ConflictGraph, RuleDataCache,
};
use crate::geometry::{check_rule_bounds, rule_in_bounds, rules_in_bounds};
use crate::invalidate::{head_slot_stale, rule_changed, slot_changed, stale_state_key, state_invalidated, without_keys};
use crate::grid::{drained, enqueued, popped, queued_cells, queues_view, same_grid, Grid};
use crate::rule_eq::{copy_rule, lemma_same_rule_bounds, same_rule, same_rules};
use crate::matcher::coords_matches;
use crate::pipeline::{
    all_coords, cam_recursion_ids, grid_coords, InputEvent, TerminationVerdict, TickLogEntry,
};
use crate::text::str_eq;
use crate::tick_state::{keys_where, run_tick_counted, tick_ran, tick_state_candidates, TickState};
use crate::types::{AffectedRegion, BoundaryBuffer, Cell, CellType, Rule, RuleIndex, RuleMatch};

verus! {

// ---------------------------------------------------------------------------
// The engine: a grid, its rules and the state kept between ticks
// ---------------------------------------------------------------------------

/// A simulation: the grid, the rules by head, their precomputed data, the state rules keep
/// between ticks, and optional logs of inputs and ticks.
pub struct Engine {
    pub grid: Grid,
    rule_index: RuleIndex,
    pub rule_cache: RuleDataCache,
    state: TickState,
    input_log: Option<Vec<InputEvent>>,
    tick_log: Option<Vec<TickLogEntry>>,
}

/// A saved simulation: what cannot be recomputed from the rest (the grid, the rules and the
/// state kept between ticks).
pub struct EngineSnapshot {
    grid: Grid,
    rule_index: RuleIndex,
    state: TickState,
}

impl EngineSnapshot {
    /// The saved grid.
    pub closed spec fn spec_grid(self) -> Grid {
        self.grid
    }

    /// The saved rules.
    pub closed spec fn spec_rules(self) -> RuleIndex {
        self.rule_index
    }

    /// The saved state.
    pub closed spec fn spec_state(self) -> TickState {
        self.state
    }

    /// An engine can be rebuilt from the snapshot.
    pub closed spec fn wf(self) -> bool {
        grid_small(self.grid) && index_runnable(self.rule_index)
    }
}

/// A rule the engine can run: within the coordinate bounds, and a `cam` rule with
/// `recursion` has an id.
pub open spec fn rule_runnable(r: Rule) -> bool {
    rule_in_bounds(r) && (r.cam is Some && r.recursion is Some ==> r.id@.len() > 0)
}

/// Rules the engine can run.
pub open spec fn index_runnable(index: RuleIndex) -> bool {
    index_in_bounds(index) && cam_recursion_ids(index)
}

/// Whether an engine can run `index` (see `Engine::new`): every rule within the bounds of
/// `rule_in_bounds`, and every `cam` rule with recursion has an id.
pub fn check_index(index: &RuleIndex) -> (b: bool)
    ensures
        b == index_runnable(*index),
{
    let mut h: usize = 0;
    while h < 256
        invariant
            h <= 256,
            forall|q: int, k: int|
                0 <= q < h && 0 <= k < index.rules_of(q).len() ==> {
                    let r = #[trigger] index.rules_of(q)[k];
                    rule_in_bounds(r) && (r.cam is Some && r.recursion is Some ==> r.id@.len() > 0)
                },
        decreases 256 - h,
    {
        let rules = index.rules(h as u8);
        let mut k: usize = 0;
        while k < rules.len()
            invariant
                h < 256,
                rules@ == index.rules_of(h as int),
                k <= rules@.len(),
                forall|q: int, j: int|
                    0 <= q < h && 0 <= j < index.rules_of(q).len() ==> {
                        let r = #[trigger] index.rules_of(q)[j];
                        rule_in_bounds(r) && (r.cam is Some && r.recursion is Some ==> r.id@.len() > 0)
                    },
                forall|j: int|
                    0 <= j < k ==> {
                        let r = #[trigger] index.rules_of(h as int)[j];
                        rule_in_bounds(r) && (r.cam is Some && r.recursion is Some ==> r.id@.len() > 0)
                    },
            decreases rules@.len() - k,
        {
            let r = &rules[k];
            if !check_rule_bounds(r) {
                assert(!rule_in_bounds(index.rules_of(h as int)[k as int]));
                return false;
            }
            if r.cam.is_some() && r.recursion.is_some() && r.id.len() == 0 {
                assert(!cam_recursion_ids(*index) || !index_in_bounds(*index)) by {
                    let rr = index.rules_of(h as int)[k as int];
                    assert(rr.cam is Some && rr.recursion is Some && rr.id@.len() == 0);
                }
                return false;
            }
            k += 1;
        }
        h += 1;
    }
    true
}

/// The log as a sequence.
pub open spec fn log_view<T>(l: Option<Vec<T>>) -> Option<Seq<T>> {
    match l {
        Some(v) => Some(v@),
        None => None,
    }
}

/// `l` with `e` appended when logging is on.
pub open spec fn logged<T>(l: Option<Seq<T>>, e: T) -> Option<Seq<T>> {
    match l {
        Some(s) => Some(s.push(e)),
        None => None,
    }
}

/// Position of the first rule of `rules` from `k` on with id `id`, or `rules.len()`.
pub open spec fn first_with_id(rules: Seq<Rule>, id: Seq<CellType>, k: int) -> int
    decreases rules.len() - k,
{
    if k < 0 || k >= rules.len() {
        rules.len() as int
    } else if rules[k].id@ == id {
        k
    } else {
        first_with_id(rules, id, k + 1)
    }
}

/// The first rule with id `id` among the rules of the head `id[0]`.
pub open spec fn spec_find_rule(index: RuleIndex, id: Seq<CellType>) -> Option<Rule> {
    if id.len() == 0 {
        None
    } else {
        let rs = index.rules_of(id[0].0 as int);
        let k = first_with_id(rs, id, 0);
        if k < rs.len() {
            Some(rs[k])
        } else {
            None
        }
    }
}

proof fn lemma_first_with_id_at(rules: Seq<Rule>, id: Seq<CellType>, from: int, k: int)
    requires
        0 <= from <= k <= rules.len(),
        forall|j: int| from <= j < k ==> (#[trigger] rules[j]).id@ != id,
        k == rules.len() || rules[k].id@ == id,
    ensures
        first_with_id(rules, id, from) == k,
    decreases k - from,
{
    if from < k {
        lemma_first_with_id_at(rules, id, from + 1, k);
    }
}

/// Element-wise equality of two ids.
fn ids_equal(a: &Vec<CellType>, b: &[CellType]) -> (r: bool)
    ensures
        r == (a@ == b@),
{
    if a.len() != b.len() {
        return false;
    }
    let mut k: usize = 0;
    while k < a.len()
        invariant
            a@.len() == b@.len(),
            k <= a@.len(),
            forall|j: int| 0 <= j < k ==> a@[j] == b@[j],
        decreases a@.len() - k,
    {
        if a[k].0 != b[k].0 {
            return false;
        }
        k += 1;
    }
    assert(a@ =~= b@);
    true
}

/// Index of the first buffer of `bs` from `k` on whose direction is `input`, or `bs.len()`.
pub open spec fn first_input(bs: Seq<((usize, usize), BoundaryBuffer)>, k: int) -> int
    decreases bs.len() - k,
{
    if k < 0 || k >= bs.len() {
        bs.len() as int
    } else if bs[k].1.direction@ == "input"@ {
        k
    } else {
        first_input(bs, k + 1)
    }
}

/// The buffers after `cell` is enqueued on `channel` of the first input buffer (unchanged
/// when there is none).
pub open spec fn input_pushed(
    nbs: Seq<((usize, usize), BoundaryBuffer)>,
    obs: Seq<((usize, usize), BoundaryBuffer)>,
    channel: u32,
    cell: Cell,
) -> bool {
    let k = first_input(obs, 0);
    if k < obs.len() {
        &&& nbs.len() == obs.len()
        &&& forall|j: int| 0 <= j < obs.len() && j != k ==> #[trigger] nbs[j] == obs[j]
        &&& nbs[k].0 == obs[k].0
        &&& enqueued(nbs[k].1, obs[k].1, channel, cell)
    } else {
        nbs == obs
    }
}

/// Buffer `b` is emptied by a drain of every buffer (`only_output` false) or of the output
/// buffers.
pub open spec fn drains(b: BoundaryBuffer, only_output: bool) -> bool {
    !only_output || b.direction@ == "output"@
}

/// What draining the buffers hands out: buffer by buffer, the cells queued, each with the x
/// of its buffer.
pub open spec fn drained_cells(bs: Seq<((usize, usize), BoundaryBuffer)>, only_output: bool) -> Seq<(u32, Cell)>
    decreases bs.len(),
{
    if bs.len() == 0 {
        Seq::empty()
    } else {
        let e = bs.last();
        drained_cells(bs.drop_last(), only_output) + if drains(e.1, only_output) {
            queued_cells(queues_view(e.1)).map_values(|c: Cell| (e.0.0 as u32, c))
        } else {
            Seq::empty()
        }
    }
}

/// `nbs` is `obs` with the buffers that `drains` emptied.
pub open spec fn buffers_drained(
    nbs: Seq<((usize, usize), BoundaryBuffer)>,
    obs: Seq<((usize, usize), BoundaryBuffer)>,
    only_output: bool,
) -> bool {
    &&& nbs.len() == obs.len()
    &&& forall|k: int|
        0 <= k < obs.len() ==> (#[trigger] nbs[k]).0 == obs[k].0 && if drains(obs[k].1, only_output) {
            drained(nbs[k].1, obs[k].1)
        } else {
            nbs[k] == obs[k]
        }
}

/// Index of the first non-empty queue from `k` on, or the number of queues.
pub open spec fn first_nonempty(qs: Seq<(u32, Seq<Cell>)>, k: int) -> int
    decreases qs.len() - k,
{
    if k < 0 || k >= qs.len() {
        qs.len() as int
    } else if qs[k].1.len() > 0 {
        k
    } else {
        first_nonempty(qs, k + 1)
    }
}

/// The cell an input buffer hands to its grid cell: the oldest of its first non-empty queue.
pub open spec fn input_front(b: BoundaryBuffer) -> Option<Cell> {
    let qs = queues_view(b);
    let q = first_nonempty(qs, 0);
    if b.direction@ == "input"@ && q < qs.len() {
        Some(qs[q].1[0])
    } else {
        None
    }
}

/// The cell the last input buffer of `bs` at `(a, b)` with something queued hands over.
pub open spec fn last_input_at(bs: Seq<((usize, usize), BoundaryBuffer)>, a: int, b: int) -> Option<Cell>
    decreases bs.len(),
{
    if bs.len() == 0 {
        None
    } else {
        let e = bs.last();
        if e.0.0 == a && e.0.1 == b && input_front(e.1) is Some {
            input_front(e.1)
        } else {
            last_input_at(bs.drop_last(), a, b)
        }
    }
}

/// `nbs` is `obs` with the cell each input buffer handed over taken from its queue.
pub open spec fn inputs_taken(nbs: Seq<((usize, usize), BoundaryBuffer)>, obs: Seq<((usize, usize), BoundaryBuffer)>) -> bool {
    &&& nbs.len() == obs.len()
    &&& forall|k: int|
        0 <= k < obs.len() ==> (#[trigger] nbs[k]).0 == obs[k].0 && if input_front(obs[k].1) is Some {
            popped(nbs[k].1, obs[k].1, first_nonempty(queues_view(obs[k].1), 0))
        } else {
            nbs[k] == obs[k]
        }
}

proof fn lemma_first_input_at(bs: Seq<((usize, usize), BoundaryBuffer)>, from: int, k: int)
    requires
        0 <= from <= k <= bs.len(),
        forall|j: int| from <= j < k ==> (#[trigger] bs[j]).1.direction@ != "input"@,
        k == bs.len() || bs[k].1.direction@ == "input"@,
    ensures
        first_input(bs, from) == k,
    decreases k - from,
{
    if from < k {
        lemma_first_input_at(bs, from + 1, k);
    }
}

proof fn lemma_first_nonempty_at(qs: Seq<(u32, Seq<Cell>)>, from: int, k: int)
    requires
        0 <= from <= k <= qs.len(),
        forall|j: int| from <= j < k ==> (#[trigger] qs[j]).1.len() == 0,
        k == qs.len() || qs[k].1.len() > 0,
    ensures
        first_nonempty(qs, from) == k,
    decreases k - from,
{
    if from < k {
        lemma_first_nonempty_at(qs, from + 1, k);
    }
}

/// The log entry of a tick on grid `g0` with state `st0` that accepted `acc`.
pub open spec fn tick_entry(g0: Grid, index: RuleIndex, st0: TickState, acc: Seq<RuleMatch>) -> TickLogEntry {
    let cands = tick_state_candidates(g0, index, st0.memory@, st0.activations@);
    TickLogEntry {
        tick: g0.spec_generation(),
        accepted: acc.len() as usize,
        rejected: (cands.len() - acc.len()) as usize,
        starvation_events: keys_where(index, cands, false).len() as usize,
        feedback_events: keys_where(index, cands, true).len() as usize,
    }
}

/// `e1` is `e0` after one tick that accepted `acc` and output `outs`: grid and state as
/// `run_tick_with_state` leaves them, rules and input log unchanged, the tick logged when
/// logging is on.
pub open spec fn engine_ticked(e0: Engine, e1: Engine, acc: Seq<RuleMatch>, outs: Seq<(u32, Cell)>) -> bool {
    &&& e1.wf()
    &&& e1.spec_rules() == e0.spec_rules()
    &&& e1.spec_cache() == e0.spec_cache()
    &&& e1.spec_input_log() == e0.spec_input_log()
    &&& tick_ran(e0.spec_grid(), e0.spec_rules(), e0.spec_state(), e1.spec_grid(), e1.spec_state(), acc, outs)
    &&& e1.spec_tick_log() == logged(e0.spec_tick_log(), tick_entry(e0.spec_grid(), e0.spec_rules(), e0.spec_state(), acc))
}

/// The events of `log` recorded at generation `t`, in order.
pub open spec fn events_at(log: Seq<InputEvent>, t: u64) -> Seq<InputEvent>
    decreases log.len(),
{
    if log.len() == 0 {
        Seq::empty()
    } else {
        let p = events_at(log.drop_last(), t);
        if log.last().tick == t {
            p.push(log.last())
        } else {
            p
        }
    }
}

/// `e1` is `e0` after `push_input` of event `ev` (with recording off).
pub open spec fn input_step(e1: Engine, e0: Engine, ev: InputEvent) -> bool {
    &&& input_pushed(
        e1.spec_grid().spec_boundaries(),
        e0.spec_grid().spec_boundaries(),
        ev.channel,
        Cell::spec_new(ev.value),
    )
    &&& same_cells(e1.spec_grid(), e0.spec_grid())
    &&& e1.same_rules_state(e0)
    &&& e1.spec_input_log() == e0.spec_input_log()
    &&& e1.spec_tick_log() == e0.spec_tick_log()
}

/// Push `j` of a sequence of pushes took `ps[j]` to `ps[j + 1]` with event `evs[j]`.
pub open spec fn push_step(ps: Seq<Engine>, evs: Seq<InputEvent>, j: int) -> bool {
    input_step(ps[j + 1], ps[j], evs[j])
}

/// `ps[0]` is followed by one push of each event of `evs`, in order.
pub open spec fn pushes(ps: Seq<Engine>, evs: Seq<InputEvent>) -> bool {
    &&& ps.len() == evs.len() + 1
    &&& forall|j: int| 0 <= j < evs.len() ==> #[trigger] push_step(ps, evs, j)
}

/// `e1` is `e0` after `apply_input`.
pub open spec fn inputs_applied(e1: Engine, e0: Engine) -> bool {
    &&& inputs_taken(e1.spec_grid().spec_boundaries(), e0.spec_grid().spec_boundaries())
    &&& e1.spec_grid().spec_width() == e0.spec_grid().spec_width()
    &&& e1.spec_grid().spec_height() == e0.spec_grid().spec_height()
    &&& e1.spec_grid().spec_generation() == e0.spec_grid().spec_generation()
    &&& forall|a: int, b: int| #[trigger] e1.spec_grid().spec_in_grid(a, b) == e0.spec_grid().spec_in_grid(a, b)
    &&& forall|a: int, b: int|
        #[trigger] e1.spec_grid().spec_cell(a, b) == if e0.spec_grid().spec_in_grid(a, b) && last_input_at(
            e0.spec_grid().spec_boundaries(),
            a,
            b,
        ) is Some {
            Cell {
                value: last_input_at(e0.spec_grid().spec_boundaries(), a, b)->0.value,
                born_at: e0.spec_grid().spec_generation(),
            }
        } else {
            e0.spec_grid().spec_cell(a, b)
        }
    &&& e1.same_rules_state(e0)
    &&& e1.spec_input_log() == e0.spec_input_log()
    &&& e1.spec_tick_log() == e0.spec_tick_log()
}

/// Round `i` of a replay: from `es[i]`, the events of `log` recorded at its generation are
/// pushed in order (`pss[i]`), the input buffers applied (`appl[i]`), and one tick taken to
/// `es[i + 1]`, accepting `accs[i]` and outputting `outs[i]`.
pub open spec fn replay_round(
    es: Seq<Engine>,
    accs: Seq<Seq<RuleMatch>>,
    outs: Seq<Seq<(u32, Cell)>>,
    pss: Seq<Seq<Engine>>,
    appl: Seq<Engine>,
    log: Seq<InputEvent>,
    i: int,
) -> bool {
    &&& pss[i].len() > 0
    &&& pss[i][0] == es[i]
    &&& pushes(pss[i], events_at(log, es[i].spec_grid().spec_generation()))
    &&& inputs_applied(appl[i], pss[i].last())
    &&& engine_ticked(appl[i], es[i + 1], accs[i], outs[i])
}

/// `es[0]` is followed by `accs.len()` rounds of replay of `log` (see `replay_round`).
pub open spec fn replay_chain(
    es: Seq<Engine>,
    accs: Seq<Seq<RuleMatch>>,
    outs: Seq<Seq<(u32, Cell)>>,
    pss: Seq<Seq<Engine>>,
    appl: Seq<Engine>,
    log: Seq<InputEvent>,
) -> bool {
    &&& es.len() == accs.len() + 1
    &&& outs.len() == accs.len()
    &&& pss.len() == accs.len()
    &&& appl.len() == accs.len()
    &&& forall|i: int| 0 <= i < accs.len() ==> #[trigger] replay_round(es, accs, outs, pss, appl, log, i)
}

proof fn lemma_replay_push(
    es: Seq<Engine>,
    accs: Seq<Seq<RuleMatch>>,
    outs: Seq<Seq<(u32, Cell)>>,
    pss: Seq<Seq<Engine>>,
    appl: Seq<Engine>,
    log: Seq<InputEvent>,
    e: Engine,
    acc: Seq<RuleMatch>,
    out: Seq<(u32, Cell)>,
    ps: Seq<Engine>,
    ap: Engine,
)
    requires
        replay_chain(es, accs, outs, pss, appl, log),
        ps.len() > 0,
        ps[0] == es.last(),
        pushes(ps, events_at(log, es.last().spec_grid().spec_generation())),
        inputs_applied(ap, ps.last()),
        engine_ticked(ap, e, acc, out),
    ensures
        replay_chain(es.push(e), accs.push(acc), outs.push(out), pss.push(ps), appl.push(ap), log),
{
    let es1 = es.push(e);
    let accs1 = accs.push(acc);
    let outs1 = outs.push(out);
    let pss1 = pss.push(ps);
    let appl1 = appl.push(ap);
    assert forall|i: int| 0 <= i < accs1.len() implies #[trigger] replay_round(es1, accs1, outs1, pss1, appl1, log, i) by {
        if i < accs.len() {
            assert(replay_round(es, accs, outs, pss, appl, log, i));
            assert(es1[i] == es[i] && es1[i + 1] == es[i + 1] && accs1[i] == accs[i] && outs1[i] == outs[i]
                && pss1[i] == pss[i] && appl1[i] == appl[i]);
        } else {
            assert(es1[i] == es.last() && es1[i + 1] == e && accs1[i] == acc && outs1[i] == out && pss1[i] == ps
                && appl1[i] == ap);
        }
    }
}

proof fn lemma_pushes_push(ps: Seq<Engine>, evs: Seq<InputEvent>, e: Engine, ev: InputEvent)
    requires
        pushes(ps, evs),
        input_step(e, ps.last(), ev),
    ensures
        pushes(ps.push(e), evs.push(ev)),
{
    let ps1 = ps.push(e);
    let evs1 = evs.push(ev);
    assert forall|j: int| 0 <= j < evs1.len() implies #[trigger] push_step(ps1, evs1, j) by {
        if j < evs.len() {
            assert(push_step(ps, evs, j));
            assert(ps1[j] == ps[j] && ps1[j + 1] == ps[j + 1] && evs1[j] == evs[j]);
        } else {
            assert(ps1[j] == ps.last() && ps1[j + 1] == e && evs1[j] == ev);
        }
    }
}

/// At most this many ticks in a row may accept matches before `compose_with` gives up.
pub const COMPOSE_TICK_LIMIT: u32 = 1000;

/// Tick `i` of a chain took `es[i]` to `es[i + 1]`, accepting `accs[i]` and outputting
/// `outs[i]`.
pub open spec fn chain_step(es: Seq<Engine>, accs: Seq<Seq<RuleMatch>>, outs: Seq<Seq<(u32, Cell)>>, i: int) -> bool {
    engine_ticked(es[i], es[i + 1], accs[i], outs[i])
}

/// `es[0]` is followed by `accs.len()` ticks, tick `i` taking `es[i]` to `es[i + 1]`,
/// accepting `accs[i]` and outputting `outs[i]`.
pub open spec fn tick_chain(es: Seq<Engine>, accs: Seq<Seq<RuleMatch>>, outs: Seq<Seq<(u32, Cell)>>) -> bool {
    &&& es.len() == accs.len() + 1
    &&& outs.len() == accs.len()
    &&& forall|i: int| 0 <= i < accs.len() ==> #[trigger] chain_step(es, accs, outs, i)
}

proof fn lemma_chain_push(
    es: Seq<Engine>,
    accs: Seq<Seq<RuleMatch>>,
    outs: Seq<Seq<(u32, Cell)>>,
    e: Engine,
    acc: Seq<RuleMatch>,
    out: Seq<(u32, Cell)>,
)
    requires
        tick_chain(es, accs, outs),
        engine_ticked(es.last(), e, acc, out),
    ensures
        tick_chain(es.push(e), accs.push(acc), outs.push(out)),
{
    let es1 = es.push(e);
    let accs1 = accs.push(acc);
    let outs1 = outs.push(out);
    assert forall|i: int| 0 <= i < accs1.len() implies #[trigger] chain_step(es1, accs1, outs1, i) by {
        if i < accs.len() {
            assert(chain_step(es, accs, outs, i));
            assert(es1[i] == es[i] && es1[i + 1] == es[i + 1] && accs1[i] == accs[i] && outs1[i] == outs[i]);
        } else {
            assert(es1[i] == es.last() && es1[i + 1] == e && accs1[i] == acc && outs1[i] == out);
        }
    }
}

/// Non-default cells of row `y` among its first `n` columns.
pub open spec fn row_active(g: Grid, y: int, n: int) -> nat
    decreases n,
{
    if n <= 0 {
        0
    } else {
        row_active(g, y, n - 1) + if g.spec_cell(n - 1, y).spec_is_default() {
            0nat
        } else {
            1nat
        }
    }
}

/// Non-default cells of the first `m` rows.
pub open spec fn rows_active(g: Grid, m: int) -> nat
    decreases m,
{
    if m <= 0 {
        0
    } else {
        rows_active(g, m - 1) + row_active(g, m - 1, g.spec_width() as int)
    }
}

/// Non-default cells of the grid.
pub open spec fn active_cells(g: Grid) -> nat {
    rows_active(g, g.spec_height() as int)
}

/// The verdict on a run that started with `initial` non-default cells and settled with
/// `fin`: more than twice as many, less than half as many (of a non-empty start), or
/// `Bounded` with the count.
pub open spec fn settled_verdict(v: CompositionVerdict, initial: nat, fin: nat) -> bool {
    if fin > initial * 2 {
        v == CompositionVerdict::Divergent
    } else if fin < initial / 2 && initial > 0 {
        v == CompositionVerdict::Shrinking
    } else {
        v == CompositionVerdict::Bounded(fin as usize)
    }
}

proof fn lemma_row_active_bound(g: Grid, y: int, n: int)
    ensures
        row_active(g, y, n) <= if n > 0 {
            n
        } else {
            0
        },
    decreases n,
{
    if n > 0 {
        lemma_row_active_bound(g, y, n - 1);
    }
}

proof fn lemma_rows_active_bound(g: Grid, m: int)
    requires
        m <= coord_limit(),
        g.spec_width() <= coord_limit(),
    ensures
        rows_active(g, m) <= if m > 0 {
            m * g.spec_width()
        } else {
            0
        },
    decreases m,
{
    if m > 0 {
        lemma_rows_active_bound(g, m - 1);
        lemma_row_active_bound(g, m - 1, g.spec_width() as int);
        assert((m - 1) * g.spec_width() + g.spec_width() == m * g.spec_width()) by (nonlinear_arith);
    }
}

/// The number of non-default cells of the grid.
fn count_active(grid: &Grid) -> (n: u64)
    requires
        grid_small(*grid),
    ensures
        n == active_cells(*grid),
        n <= coord_limit() * coord_limit(),
{
    let w = grid.width();
    let h = grid.height();
    let mut total: u64 = 0;
    let mut y: usize = 0;
    while y < h
        invariant
            w == grid.spec_width(),
            h == grid.spec_height(),
            grid_small(*grid),
            y <= h,
            total == rows_active(*grid, y as int),
        decreases h - y,
    {
        proof {
            lemma_rows_active_bound(*grid, y as int);
            assert(y * w <= coord_limit() * coord_limit()) by (nonlinear_arith)
                requires
                    y <= coord_limit(),
                    w <= coord_limit(),
            ;
        }
        let mut row: u64 = 0;
        let mut x: usize = 0;
        while x < w
            invariant
                w == grid.spec_width(),
                x <= w,
                w <= coord_limit(),
                row == row_active(*grid, y as int, x as int),
            decreases w - x,
        {
            proof {
                lemma_row_active_bound(*grid, y as int, x as int);
            }
            match grid.get_cell(x, y) {
                Some(c) => {
                    if !c.is_default() {
                        row = row + 1;
                    }
                },
                None => {},
            }
            x += 1;
        }
        proof {
            lemma_row_active_bound(*grid, y as int, w as int);
            lemma_rows_active_bound(*grid, y as int);
            assert(y * w + w <= coord_limit() * coord_limit() + coord_limit()) by (nonlinear_arith)
                requires
                    y < coord_limit(),
                    w <= coord_limit(),
            ;
        }
        total = total + row;
        y += 1;
    }
    proof {
        lemma_rows_active_bound(*grid, h as int);
        assert(h * w <= coord_limit() * coord_limit()) by (nonlinear_arith)
            requires
                h <= coord_limit(),
                w <= coord_limit(),
        ;
    }
    total
}

/// Every rule of the index, head by head, each head's rules in order.
pub open spec fn index_rules(index: RuleIndex, h: int) -> Seq<Rule>
    decreases h,
{
    if h <= 0 {
        Seq::empty()
    } else {
        index_rules(index, h - 1) + index.rules_of(h - 1)
    }
}

/// Two grids with the same sides, generation and cells.
pub open spec fn same_cells(a: Grid, b: Grid) -> bool {
    &&& a.spec_width() == b.spec_width()
    &&& a.spec_height() == b.spec_height()
    &&& a.spec_generation() == b.spec_generation()
    &&& forall|x: int, y: int| #[trigger] a.spec_in_grid(x, y) == b.spec_in_grid(x, y)
    &&& forall|x: int, y: int| #[trigger] a.spec_cell(x, y) == b.spec_cell(x, y)
}

impl Engine {
    /// The grid.
    pub closed spec fn spec_grid(self) -> Grid {
        self.grid
    }

    /// The precomputed data of the rules.
    pub closed spec fn spec_cache(self) -> RuleDataCache {
        self.rule_cache
    }

    /// The rules by head.
    pub closed spec fn spec_rules(self) -> RuleIndex {
        self.rule_index
    }

    /// The state rules keep between ticks.
    pub closed spec fn spec_state(self) -> TickState {
        self.state
    }

    /// The inputs pushed while recording is on.
    pub closed spec fn spec_input_log(self) -> Option<Seq<InputEvent>> {
        log_view(self.input_log)
    }

    /// The ticks run while logging is on.
    pub closed spec fn spec_tick_log(self) -> Option<Seq<TickLogEntry>> {
        log_view(self.tick_log)
    }

    /// The engine can run: the grid within the coordinate limit, runnable rules, and the
    /// cache holding their data.
    pub closed spec fn wf(self) -> bool {
        &&& grid_small(self.grid)
        &&& index_runnable(self.spec_rules())
        &&& self.rule_cache.caches(self.spec_rules())
    }

    /// Everything but the grid and the logs is as in `other`.
    pub closed spec fn same_rules_state(self, other: Engine) -> bool {
        &&& self.spec_rules() == other.spec_rules()
        &&& self.rule_cache == other.rule_cache
        &&& self.spec_state() == other.spec_state()
    }

    /// An engine running `rule_index` on `grid`, with no state kept yet and no log.
    pub fn new(grid: Grid, rule_index: RuleIndex) -> (e: Engine)
        requires
            grid_small(grid),
            index_runnable(rule_index),
        ensures
            e.wf(),
            e.spec_grid() == grid,
            e.spec_rules() == rule_index,
            e.spec_state().starvation@ == Map::<(u32, u32, usize), u32>::empty(),
            e.spec_state().feedback@ == Map::<(u32, u32, usize), u64>::empty(),
            e.spec_state().memory@.len() == 0,
            e.spec_state().activations@ == Map::<(u8, usize), u32>::empty(),
            e.spec_input_log() is None,
            e.spec_tick_log() is None,
    {
        let rule_cache = build_rule_data_cache(&rule_index);
        Engine { grid, rule_index, rule_cache, state: TickState::new(), input_log: None, tick_log: None }
    }

    /// The grid.
    pub fn grid(&self) -> (g: &Grid)
        ensures
            *g == self.spec_grid(),
    {
        &self.grid
    }

    /// The grid, to change it.
    pub fn grid_mut(&mut self) -> (g: &mut Grid)
        ensures
            *g == old(self).spec_grid(),
            final(self).spec_grid() == *final(g),
            final(self).same_rules_state(*old(self)),
            final(self).spec_input_log() == old(self).spec_input_log(),
            final(self).spec_tick_log() == old(self).spec_tick_log(),
    {
        &mut self.grid
    }

    /// The rules by head.
    pub fn rule_index(&self) -> (r: &RuleIndex)
        ensures
            *r == self.spec_rules(),
    {
        &self.rule_index
    }

    // -----------------------------------------------------------------------
    // Rules
    // -----------------------------------------------------------------------

    /// The first rule with id `rule_id` among the rules of the head `rule_id[0]`.
    pub fn find_rule(&self, rule_id: &[CellType]) -> (r: Option<&Rule>)
        ensures
            match r {
                Some(rule) => spec_find_rule(self.spec_rules(), rule_id@) == Some(*rule),
                None => spec_find_rule(self.spec_rules(), rule_id@) is None,
            },
    {
        if rule_id.len() == 0 {
            return None;
        }
        let rules = self.rule_index.rules(rule_id[0].0);
        let mut k: usize = 0;
        while k < rules.len()
            invariant
                rule_id@.len() > 0,
                rules@ == self.spec_rules().rules_of(rule_id@[0].0 as int),
                k <= rules@.len(),
                forall|j: int| 0 <= j < k ==> (#[trigger] rules@[j]).id@ != rule_id@,
            decreases rules@.len() - k,
        {
            if ids_equal(&rules[k].id, rule_id) {
                proof {
                    lemma_first_with_id_at(rules@, rule_id@, 0, k as int);
                }
                return Some(&rules[k]);
            }
            k += 1;
        }
        proof {
            lemma_first_with_id_at(rules@, rule_id@, 0, k as int);
        }
        None
    }

    /// The priority of the rule `find_rule` finds, 0 when there is none.
    pub fn get_priority(&self, rule_id: &[CellType]) -> (p: u32)
        ensures
            p == match spec_find_rule(self.spec_rules(), rule_id@) {
                Some(r) => r.priority,
                None => 0,
            },
    {
        match self.find_rule(rule_id) {
            Some(r) => r.priority,
            None => 0,
        }
    }

    /// Recompute the data of the rules.
    pub fn rebuild_rule_cache(&mut self)
        requires
            index_runnable(old(self).spec_rules()),
        ensures
            final(self).spec_cache().caches(final(self).spec_rules()),
            final(self).spec_rules() == old(self).spec_rules(),
            final(self).spec_grid() == old(self).spec_grid(),
            final(self).spec_state() == old(self).spec_state(),
            final(self).spec_input_log() == old(self).spec_input_log(),
            final(self).spec_tick_log() == old(self).spec_tick_log(),
    {
        self.rule_cache = build_rule_data_cache(&self.rule_index);
    }

    /// Replace every rule. The state kept for rule slots that changed is dropped (see
    /// `TickState::invalidate_stale`).
    pub fn set_rule_index(&mut self, new_rule_index: RuleIndex)
        requires
            index_runnable(new_rule_index),
            grid_small(old(self).spec_grid()),
        ensures
            final(self).wf(),
            final(self).spec_rules() == new_rule_index,
            final(self).spec_grid() == old(self).spec_grid(),
            state_invalidated(
                final(self).spec_state(),
                old(self).spec_state(),
                old(self).spec_grid(),
                old(self).spec_rules(),
                new_rule_index,
            ),
            final(self).spec_input_log() == old(self).spec_input_log(),
            final(self).spec_tick_log() == old(self).spec_tick_log(),
    {
        let mut replaced = new_rule_index;
        std::mem::swap(&mut self.rule_index, &mut replaced);
        self.state.invalidate_stale(&replaced, &self.rule_index, &self.grid);
        self.rebuild_rule_cache();
    }

    /// Replace the rules of `head`. The state kept for its rule slots that changed is dropped.
    pub fn set_rules_for_head(&mut self, head: CellType, rules: Vec<Rule>)
        requires
            old(self).wf(),
            forall|k: int| 0 <= k < rules@.len() ==> rule_runnable(#[trigger] rules@[k]),
        ensures
            final(self).wf(),
            final(self).spec_rules().rules_of(head.0 as int) == rules@,
            forall|h: int| h != head.0 ==> #[trigger] final(self).spec_rules().rules_of(h) == old(self).spec_rules().rules_of(h),
            final(self).spec_grid() == old(self).spec_grid(),
            state_invalidated(
                final(self).spec_state(),
                old(self).spec_state(),
                old(self).spec_grid(),
                old(self).spec_rules(),
                final(self).spec_rules(),
            ),
            final(self).spec_input_log() == old(self).spec_input_log(),
            final(self).spec_tick_log() == old(self).spec_tick_log(),
    {
        let prev = self.rule_index.replace_rules(head, rules);
        self.state.invalidate_head(head.0, prev.as_slice(), self.rule_index.rules(head.0), &self.grid);
        proof {
            let idx = self.rule_index;
            let oi = old(self).spec_rules();
            assert forall|h: int, k: int|
                0 <= h < 256 && 0 <= k < idx.rules_of(h).len() implies rule_in_bounds(#[trigger] idx.rules_of(h)[k]) && (
            idx.rules_of(h)[k].cam is Some && idx.rules_of(h)[k].recursion is Some ==> idx.rules_of(h)[k].id@.len() > 0) by {
                if h == head.0 {
                    assert(rule_runnable(rules@[k]));
                } else {
                    assert(idx.rules_of(h) == oi.rules_of(h));
                }
            }
            assert forall|k: (u32, u32, usize)| #[trigger] stale_state_key(self.grid, oi, idx, k) == head_slot_stale(
                self.grid,
                head.0,
                prev@,
                idx.rules_of(head.0 as int),
                k,
            ) by {
                let c = self.grid.spec_cell(k.0 as int, k.1 as int).value.0.0 as int;
                if c != head.0 {
                    assert(idx.rules_of(c) == oi.rules_of(c));
                }
            }
            assert forall|k: (u8, usize)| #[trigger] rule_changed(oi, idx, k.0 as int, k.1 as int) == (k.0 == head.0
                && slot_changed(prev@, idx.rules_of(head.0 as int), k.1 as int)) by {
                if k.0 != head.0 {
                    assert(idx.rules_of(k.0 as int) == oi.rules_of(k.0 as int));
                }
            }
            assert(self.state.starvation@ =~= without_keys(
                old(self).spec_state().starvation@,
                |k: (u32, u32, usize)| stale_state_key(self.grid, oi, idx, k),
            ));
            assert(self.state.feedback@ =~= without_keys(
                old(self).spec_state().feedback@,
                |k: (u32, u32, usize)| stale_state_key(self.grid, oi, idx, k),
            ));
            assert(self.state.memory@ =~= without_keys(
                old(self).spec_state().memory@,
                |k: (u32, u32, usize)| stale_state_key(self.grid, oi, idx, k),
            ));
            assert(self.state.activations@ =~= without_keys(
                old(self).spec_state().activations@,
                |k: (u8, usize)| rule_changed(oi, idx, k.0 as int, k.1 as int),
            ));
        }
        self.rebuild_rule_cache();
    }

    /// The conflict graph of every rule, the rules taken head by head (see
    /// `ConflictGraph::build`).
    pub fn analyze_conflicts(&self) -> (g: ConflictGraph)
        requires
            index_in_bounds(self.spec_rules()),
        ensures
            exists|flat: Seq<Rule>|
                #[trigger] same_rules(flat, index_rules(self.spec_rules(), 256)) && g.rule_count == flat.len()
                    && g.edges@ == spec_conflict_edges(flat, None),
    {
        let mut flat: Vec<Rule> = Vec::new();
        let mut h: usize = 0;
        while h < 256
            invariant
                index_in_bounds(self.spec_rules()),
                h <= 256,
                same_rules(flat@, index_rules(self.spec_rules(), h as int)),
                rules_in_bounds(flat@),
            decreases 256 - h,
        {
            let rules = self.rule_index.rules(h as u8);
            let ghost before = flat@;
            let mut k: usize = 0;
            while k < rules.len()
                invariant
                    index_in_bounds(self.spec_rules()),
                    h < 256,
                    rules@ == self.spec_rules().rules_of(h as int),
                    k <= rules@.len(),
                    same_rules(flat@, index_rules(self.spec_rules(), h as int) + rules@.take(k as int)),
                    rules_in_bounds(flat@),
                decreases rules@.len() - k,
            {
                let c = copy_rule(&rules[k]);
                proof {
                    assert(rule_in_bounds(self.spec_rules().rules_of(h as int)[k as int]));
                    lemma_same_rule_bounds(c, rules@[k as int]);
                }
                let ghost f0 = flat@;
                flat.push(c);
                proof {
                    let target = index_rules(self.spec_rules(), h as int) + rules@.take(k + 1);
                    assert(target =~= (index_rules(self.spec_rules(), h as int) + rules@.take(k as int)).push(rules@[k as int]));
                    assert forall|i: int| 0 <= i < flat@.len() implies same_rule(#[trigger] flat@[i], target[i]) by {
                        if i < f0.len() {
                            assert(flat@[i] == f0[i]);
                        }
                    }
                }
                k += 1;
            }
            proof {
                assert(rules@.take(k as int) =~= rules@);
            }
            h += 1;
        }
        crate::conflict_analyzer::ConflictGraph::build(flat.as_slice())
    }

    // -----------------------------------------------------------------------
    // The phases of a tick, one at a time, keeping no state
    // -----------------------------------------------------------------------

    /// The matches of every cell, row by row (no `cam` matches).
    pub fn detect_matches(&self) -> (r: Vec<RuleMatch>)
        requires
            grid_small(self.spec_grid()),
        ensures
            r@ == coords_matches(
                self.spec_grid(),
                self.spec_rules(),
                all_coords(self.spec_grid().spec_width() as int, self.spec_grid().spec_height() as int),
            ),
    {
        let coords = grid_coords(self.grid.width(), self.grid.height());
        crate::matcher::detect_matches(&self.grid, &self.rule_index, &coords)
    }

    /// Arbitration of `all_matches` with no starvation counters and generation 0.
    pub fn arbitrate(&self, all_matches: Vec<RuleMatch>) -> (r: Vec<RuleMatch>)
        requires
            self.wf(),
            forall|i: int|
                0 <= i < all_matches@.len() ==> (#[trigger] all_matches@[i]).x <= coord_limit() && all_matches@[i].y
                    <= coord_limit(),
        ensures
            arbitration_result(
                r@,
                all_matches@,
                keys_of(self.spec_grid(), self.spec_rules(), Map::empty(), 0, all_matches@),
                cells_of(
                    self.spec_rules(),
                    self.spec_cache(),
                    Map::empty(),
                    Map::empty(),
                    self.spec_grid().spec_width() as int,
                    self.spec_grid().spec_height() as int,
                    all_matches@,
                ),
            ),
    {
        crate::arbitrator::arbitrate(all_matches, &self.rule_index, &self.rule_cache, &self.grid)
    }

    /// Apply `matches` to the grid with no feedback counters or memory buffers.
    pub fn apply_matches(&mut self, matches: Vec<RuleMatch>) -> (r: (Vec<AffectedRegion>, Vec<(u32, Cell)>))
        requires
            old(self).wf(),
            matches_applicable(matches@, old(self).spec_rules(), Map::empty()),
        ensures
            final(self).wf(),
            final(self).same_rules_state(*old(self)),
            final(self).spec_input_log() == old(self).spec_input_log(),
            final(self).spec_tick_log() == old(self).spec_tick_log(),
            ({
                let g0 = old(self).spec_grid();
                let e = matches_effect(
                    g0,
                    matches@,
                    old(self).spec_rules(),
                    Map::empty(),
                    g0.spec_generation(),
                    Map::empty(),
                    Map::empty(),
                    Map::empty(),
                );
                &&& grid_applied(final(self).spec_grid(), g0, e.0, e.2, g0.spec_generation())
                &&& r.0@.len() == e.1.len()
                &&& forall|i: int| 0 <= i < e.1.len() ==> region_matches(#[trigger] r.0@[i], e.1[i])
                &&& r.1@ == e.2.map_values(|o: (usize, usize, Cell)| (o.0 as u32, o.2))
            }),
    {
        crate::apply::apply_matches(&mut self.grid, matches, &self.rule_index, &self.rule_cache)
    }

    // -----------------------------------------------------------------------
    // Ages
    // -----------------------------------------------------------------------

    /// One generation passes.
    pub fn advance_age(&mut self)
        requires
            old(self).spec_grid().spec_generation() < u64::MAX,
        ensures
            final(self).spec_grid().spec_generation() == old(self).spec_grid().spec_generation() + 1,
            final(self).spec_grid().spec_width() == old(self).spec_grid().spec_width(),
            final(self).spec_grid().spec_height() == old(self).spec_grid().spec_height(),
            final(self).spec_grid().spec_boundaries() == old(self).spec_grid().spec_boundaries(),
            forall|a: int, b: int| #[trigger] final(self).spec_grid().spec_in_grid(a, b) == old(self).spec_grid().spec_in_grid(a, b),
            forall|a: int, b: int| #[trigger] final(self).spec_grid().spec_cell(a, b) == old(self).spec_grid().spec_cell(a, b),
            final(self).same_rules_state(*old(self)),
            final(self).spec_input_log() == old(self).spec_input_log(),
            final(self).spec_tick_log() == old(self).spec_tick_log(),
    {
        self.grid.advance_age();
    }

    /// Every cell written by `regions` is born again at the current generation.
    pub fn reset_age(&mut self, regions: &Vec<AffectedRegion>)
        ensures
            final(self).spec_grid().spec_generation() == old(self).spec_grid().spec_generation(),
            final(self).spec_grid().spec_width() == old(self).spec_grid().spec_width(),
            final(self).spec_grid().spec_height() == old(self).spec_grid().spec_height(),
            final(self).spec_grid().spec_boundaries() == old(self).spec_grid().spec_boundaries(),
            forall|a: int, b: int| #[trigger] final(self).spec_grid().spec_in_grid(a, b) == old(self).spec_grid().spec_in_grid(a, b),
            forall|a: int, b: int|
                #[trigger] final(self).spec_grid().spec_cell(a, b) == if old(self).spec_grid().spec_in_grid(a, b) && in_regions(
                    regions@,
                    a,
                    b,
                ) {
                    Cell { value: old(self).spec_grid().spec_cell(a, b).value, born_at: old(self).spec_grid().spec_generation() }
                } else {
                    old(self).spec_grid().spec_cell(a, b)
                },
            final(self).same_rules_state(*old(self)),
            final(self).spec_input_log() == old(self).spec_input_log(),
            final(self).spec_tick_log() == old(self).spec_tick_log(),
    {
        reset_age_for_regions(&mut self.grid, regions);
    }

    /// Whether the grid is stable (see `pipeline::detect_termination`).
    pub fn detect_termination(&self, tick: u32) -> (v: TerminationVerdict)
        requires
            self.wf(),
        ensures
            (v == TerminationVerdict::Stable) == (coords_matches(
                self.spec_grid(),
                self.spec_rules(),
                all_coords(self.spec_grid().spec_width() as int, self.spec_grid().spec_height() as int),
            ).len() == 0),
    {
        crate::pipeline::detect_termination(&self.grid, &self.rule_index, tick)
    }

    // -----------------------------------------------------------------------
    // Logs
    // -----------------------------------------------------------------------

    /// Start recording the inputs pushed (a recording already on goes on).
    pub fn enable_input_recording(&mut self)
        ensures
            final(self).spec_input_log() == match old(self).spec_input_log() {
                Some(l) => Some(l),
                None => Some(Seq::<InputEvent>::empty()),
            },
            final(self).same_rules_state(*old(self)),
            final(self).spec_grid() == old(self).spec_grid(),
            final(self).spec_tick_log() == old(self).spec_tick_log(),
    {
        if self.input_log.is_none() {
            self.input_log = Some(Vec::new());
        }
    }

    /// The inputs recorded, if recording is on.
    pub fn input_log(&self) -> (r: Option<&[InputEvent]>)
        ensures
            match r {
                Some(s) => self.spec_input_log() == Some(s@),
                None => self.spec_input_log() is None,
            },
    {
        match &self.input_log {
            Some(v) => Some(v.as_slice()),
            None => None,
        }
    }

    /// Start logging ticks (a log already on goes on).
    pub fn enable_tick_logging(&mut self)
        ensures
            final(self).spec_tick_log() == match old(self).spec_tick_log() {
                Some(l) => Some(l),
                None => Some(Seq::<TickLogEntry>::empty()),
            },
            final(self).same_rules_state(*old(self)),
            final(self).spec_grid() == old(self).spec_grid(),
            final(self).spec_input_log() == old(self).spec_input_log(),
    {
        if self.tick_log.is_none() {
            self.tick_log = Some(Vec::new());
        }
    }

    /// The ticks logged, if logging is on.
    pub fn tick_log(&self) -> (r: Option<&[TickLogEntry]>)
        ensures
            match r {
                Some(s) => self.spec_tick_log() == Some(s@),
                None => self.spec_tick_log() is None,
            },
    {
        match &self.tick_log {
            Some(v) => Some(v.as_slice()),
            None => None,
        }
    }

    // -----------------------------------------------------------------------
    // Input and output through the boundary buffers
    // -----------------------------------------------------------------------

    /// Queue `value` on `channel` of the first input buffer (nothing when there is none);
    /// recorded, with the current generation, when recording is on.
    pub fn push_input(&mut self, channel: u32, value: u8)
        ensures
            final(self).spec_input_log() == logged(
                old(self).spec_input_log(),
                InputEvent { tick: old(self).spec_grid().spec_generation(), channel, value },
            ),
            input_pushed(
                final(self).spec_grid().spec_boundaries(),
                old(self).spec_grid().spec_boundaries(),
                channel,
                Cell::spec_new(value),
            ),
            same_cells(final(self).spec_grid(), old(self).spec_grid()),
            final(self).same_rules_state(*old(self)),
            final(self).spec_tick_log() == old(self).spec_tick_log(),
    {
        let gen = self.grid.generation();
        let ev = InputEvent { tick: gen, channel, value };
        let mut log = self.input_log.take();
        match &mut log {
            Some(v) => {
                v.push(ev);
            },
            None => {},
        }
        self.input_log = log;
        assert(self.spec_input_log() == logged(old(self).spec_input_log(), ev));
        let n = self.grid.boundary_count();
        let mut k: usize = 0;
        while k < n
            invariant
                n == self.grid.spec_boundaries().len(),
                k <= n,
                self.grid == old(self).grid,
                self.same_rules_state(*old(self)),
                self.spec_input_log() == logged(old(self).spec_input_log(), ev),
                self.spec_tick_log() == old(self).spec_tick_log(),
                ev == (InputEvent { tick: old(self).spec_grid().spec_generation(), channel, value }),
                forall|j: int| 0 <= j < k ==> (#[trigger] self.grid.spec_boundaries()[j]).1.direction@ != "input"@,
            decreases n - k,
        {
            let is_input = str_eq(self.grid.boundary_entry(k).1.direction.as_str(), "input");
            if is_input {
                proof {
                    lemma_first_input_at(self.grid.spec_boundaries(), 0, k as int);
                }
                self.grid.enqueue_at(k, channel, Cell::new(value));
                return;
            }
            k += 1;
        }
        proof {
            lemma_first_input_at(self.grid.spec_boundaries(), 0, n as int);
        }
    }

    fn drain_buffers(&mut self, only_output: bool) -> (r: Vec<(u32, Cell)>)
        ensures
            r@ == drained_cells(old(self).spec_grid().spec_boundaries(), only_output),
            buffers_drained(final(self).spec_grid().spec_boundaries(), old(self).spec_grid().spec_boundaries(), only_output),
            same_cells(final(self).spec_grid(), old(self).spec_grid()),
            final(self).same_rules_state(*old(self)),
            final(self).spec_input_log() == old(self).spec_input_log(),
            final(self).spec_tick_log() == old(self).spec_tick_log(),
    {
        let ghost obs = self.grid.spec_boundaries();
        let n = self.grid.boundary_count();
        let mut out: Vec<(u32, Cell)> = Vec::new();
        let mut k: usize = 0;
        while k < n
            invariant
                n == obs.len(),
                k <= n,
                obs == old(self).spec_grid().spec_boundaries(),
                self.grid.spec_boundaries().len() == n,
                out@ == drained_cells(obs.take(k as int), only_output),
                forall|j: int|
                    0 <= j < k ==> (#[trigger] self.grid.spec_boundaries()[j]).0 == obs[j].0 && if drains(obs[j].1, only_output) {
                        drained(self.grid.spec_boundaries()[j].1, obs[j].1)
                    } else {
                        self.grid.spec_boundaries()[j] == obs[j]
                    },
                forall|j: int| k <= j < n ==> #[trigger] self.grid.spec_boundaries()[j] == obs[j],
                same_cells(self.grid, old(self).spec_grid()),
                self.same_rules_state(*old(self)),
                self.spec_input_log() == old(self).spec_input_log(),
                self.spec_tick_log() == old(self).spec_tick_log(),
            decreases n - k,
        {
            let x = self.grid.boundary_entry(k).0.0;
            let takes = if only_output {
                str_eq(self.grid.boundary_entry(k).1.direction.as_str(), "output")
            } else {
                true
            };
            let ghost before = self.grid;
            let ghost out0 = out@;
            proof {
                assert(obs.take(k + 1).drop_last() == obs.take(k as int));
                assert(obs.take(k + 1).last() == obs[k as int]);
            }
            if takes {
                let cells = self.grid.drain_boundary(k);
                let mut t: usize = 0;
                while t < cells.len()
                    invariant
                        t <= cells@.len(),
                        out@ == out0 + cells@.take(t as int).map_values(|c: Cell| (x as u32, c)),
                    decreases cells@.len() - t,
                {
                    out.push((x as u32, cells[t]));
                    t += 1;
                    proof {
                        assert(cells@.take(t as int).map_values(|c: Cell| (x as u32, c)) =~= cells@.take(t - 1).map_values(
                            |c: Cell| (x as u32, c),
                        ).push((x as u32, cells@[t - 1])));
                    }
                }
                proof {
                    assert(cells@.take(t as int) =~= cells@);
                    assert forall|j: int| 0 <= j < k + 1 implies (#[trigger] self.grid.spec_boundaries()[j]).0 == obs[j].0
                        && if drains(obs[j].1, only_output) {
                        drained(self.grid.spec_boundaries()[j].1, obs[j].1)
                    } else {
                        self.grid.spec_boundaries()[j] == obs[j]
                    } by {
                        if j < k {
                            assert(self.grid.spec_boundaries()[j] == before.spec_boundaries()[j]);
                        }
                    }
                }
            } else {
                assert(out@ =~= drained_cells(obs.take(k + 1), only_output));
            }
            k += 1;
        }
        proof {
            assert(obs.take(n as int) =~= obs);
        }
        out
    }

    /// Empty every boundary buffer, handing out what they held: buffer by buffer, the
    /// queued cells, each with the x of its buffer.
    pub fn pop_output(&mut self) -> (r: Vec<(u32, Cell)>)
        ensures
            r@ == drained_cells(old(self).spec_grid().spec_boundaries(), false),
            buffers_drained(final(self).spec_grid().spec_boundaries(), old(self).spec_grid().spec_boundaries(), false),
            same_cells(final(self).spec_grid(), old(self).spec_grid()),
            final(self).same_rules_state(*old(self)),
            final(self).spec_input_log() == old(self).spec_input_log(),
            final(self).spec_tick_log() == old(self).spec_tick_log(),
    {
        self.drain_buffers(false)
    }

    /// Empty the output buffers, handing out what they held (as `pop_output`).
    pub fn drain_output(&mut self) -> (r: Vec<(u32, Cell)>)
        ensures
            r@ == drained_cells(old(self).spec_grid().spec_boundaries(), true),
            buffers_drained(final(self).spec_grid().spec_boundaries(), old(self).spec_grid().spec_boundaries(), true),
            same_cells(final(self).spec_grid(), old(self).spec_grid()),
            final(self).same_rules_state(*old(self)),
            final(self).spec_input_log() == old(self).spec_input_log(),
            final(self).spec_tick_log() == old(self).spec_tick_log(),
    {
        self.drain_buffers(true)
    }

    /// Every input buffer with something queued hands the oldest cell of its first
    /// non-empty queue to its grid cell, born at the current generation.
    pub fn apply_input(&mut self)
        ensures
            inputs_taken(final(self).spec_grid().spec_boundaries(), old(self).spec_grid().spec_boundaries()),
            final(self).spec_grid().spec_width() == old(self).spec_grid().spec_width(),
            final(self).spec_grid().spec_height() == old(self).spec_grid().spec_height(),
            final(self).spec_grid().spec_generation() == old(self).spec_grid().spec_generation(),
            forall|a: int, b: int| #[trigger] final(self).spec_grid().spec_in_grid(a, b) == old(self).spec_grid().spec_in_grid(a, b),
            forall|a: int, b: int|
                #[trigger] final(self).spec_grid().spec_cell(a, b) == if old(self).spec_grid().spec_in_grid(a, b)
                    && last_input_at(old(self).spec_grid().spec_boundaries(), a, b) is Some {
                    Cell {
                        value: last_input_at(old(self).spec_grid().spec_boundaries(), a, b)->0.value,
                        born_at: old(self).spec_grid().spec_generation(),
                    }
                } else {
                    old(self).spec_grid().spec_cell(a, b)
                },
            final(self).same_rules_state(*old(self)),
            final(self).spec_input_log() == old(self).spec_input_log(),
            final(self).spec_tick_log() == old(self).spec_tick_log(),
    {
        let ghost g0 = self.grid;
        let ghost obs = g0.spec_boundaries();
        let gen = self.grid.generation();
        let n = self.grid.boundary_count();
        let mut k: usize = 0;
        while k < n
            invariant
                n == obs.len(),
                k <= n,
                g0 == old(self).spec_grid(),
                obs == g0.spec_boundaries(),
                gen == g0.spec_generation(),
                self.grid.spec_boundaries().len() == n,
                forall|j: int|
                    0 <= j < k ==> (#[trigger] self.grid.spec_boundaries()[j]).0 == obs[j].0 && if input_front(obs[j].1) is Some {
                        popped(self.grid.spec_boundaries()[j].1, obs[j].1, first_nonempty(queues_view(obs[j].1), 0))
                    } else {
                        self.grid.spec_boundaries()[j] == obs[j]
                    },
                forall|j: int| k <= j < n ==> #[trigger] self.grid.spec_boundaries()[j] == obs[j],
                self.grid.spec_width() == g0.spec_width(),
                self.grid.spec_height() == g0.spec_height(),
                self.grid.spec_generation() == g0.spec_generation(),
                forall|a: int, b: int| #[trigger] self.grid.spec_in_grid(a, b) == g0.spec_in_grid(a, b),
                forall|a: int, b: int|
                    #[trigger] self.grid.spec_cell(a, b) == if g0.spec_in_grid(a, b) && last_input_at(obs.take(k as int), a, b) is Some {
                        Cell { value: last_input_at(obs.take(k as int), a, b)->0.value, born_at: gen }
                    } else {
                        g0.spec_cell(a, b)
                    },
                self.same_rules_state(*old(self)),
                self.spec_input_log() == old(self).spec_input_log(),
                self.spec_tick_log() == old(self).spec_tick_log(),
            decreases n - k,
        {
            let ghost before = self.grid;
            proof {
                assert(obs.take(k + 1).drop_last() == obs.take(k as int));
                assert(obs.take(k + 1).last() == obs[k as int]);
            }
            let entry = self.grid.boundary_entry(k);
            let (x, y) = entry.0;
            let is_input = str_eq(entry.1.direction.as_str(), "input");
            let nq = entry.1.queues.len();
            let mut q: usize = 0;
            if is_input {
                while q < nq && entry.1.queues[q].1.len() == 0
                    invariant
                        nq == entry.1.queues@.len(),
                        q <= nq,
                        forall|j: int| 0 <= j < q ==> (#[trigger] queues_view(entry.1)[j]).1.len() == 0,
                    decreases nq - q,
                {
                    q += 1;
                }
                proof {
                    lemma_first_nonempty_at(queues_view(entry.1), 0, if q < nq && entry.1.queues@[q as int].1@.len() > 0 {
                        q as int
                    } else {
                        nq as int
                    });
                }
            }
            if is_input && q < nq {
                let front = entry.1.queues[q].1[0];
                assert(queues_view(obs[k as int].1)[q as int].1[0] == front);
                self.grid.set_cell(x, y, Cell { value: front.value, born_at: gen });
                self.grid.pop_boundary_front(k, q);
                proof {
                    assert forall|j: int| 0 <= j < k + 1 implies (#[trigger] self.grid.spec_boundaries()[j]).0 == obs[j].0
                        && if input_front(obs[j].1) is Some {
                        popped(self.grid.spec_boundaries()[j].1, obs[j].1, first_nonempty(queues_view(obs[j].1), 0))
                    } else {
                        self.grid.spec_boundaries()[j] == obs[j]
                    } by {
                        if j < k {
                            assert(self.grid.spec_boundaries()[j] == before.spec_boundaries()[j]);
                        }
                    }
                }
            } else {
                proof {
                    assert(input_front(obs[k as int].1) is None);
                    assert forall|a: int, b: int| last_input_at(obs.take(k + 1), a, b) == last_input_at(obs.take(k as int), a, b) by {}
                }
            }
            k += 1;
        }
        proof {
            assert(obs.take(n as int) =~= obs);
        }
    }



    // -----------------------------------------------------------------------
    // Ticks
    // -----------------------------------------------------------------------

    /// One tick with the state the engine keeps (see `run_tick_with_state`), logged when
    /// logging is on. Returns the accepted matches and the values output.
    pub fn run_tick(&mut self) -> (r: (Vec<RuleMatch>, Vec<(u32, Cell)>))
        requires
            old(self).wf(),
            old(self).spec_grid().spec_generation() < u64::MAX,
        ensures
            engine_ticked(*old(self), *final(self), r.0@, r.1@),
    {
        let gen = self.grid.generation();
        let t = run_tick_counted(&mut self.grid, &self.rule_index, &mut self.state);
        let ghost acc_v = t.0@;
        let ghost out_v = t.1@;
        let (accepted, outputs, counts) = t;
        let entry = TickLogEntry {
            tick: gen,
            accepted: accepted.len(),
            rejected: counts.0 - accepted.len(),
            starvation_events: counts.1,
            feedback_events: counts.2,
        };
        let mut log = self.tick_log.take();
        match &mut log {
            Some(v) => {
                v.push(entry);
            },
            None => {},
        }
        self.tick_log = log;
        let result = (accepted, outputs);
        assert(result.0@ == acc_v && result.1@ == out_v);
        result
    }

    /// Run ticks until one accepts nothing, at most `COMPOSE_TICK_LIMIT + 1` of them, and
    /// judge the outcome by the number of non-default cells: `NonTerminating` when every
    /// tick allowed accepted something, else `settled_verdict` of the counts before and after.
    pub fn compose_with(&mut self) -> (v: CompositionVerdict)
        requires
            old(self).wf(),
            old(self).spec_grid().spec_generation() + COMPOSE_TICK_LIMIT + 2 < u64::MAX,
        ensures
            exists|es: Seq<Engine>, accs: Seq<Seq<RuleMatch>>, outs: Seq<Seq<(u32, Cell)>>|
                {
                    &&& #[trigger] tick_chain(es, accs, outs)
                    &&& es[0] == *old(self)
                    &&& es.last() == *final(self)
                    &&& forall|i: int| 0 <= i < accs.len() - 1 ==> (#[trigger] accs[i]).len() > 0
                    &&& if v == CompositionVerdict::NonTerminating {
                        &&& accs.len() == COMPOSE_TICK_LIMIT + 1
                        &&& accs.last().len() > 0
                    } else {
                        &&& 0 < accs.len() <= COMPOSE_TICK_LIMIT + 1
                        &&& accs.last().len() == 0
                        &&& settled_verdict(v, active_cells(old(self).spec_grid()), active_cells(final(self).spec_grid()))
                    }
                },
    {
        let initial = count_active(&self.grid);
        let ghost mut es: Seq<Engine> = seq![*self];
        let ghost mut accs: Seq<Seq<RuleMatch>> = Seq::empty();
        let ghost mut outs: Seq<Seq<(u32, Cell)>> = Seq::empty();
        let mut tick: u32 = 0;
        loop
            invariant
                self.wf(),
                tick <= COMPOSE_TICK_LIMIT + 1,
                self.spec_grid().spec_generation() == old(self).spec_grid().spec_generation() + tick,
                old(self).spec_grid().spec_generation() + COMPOSE_TICK_LIMIT + 2 < u64::MAX,
                initial == active_cells(old(self).spec_grid()),
                initial <= coord_limit() * coord_limit(),
                tick_chain(es, accs, outs),
                accs.len() == tick,
                es[0] == *old(self),
                es.last() == *self,
                forall|i: int| 0 <= i < accs.len() ==> (#[trigger] accs[i]).len() > 0,
            decreases COMPOSE_TICK_LIMIT + 1 - tick,
        {
            if tick > COMPOSE_TICK_LIMIT {
                assert(tick_chain(es, accs, outs));
                return CompositionVerdict::NonTerminating;
            }
            let ghost prev = *self;
            let (accepted, outputs) = self.run_tick();
            proof {
                lemma_chain_push(es, accs, outs, *self, accepted@, outputs@);
                es = es.push(*self);
                accs = accs.push(accepted@);
                outs = outs.push(outputs@);
            }
            if accepted.len() == 0 {
                let fin = count_active(&self.grid);
                let v = if fin > initial * 2 {
                    CompositionVerdict::Divergent
                } else if fin < initial / 2 && initial > 0 {
                    CompositionVerdict::Shrinking
                } else {
                    CompositionVerdict::Bounded(#[verifier::truncate] (fin as usize))
                };
                assert(tick_chain(es, accs, outs));
                return v;
            }
            tick = tick + 1;
        }
    }

    // -----------------------------------------------------------------------
    // Saving and restoring
    // -----------------------------------------------------------------------

    /// Save the grid, the rules and the state kept between ticks.
    pub fn snapshot(&self) -> (s: EngineSnapshot)
        requires
            self.wf(),
        ensures
            s.wf(),
            same_grid(s.spec_grid(), self.spec_grid()),
            forall|h: int| #[trigger] same_rules(s.spec_rules().rules_of(h), self.spec_rules().rules_of(h)),
            s.spec_state().starvation@ == self.spec_state().starvation@,
            s.spec_state().feedback@ == self.spec_state().feedback@,
            s.spec_state().memory@ == self.spec_state().memory@,
            s.spec_state().activations@ == self.spec_state().activations@,
    {
        let rule_index = self.rule_index.duplicate();
        proof {
            let a = rule_index;
            let b = self.rule_index;
            assert forall|h: int, k: int| 0 <= h < 256 && 0 <= k < a.rules_of(h).len() implies rule_in_bounds(
                #[trigger] a.rules_of(h)[k],
            ) && (a.rules_of(h)[k].cam is Some && a.rules_of(h)[k].recursion is Some ==> a.rules_of(h)[k].id@.len()
                > 0) by {
                assert(same_rules(a.rules_of(h), b.rules_of(h)));
                assert(same_rule(a.rules_of(h)[k], b.rules_of(h)[k]));
                lemma_same_rule_bounds(a.rules_of(h)[k], b.rules_of(h)[k]);
            }
        }
        EngineSnapshot { grid: self.grid.duplicate(), rule_index, state: self.state.duplicate() }
    }

    /// An engine running the saved rules on the saved grid with the saved state, and no log.
    pub fn from_snapshot(snapshot: EngineSnapshot) -> (e: Engine)
        requires
            snapshot.wf(),
        ensures
            e.wf(),
            e.spec_grid() == snapshot.spec_grid(),
            e.spec_rules() == snapshot.spec_rules(),
            e.spec_state() == snapshot.spec_state(),
            e.spec_input_log() is None,
            e.spec_tick_log() is None,
    {
        let EngineSnapshot { grid, rule_index, state } = snapshot;
        let mut e = Engine::new(grid, rule_index);
        e.state = state;
        e
    }

    /// Rebuild the engine from `snapshot` and run it until its generation reaches
    /// `target_tick`: before each tick, the inputs of `log` recorded for the current
    /// generation are pushed, in order, and the input buffers applied. The run is the chain
    /// of rounds of `replay_chain`, from the engine the snapshot holds; every round starts
    /// below `target_tick`.
    pub fn replay(snapshot: EngineSnapshot, log: &[InputEvent], target_tick: u64) -> (e: Engine)
        requires
            snapshot.wf(),
            target_tick < u64::MAX,
        ensures
            e.wf(),
            e.spec_rules() == snapshot.spec_rules(),
            e.spec_grid().spec_generation() == if snapshot.spec_grid().spec_generation() < target_tick {
                target_tick
            } else {
                snapshot.spec_grid().spec_generation()
            },
            e.spec_input_log() is None,
            e.spec_tick_log() is None,
            exists|
                es: Seq<Engine>,
                accs: Seq<Seq<RuleMatch>>,
                outs: Seq<Seq<(u32, Cell)>>,
                pss: Seq<Seq<Engine>>,
                appl: Seq<Engine>,
            |
                #[trigger] replay_chain(es, accs, outs, pss, appl, log@) && es[0].spec_grid() == snapshot.spec_grid()
                    && es[0].spec_rules() == snapshot.spec_rules() && es[0].spec_state() == snapshot.spec_state()
                    && es[0].spec_input_log() is None && es[0].spec_tick_log() is None && es.last() == e && forall|
                    i: int,
                | 0 <= i < accs.len() ==> (#[trigger] es[i]).spec_grid().spec_generation() < target_tick,
    {
        let mut engine = Engine::from_snapshot(snapshot);
        let ghost g0 = engine.grid.spec_generation();
        let ghost e0 = engine;
        let ghost mut es: Seq<Engine> = seq![engine];
        let ghost mut accs: Seq<Seq<RuleMatch>> = Seq::empty();
        let ghost mut outs: Seq<Seq<(u32, Cell)>> = Seq::empty();
        let ghost mut pss: Seq<Seq<Engine>> = Seq::empty();
        let ghost mut appl: Seq<Engine> = Seq::empty();
        while engine.grid.generation() < target_tick
            invariant
                engine.wf(),
                engine.spec_rules() == snapshot.spec_rules(),
                engine.spec_input_log() is None,
                engine.spec_tick_log() is None,
                target_tick < u64::MAX,
                g0 == snapshot.spec_grid().spec_generation(),
                g0 <= target_tick ==> engine.spec_grid().spec_generation() <= target_tick,
                g0 > target_tick ==> engine.spec_grid().spec_generation() == g0,
                engine.spec_grid().spec_generation() >= g0,
                e0.spec_grid() == snapshot.spec_grid(),
                e0.spec_rules() == snapshot.spec_rules(),
                e0.spec_state() == snapshot.spec_state(),
                e0.spec_input_log() is None,
                e0.spec_tick_log() is None,
                es[0] == e0,
                replay_chain(es, accs, outs, pss, appl, log@),
                es.last() == engine,
                forall|i: int| 0 <= i < accs.len() ==> (#[trigger] es[i]).spec_grid().spec_generation() < target_tick,
            decreases target_tick - engine.spec_grid().spec_generation(),
        {
            let current = engine.grid.generation();
            let ghost start = engine;
            let ghost mut ps: Seq<Engine> = seq![engine];
            let mut k: usize = 0;
            while k < log.len()
                invariant
                    engine.wf(),
                    engine.spec_rules() == snapshot.spec_rules(),
                    engine.spec_input_log() is None,
                    engine.spec_tick_log() is None,
                    engine.spec_grid().spec_generation() == current,
                    start.spec_grid().spec_generation() == current,
                    current < target_tick,
                    target_tick < u64::MAX,
                    k <= log@.len(),
                    ps.len() > 0,
                    ps[0] == start,
                    ps.last() == engine,
                    pushes(ps, events_at(log@.take(k as int), current)),
                decreases log@.len() - k,
            {
                proof {
                    assert(log@.take(k as int + 1).drop_last() =~= log@.take(k as int));
                    assert(log@.take(k as int + 1).last() == log@[k as int]);
                }
                if log[k].tick == current {
                    let ghost before = engine;
                    engine.push_input(log[k].channel, log[k].value);
                    proof {
                        assert(same_cells(engine.grid, engine.grid));
                        assert(input_step(engine, before, log@[k as int]));
                        lemma_pushes_push(ps, events_at(log@.take(k as int), current), engine, log@[k as int]);
                        ps = ps.push(engine);
                    }
                }
                k += 1;
            }
            proof {
                assert(log@.take(k as int) =~= log@);
            }
            let ghost pushed = engine;
            engine.apply_input();
            let ghost applied = engine;
            assert(inputs_applied(applied, pushed));
            let r = engine.run_tick();
            proof {
                lemma_replay_push(es, accs, outs, pss, appl, log@, engine, r.0@, r.1@, ps, applied);
                es = es.push(engine);
                accs = accs.push(r.0@);
                outs = outs.push(r.1@);
                pss = pss.push(ps);
                appl = appl.push(applied);
                assert forall|i: int| 0 <= i < accs.len() implies (#[trigger] es[i]).spec_grid().spec_generation() < target_tick by {
                    if i == accs.len() - 1 {
                        assert(es[i] == start);
                    }
                }
            }
        }
        proof {
            assert(replay_chain(es, accs, outs, pss, appl, log@));
        }
        engine
    }
}

} // verus!
