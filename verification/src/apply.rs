use vstd::prelude::*;
use crate::geometry::{
    compute_shift_targets, coord_bound, flatten_groups, lemma_shift_targets_small, rule_in_bounds, spec_shift_targets,
};
use crate::conflict_analyzer::index_in_bounds;
use crate::grid::{enqueued, queues_view, spec_enqueue, Grid};
use crate::journal::{spec_observe, MatchMap, MemoryBuffers, WriteBuffer};
use crate::conflict_analyzer::{get_rule_data, RuleDataCache};
use crate::types::{BoundaryBuffer, RuleIndex};
use crate::types::{
    CamSearch, AffectedRegion, RuleMatch, direction_delta, spec_direction_delta, Cell, CellType, CellValue, ChangeValue, Direction, OverflowAction, RecordTrigger,
    RecordedValue, Rule, ShiftSpec,
};

verus! {

// ---------------------------------------------------------------------------
// Limits
// ---------------------------------------------------------------------------

/// Largest grid side and match coordinate the engine handles: coordinates plus rule
/// offsets then stay far inside `i32`.
pub open spec fn coord_limit() -> int {
    0x2000_0000
}

/// The grid's sides are within the coordinate limit.
pub open spec fn grid_small(g: Grid) -> bool {
    g.spec_width() <= coord_limit() && g.spec_height() <= coord_limit()
}

// ---------------------------------------------------------------------------
// Reading the grid, and the grid as this tick's writes left it
// ---------------------------------------------------------------------------

/// The default cell value.
pub open spec fn default_value() -> CellValue {
    CellValue(CellType(0))
}

/// `(x, y)` lies inside the grid's sides.
pub open spec fn in_bounds(g: Grid, x: int, y: int) -> bool {
    0 <= x < g.spec_width() && 0 <= y < g.spec_height()
}

/// Value of the cell at `(x, y)` before the tick (the default value off the grid).
pub open spec fn grid_value(g: Grid, x: int, y: int) -> CellValue {
    if x < 0 || y < 0 {
        default_value()
    } else {
        g.spec_cell(x, y).value
    }
}

/// Value of the cell at `(x, y)` as this tick's writes so far left it.
pub open spec fn eff_value(g: Grid, buf: Map<(u32, u32), Cell>, x: int, y: int) -> CellValue {
    if x < 0 || y < 0 {
        default_value()
    } else if buf.contains_key((x as u32, y as u32)) {
        buf[(x as u32, y as u32)].value
    } else {
        g.spec_cell(x, y).value
    }
}

/// Age of the cell at `(x, y)` as this tick's writes so far left it: a cell written this
/// tick has the age its write gives it.
pub open spec fn eff_age(g: Grid, buf: Map<(u32, u32), Cell>, x: int, y: int, gen: u64) -> u64 {
    if x < 0 || y < 0 {
        0
    } else if buf.contains_key((x as u32, y as u32)) {
        let c = buf[(x as u32, y as u32)];
        if c.value.0.0 == 0 {
            0
        } else if gen >= c.born_at {
            (gen - c.born_at) as u64
        } else {
            0
        }
    } else {
        g.spec_age(x, y)
    }
}

/// The pattern matches at `(ox, oy)` in the state this tick's writes left, and that cell is
/// at least `min_age` old.
pub open spec fn pattern_matches_eff(
    g: Grid,
    buf: Map<(u32, u32), Cell>,
    pattern: Seq<(i8, i8, CellType)>,
    ox: int,
    oy: int,
    min_age: u64,
    gen: u64,
) -> bool {
    &&& !(min_age > 0 && eff_age(g, buf, ox, oy, gen) < min_age)
    &&& forall|k: int|
        0 <= k < pattern.len() ==> eff_value(g, buf, ox + (#[trigger] pattern[k]).0, oy + pattern[k].1).0
            == pattern[k].2
}

/// Values of the pattern cells around `(mx, my)` before the tick.
pub open spec fn pattern_values(g: Grid, pattern: Seq<(i8, i8, CellType)>, mx: int, my: int) -> Seq<CellValue> {
    pattern.map_values(|e: (i8, i8, CellType)| grid_value(g, mx + e.0, my + e.1))
}

/// Values of the pattern cells around `(ox, oy)` as this tick's writes left them.
pub open spec fn pattern_values_eff(
    g: Grid,
    buf: Map<(u32, u32), Cell>,
    pattern: Seq<(i8, i8, CellType)>,
    ox: int,
    oy: int,
) -> Seq<CellValue> {
    pattern.map_values(|e: (i8, i8, CellType)| eff_value(g, buf, ox + e.0, oy + e.1))
}

// ---------------------------------------------------------------------------
// Values written by changes
// ---------------------------------------------------------------------------

/// The cell type a change value gives with the pattern values `pb`: a literal, the value
/// of pattern entry `i` (the default beyond the pattern), or the sum or difference of two
/// change values, modulo 256.
pub open spec fn eval_change(cv: ChangeValue, pb: Seq<CellValue>) -> u8
    decreases cv,
{
    match cv {
        ChangeValue::Literal(v) => v,
        ChangeValue::Ref(i) => if i < pb.len() {
            pb[i as int].0.0
        } else {
            0
        },
        ChangeValue::Add(a, b) => ((eval_change(*a, pb) + eval_change(*b, pb)) % 256) as u8,
        ChangeValue::Sub(a, b) => ((eval_change(*a, pb) - eval_change(*b, pb)) % 256) as u8,
    }
}

/// Writes of the first `n` changes of `rule` around `(cx, cy)` shifted by `(bx, by)`: each
/// change target inside the grid gets its value, born at `gen`.
pub open spec fn change_writes(
    g: Grid,
    rule: Rule,
    pb: Seq<CellValue>,
    cx: int,
    cy: int,
    bx: int,
    by: int,
    gen: u64,
    n: int,
) -> Seq<((u32, u32), Cell)>
    decreases n,
{
    if n <= 0 {
        Seq::empty()
    } else {
        let prev = change_writes(g, rule, pb, cx, cy, bx, by, gen, n - 1);
        let c = rule.changes@[n - 1];
        let nx = cx + bx + c.0;
        let ny = cy + by + c.1;
        if in_bounds(g, nx, ny) {
            prev.push(((nx as u32, ny as u32), Cell { value: CellValue(CellType(eval_change(c.2, pb))), born_at: gen }))
        } else {
            prev
        }
    }
}

/// Writes of all changes of `rule`.
pub open spec fn all_change_writes(
    g: Grid,
    rule: Rule,
    pb: Seq<CellValue>,
    cx: int,
    cy: int,
    bx: int,
    by: int,
    gen: u64,
) -> Seq<((u32, u32), Cell)> {
    change_writes(g, rule, pb, cx, cy, bx, by, gen, rule.changes@.len() as int)
}

/// Writes of all changes, once from every target of `targets` (the first `n`).
pub open spec fn targets_change_writes(
    g: Grid,
    rule: Rule,
    pb: Seq<CellValue>,
    cx: int,
    cy: int,
    targets: Seq<(i32, i32)>,
    gen: u64,
    n: int,
) -> Seq<((u32, u32), Cell)>
    decreases n,
{
    if n <= 0 {
        Seq::empty()
    } else {
        targets_change_writes(g, rule, pb, cx, cy, targets, gen, n - 1) + all_change_writes(
            g,
            rule,
            pb,
            cx,
            cy,
            targets[n - 1].0 as int,
            targets[n - 1].1 as int,
            gen,
        )
    }
}

/// Map that a list of writes leaves on top of `buf`.
pub open spec fn apply_writes(buf: Map<(u32, u32), Cell>, w: Seq<((u32, u32), Cell)>) -> Map<(u32, u32), Cell>
    decreases w.len(),
{
    if w.len() == 0 {
        buf
    } else {
        apply_writes(buf, w.drop_last()).insert(w.last().0, w.last().1)
    }
}

/// Cells of a list of writes, in order.
pub open spec fn write_keys(w: Seq<((u32, u32), Cell)>) -> Seq<(u32, u32)> {
    w.map_values(|e: ((u32, u32), Cell)| e.0)
}

// ---------------------------------------------------------------------------
// Shifts and overflow
// ---------------------------------------------------------------------------

/// Writes and boundary outputs.
pub open spec fn no_effect() -> (Seq<((u32, u32), Cell)>, Seq<(usize, usize, Cell)>) {
    (Seq::empty(), Seq::empty())
}

/// What writing `ov` at the clamped cell `(bx, by)` does for a head leaving the grid: with
/// a boundary buffer there, an output of `ov` (the head itself for `None`); without one, a
/// write of `ov` (the head's value for `None`) at `(bx, by)`.
pub open spec fn overflow_value_effect(g: Grid, ov: Option<u8>, bx: int, by: int, head: Cell, gen: u64) -> (
    Seq<((u32, u32), Cell)>,
    Seq<(usize, usize, Cell)>,
) {
    if g.spec_boundary_at(bx as usize, by as usize) is Some {
        (
            Seq::empty(),
            seq![
                (
                    bx as usize,
                    by as usize,
                    match ov {
                        Some(v) => Cell { value: CellValue(CellType(v)), born_at: gen },
                        None => head,
                    },
                ),
            ],
        )
    } else {
        (
            seq![
                (
                    (bx as u32, by as u32),
                    Cell {
                        value: CellValue(
                            CellType(
                                match ov {
                                    Some(v) => v,
                                    None => head.value.0.0,
                                },
                            ),
                        ),
                        born_at: gen,
                    },
                ),
            ],
            Seq::empty(),
        )
    }
}

/// The value an overflow action writes: none for `Discard`, the literal (the head itself
/// for `Write(0)`) otherwise.
pub open spec fn overflow_output(action: OverflowAction) -> Option<Option<u8>> {
    match action {
        OverflowAction::Discard => None,
        OverflowAction::Write(v) => Some(
            if v != 0 {
                Some(v)
            } else {
                None
            },
        ),
        OverflowAction::WriteLiteral(v) => Some(Some(v)),
    }
}

/// What a head leaving the grid does at the clamped cell `(bx, by)`.
pub open spec fn overflow_effect(
    g: Grid,
    action: OverflowAction,
    bx: int,
    by: int,
    head: Cell,
    gen: u64,
) -> (Seq<((u32, u32), Cell)>, Seq<(usize, usize, Cell)>) {
    match overflow_output(action) {
        None => no_effect(),
        Some(ov) => overflow_value_effect(g, ov, bx, by, head, gen),
    }
}

/// `x` clamped into `0..=w - 1` (`0` for an empty side).
pub open spec fn clamp_side(x: int, w: int) -> int {
    if x < 0 {
        0
    } else if w == 0 {
        0
    } else if x > w - 1 {
        w - 1
    } else {
        x
    }
}

/// Broadcast path from step `k` to `steps`: every step inside the grid gets the head; the
/// first step outside applies the overflow action once and ends the path.
pub open spec fn broadcast_effect(
    g: Grid,
    action: OverflowAction,
    cx: int,
    cy: int,
    dx: int,
    dy: int,
    k: int,
    steps: int,
    head: Cell,
    gen: u64,
) -> (Seq<((u32, u32), Cell)>, Seq<(usize, usize, Cell)>)
    decreases steps + 1 - k,
{
    if k > steps || k < 1 {
        no_effect()
    } else {
        let px = cx + dx * k;
        let py = cy + dy * k;
        if in_bounds(g, px, py) {
            let rest = broadcast_effect(g, action, cx, cy, dx, dy, k + 1, steps, head, gen);
            (seq![((px as u32, py as u32), head)] + rest.0, rest.1)
        } else {
            overflow_effect(
                g,
                action,
                clamp_side(px, g.spec_width() as int),
                clamp_side(py, g.spec_height() as int),
                head,
                gen,
            )
        }
    }
}

/// Target of a shift from `(cx, cy)`.
pub open spec fn shift_target(shift: ShiftSpec, cx: int, cy: int) -> (int, int) {
    let d = spec_direction_delta(shift.direction);
    (cx + d.0 * shift.steps, cy + d.1 * shift.steps)
}

/// Writes and outputs of one shift of the head at `(cx, cy)`: unless `keep_source`, the
/// origin is cleared; the head moves to the target (or, with `broadcast`, to every cell of
/// the path); a target off the grid applies the overflow action at the clamped cell. A head
/// outside the grid does nothing.
pub open spec fn shift_effect(g: Grid, rule: Rule, shift: ShiftSpec, cx: int, cy: int, gen: u64) -> (
    Seq<((u32, u32), Cell)>,
    Seq<(usize, usize, Cell)>,
) {
    if !in_bounds(g, cx, cy) || !g.spec_in_grid(cx, cy) {
        no_effect()
    } else {
        let head = g.spec_cell(cx, cy);
        let d = spec_direction_delta(shift.direction);
        let t = shift_target(shift, cx, cy);
        let clear: Seq<((u32, u32), Cell)> = if !shift.keep_source {
            seq![((cx as u32, cy as u32), Cell { value: default_value(), born_at: 0 })]
        } else {
            Seq::empty()
        };
        let rest = if !shift.broadcast {
            if in_bounds(g, t.0, t.1) {
                (seq![((t.0 as u32, t.1 as u32), head)], Seq::empty())
            } else {
                overflow_effect(
                    g,
                    rule.overflow,
                    clamp_side(t.0, g.spec_width() as int),
                    clamp_side(t.1, g.spec_height() as int),
                    head,
                    gen,
                )
            }
        } else {
            broadcast_effect(g, rule.overflow, cx, cy, d.0, d.1, 1, shift.steps as int, head, gen)
        };
        (clear + rest.0, rest.1)
    }
}

/// A shift of the head at `(cx, cy)` moves its per-match state: when the origin is cleared
/// and the target is inside the grid.
pub open spec fn shift_moves_state(g: Grid, shift: ShiftSpec, cx: int, cy: int) -> bool {
    let t = shift_target(shift, cx, cy);
    in_bounds(g, cx, cy) && g.spec_in_grid(cx, cy) && !shift.keep_source && in_bounds(g, t.0, t.1)
}

/// `m` with the entry of `from` moved to `to`, when `from` has one.
pub open spec fn relocated<V>(m: Map<(u32, u32, usize), V>, from: (u32, u32, usize), to: (u32, u32, usize)) -> Map<
    (u32, u32, usize),
    V,
> {
    if m.contains_key(from) {
        m.remove(from).insert(to, m[from])
    } else {
        m
    }
}

// ---------------------------------------------------------------------------
// Reading
// ---------------------------------------------------------------------------

/// A coordinate near the grid: within the limit plus a cascade's reach.
pub open spec fn near(v: int) -> bool {
    -0x2100_0000 <= v <= 0x2100_0000
}

proof fn lemma_apply_writes_push(buf: Map<(u32, u32), Cell>, w: Seq<((u32, u32), Cell)>, e: ((u32, u32), Cell))
    ensures
        apply_writes(buf, w.push(e)) == apply_writes(buf, w).insert(e.0, e.1),
        write_keys(w.push(e)) == write_keys(w).push(e.0),
{
    assert(w.push(e).drop_last() =~= w);
    assert(write_keys(w.push(e)) =~= write_keys(w).push(e.0));
}

pub proof fn lemma_apply_writes_concat(buf: Map<(u32, u32), Cell>, a: Seq<((u32, u32), Cell)>, b: Seq<((u32, u32), Cell)>)
    ensures
        apply_writes(buf, a + b) == apply_writes(apply_writes(buf, a), b),
        write_keys(a + b) == write_keys(a) + write_keys(b),
    decreases b.len(),
{
    if b.len() == 0 {
        assert(a + b =~= a);
    } else {
        lemma_apply_writes_concat(buf, a, b.drop_last());
        assert((a + b).drop_last() =~= a + b.drop_last());
        assert((a + b).last() == b.last());
    }
    assert(write_keys(a + b) =~= write_keys(a) + write_keys(b));
}

/// The value of the cell at `(x, y)` as this tick's writes left it.
fn read_cell_effective(grid: &Grid, buf: &WriteBuffer, x: i32, y: i32) -> (v: CellValue)
    ensures
        v == eff_value(*grid, buf@, x as int, y as int),
{
    if x < 0 || y < 0 {
        return CellValue(CellType(0));
    }
    match buf.get(x as u32, y as u32) {
        Some(c) => c.value,
        None => match grid.get_cell(x as usize, y as usize) {
            Some(c) => c.value,
            None => CellValue(CellType(0)),
        },
    }
}

/// The age of the cell at `(x, y)` as this tick's writes left it.
fn read_age_effective(grid: &Grid, buf: &WriteBuffer, x: i32, y: i32, gen: u64) -> (a: u64)
    ensures
        a == eff_age(*grid, buf@, x as int, y as int, gen),
{
    if x < 0 || y < 0 {
        return 0;
    }
    match buf.get(x as u32, y as u32) {
        Some(c) => if c.value.0.0 == 0 {
            0
        } else if gen >= c.born_at {
            gen - c.born_at
        } else {
            0
        },
        None => grid.get_age(x as usize, y as usize),
    }
}

/// Whether the pattern matches at `(ox, oy)` as this tick's writes left the grid, that
/// cell being at least `min_age` old.
fn pattern_matches_effective(
    grid: &Grid,
    buf: &WriteBuffer,
    pattern: &Vec<(i8, i8, CellType)>,
    ox: i32,
    oy: i32,
    min_age: u64,
    gen: u64,
) -> (b: bool)
    requires
        near(ox as int),
        near(oy as int),
    ensures
        b == pattern_matches_eff(*grid, buf@, pattern@, ox as int, oy as int, min_age, gen),
{
    if min_age > 0 && read_age_effective(grid, buf, ox, oy, gen) < min_age {
        return false;
    }
    let mut k: usize = 0;
    while k < pattern.len()
        invariant
            near(ox as int),
            near(oy as int),
            k <= pattern@.len(),
            forall|j: int|
                0 <= j < k ==> eff_value(*grid, buf@, ox + (#[trigger] pattern@[j]).0, oy + pattern@[j].1).0
                    == pattern@[j].2,
        decreases pattern@.len() - k,
    {
        let (dx, dy, expected) = pattern[k];
        if read_cell_effective(grid, buf, ox + dx as i32, oy + dy as i32).0 != expected {
            return false;
        }
        k += 1;
    }
    true
}

/// Values of the pattern cells around `(ox, oy)` as this tick's writes left them.
fn read_pattern_buffer_effective(
    grid: &Grid,
    buf: &WriteBuffer,
    pattern: &Vec<(i8, i8, CellType)>,
    ox: i32,
    oy: i32,
) -> (r: Vec<CellValue>)
    requires
        near(ox as int),
        near(oy as int),
    ensures
        r@ == pattern_values_eff(*grid, buf@, pattern@, ox as int, oy as int),
{
    let mut out: Vec<CellValue> = Vec::new();
    let mut k: usize = 0;
    while k < pattern.len()
        invariant
            near(ox as int),
            near(oy as int),
            k <= pattern@.len(),
            out@ == pattern_values_eff(*grid, buf@, pattern@.take(k as int), ox as int, oy as int),
        decreases pattern@.len() - k,
    {
        let (dx, dy, _t) = pattern[k];
        let v = read_cell_effective(grid, buf, ox + dx as i32, oy + dy as i32);
        out.push(v);
        assert(pattern_values_eff(*grid, buf@, pattern@.take(k as int + 1), ox as int, oy as int) =~= pattern_values_eff(
            *grid,
            buf@,
            pattern@.take(k as int),
            ox as int,
            oy as int,
        ).push(v));
        k += 1;
    }
    assert(pattern@.take(k as int) =~= pattern@);
    out
}

/// Values of the pattern cells around `(mx, my)` before the tick.
fn read_pattern_buffer(grid: &Grid, pattern: &Vec<(i8, i8, CellType)>, mx: i32, my: i32) -> (r: Vec<CellValue>)
    requires
        near(mx as int),
        near(my as int),
    ensures
        r@ == pattern_values(*grid, pattern@, mx as int, my as int),
{
    let mut out: Vec<CellValue> = Vec::new();
    let mut k: usize = 0;
    while k < pattern.len()
        invariant
            near(mx as int),
            near(my as int),
            k <= pattern@.len(),
            out@ == pattern_values(*grid, pattern@.take(k as int), mx as int, my as int),
        decreases pattern@.len() - k,
    {
        let (dx, dy, _t) = pattern[k];
        let px = mx + dx as i32;
        let py = my + dy as i32;
        let v = if px >= 0 && py >= 0 {
            match grid.get_cell(px as usize, py as usize) {
                Some(c) => c.value,
                None => CellValue(CellType(0)),
            }
        } else {
            CellValue(CellType(0))
        };
        out.push(v);
        assert(pattern_values(*grid, pattern@.take(k as int + 1), mx as int, my as int) =~= pattern_values(
            *grid,
            pattern@.take(k as int),
            mx as int,
            my as int,
        ).push(v));
        k += 1;
    }
    assert(pattern@.take(k as int) =~= pattern@);
    out
}

// ---------------------------------------------------------------------------
// Changes
// ---------------------------------------------------------------------------

/// The cell type a change value gives with the pattern values `pb`.
fn eval_change_value(cv: &ChangeValue, pb: &Vec<CellValue>) -> (r: u8)
    ensures
        r == eval_change(*cv, pb@),
    decreases cv,
{
    match cv {
        ChangeValue::Literal(v) => *v,
        ChangeValue::Ref(i) => if *i < pb.len() {
            pb[*i].0.0
        } else {
            0
        },
        ChangeValue::Add(a, b) => {
            let x = eval_change_value(a, pb);
            let y = eval_change_value(b, pb);
            ((x as u16 + y as u16) % 256) as u8
        },
        ChangeValue::Sub(a, b) => {
            let x = eval_change_value(a, pb);
            let y = eval_change_value(b, pb);
            assert((x - y) % 256 == (x as int + 256 - y) % 256);
            ((x as u16 + 256 - y as u16) % 256) as u8
        },
    }
}

/// Apply every change of `rule` around `(cx, cy)` shifted by `(bx, by)`.
fn apply_changes_at(
    rule: &Rule,
    pb: &Vec<CellValue>,
    cx: i32,
    cy: i32,
    bx: i32,
    by: i32,
    grid: &Grid,
    gen: u64,
    buf: &mut WriteBuffer,
    written: &mut Vec<(u32, u32)>,
)
    requires
        rule_in_bounds(*rule),
        near(cx as int),
        near(cy as int),
        -0x10000 <= bx <= 0x10000,
        -0x10000 <= by <= 0x10000,
        grid_small(*grid),
    ensures
        final(buf)@ == apply_writes(
            old(buf)@,
            all_change_writes(*grid, *rule, pb@, cx as int, cy as int, bx as int, by as int, gen),
        ),
        final(written)@ == old(written)@ + write_keys(
            all_change_writes(*grid, *rule, pb@, cx as int, cy as int, bx as int, by as int, gen),
        ),
{
    let n = rule.changes.len();
    let mut k: usize = 0;
    while k < n
        invariant
            n == rule.changes@.len(),
            k <= n,
            rule_in_bounds(*rule),
            near(cx as int),
            near(cy as int),
            -0x10000 <= bx <= 0x10000,
            -0x10000 <= by <= 0x10000,
            grid_small(*grid),
            buf@ == apply_writes(
                old(buf)@,
                change_writes(*grid, *rule, pb@, cx as int, cy as int, bx as int, by as int, gen, k as int),
            ),
            written@ == old(written)@ + write_keys(
                change_writes(*grid, *rule, pb@, cx as int, cy as int, bx as int, by as int, gen, k as int),
            ),
        decreases n - k,
    {
        let ghost prev = change_writes(*grid, *rule, pb@, cx as int, cy as int, bx as int, by as int, gen, k as int);
        let (dx, dy) = (rule.changes[k].0, rule.changes[k].1);
        assert(-coord_bound() <= rule.changes@[k as int].0 <= coord_bound());
        let nx = cx + bx + dx;
        let ny = cy + by + dy;
        if nx >= 0 && ny >= 0 && (nx as usize) < grid.width() && (ny as usize) < grid.height() {
            let v = eval_change_value(&rule.changes[k].2, pb);
            let cell = Cell { value: CellValue(CellType(v)), born_at: gen };
            proof {
                lemma_apply_writes_push(old(buf)@, prev, ((nx as u32, ny as u32), cell));
            }
            buf.insert(nx as u32, ny as u32, cell);
            written.push((nx as u32, ny as u32));
            proof {
                assert(old(written)@ + write_keys(prev).push((nx as u32, ny as u32)) =~= old(written)@ + write_keys(
                    prev.push(((nx as u32, ny as u32), cell)),
                ));
            }
        }
        k += 1;
    }
}

/// Apply every change of `rule` from every target of `targets`.
fn apply_changes_at_targets(
    rule: &Rule,
    pb: &Vec<CellValue>,
    cx: i32,
    cy: i32,
    targets: &Vec<(i32, i32)>,
    grid: &Grid,
    gen: u64,
    buf: &mut WriteBuffer,
    written: &mut Vec<(u32, u32)>,
)
    requires
        rule_in_bounds(*rule),
        near(cx as int),
        near(cy as int),
        forall|t: int|
            0 <= t < targets@.len() ==> -0x10000 <= (#[trigger] targets@[t]).0 <= 0x10000 && -0x10000
                <= targets@[t].1 <= 0x10000,
        grid_small(*grid),
    ensures
        final(buf)@ == apply_writes(
            old(buf)@,
            targets_change_writes(*grid, *rule, pb@, cx as int, cy as int, targets@, gen, targets@.len() as int),
        ),
        final(written)@ == old(written)@ + write_keys(
            targets_change_writes(*grid, *rule, pb@, cx as int, cy as int, targets@, gen, targets@.len() as int),
        ),
{
    let n = targets.len();
    let mut k: usize = 0;
    while k < n
        invariant
            n == targets@.len(),
            k <= n,
            rule_in_bounds(*rule),
            near(cx as int),
            near(cy as int),
            forall|t: int|
                0 <= t < targets@.len() ==> -0x10000 <= (#[trigger] targets@[t]).0 <= 0x10000 && -0x10000
                    <= targets@[t].1 <= 0x10000,
            grid_small(*grid),
            buf@ == apply_writes(
                old(buf)@,
                targets_change_writes(*grid, *rule, pb@, cx as int, cy as int, targets@, gen, k as int),
            ),
            written@ == old(written)@ + write_keys(
                targets_change_writes(*grid, *rule, pb@, cx as int, cy as int, targets@, gen, k as int),
            ),
        decreases n - k,
    {
        let ghost prev = targets_change_writes(*grid, *rule, pb@, cx as int, cy as int, targets@, gen, k as int);
        let ghost b0 = buf@;
        let ghost w0 = written@;
        let (tx, ty) = targets[k];
        assert(-0x10000 <= targets@[k as int].0 <= 0x10000);
        apply_changes_at(rule, pb, cx, cy, tx, ty, grid, gen, buf, written);
        proof {
            let cw = all_change_writes(*grid, *rule, pb@, cx as int, cy as int, tx as int, ty as int, gen);
            lemma_apply_writes_concat(old(buf)@, prev, cw);
            assert(written@ =~= old(written)@ + write_keys(prev + cw));
        }
        k += 1;
    }
}

// ---------------------------------------------------------------------------
// Shifts
// ---------------------------------------------------------------------------

/// Write (or output) `ov` at the clamped cell `(bx, by)` for a head leaving the grid.
fn apply_overflow_write(
    grid: &Grid,
    bx: usize,
    by: usize,
    ov: Option<u8>,
    head: Cell,
    gen: u64,
    buf: &mut WriteBuffer,
    written: &mut Vec<(u32, u32)>,
    outs: &mut Vec<(usize, usize, Cell)>,
)
    requires
        bx <= coord_limit(),
        by <= coord_limit(),
    ensures
        final(buf)@ == apply_writes(old(buf)@, overflow_value_effect(*grid, ov, bx as int, by as int, head, gen).0),
        final(written)@ == old(written)@ + write_keys(
            overflow_value_effect(*grid, ov, bx as int, by as int, head, gen).0,
        ),
        final(outs)@ == old(outs)@ + overflow_value_effect(*grid, ov, bx as int, by as int, head, gen).1,
{
    let ghost e = overflow_value_effect(*grid, ov, bx as int, by as int, head, gen);
    if grid.has_boundary(bx, by) {
        let cell = match ov {
            Some(v) => Cell { value: CellValue(CellType(v)), born_at: gen },
            None => head,
        };
        outs.push((bx, by, cell));
        assert(e.0 =~= Seq::<((u32, u32), Cell)>::empty());
        assert(written@ =~= old(written)@ + write_keys(e.0));
    } else {
        let v = match ov {
            Some(v) => v,
            None => head.value.0.0,
        };
        let cell = Cell { value: CellValue(CellType(v)), born_at: gen };
        proof {
            lemma_apply_writes_push(old(buf)@, Seq::empty(), ((bx as u32, by as u32), cell));
            assert(Seq::<((u32, u32), Cell)>::empty().push(((bx as u32, by as u32), cell)) =~= e.0);
        }
        buf.insert(bx as u32, by as u32, cell);
        written.push((bx as u32, by as u32));
        assert(written@ =~= old(written)@ + write_keys(e.0));
        assert(outs@ =~= old(outs)@ + e.1);
    }
}

/// Apply an overflow action at the clamped cell `(bx, by)`.
fn apply_overflow(
    grid: &Grid,
    action: OverflowAction,
    bx: usize,
    by: usize,
    head: Cell,
    gen: u64,
    buf: &mut WriteBuffer,
    written: &mut Vec<(u32, u32)>,
    outs: &mut Vec<(usize, usize, Cell)>,
)
    requires
        bx <= coord_limit(),
        by <= coord_limit(),
    ensures
        final(buf)@ == apply_writes(old(buf)@, overflow_effect(*grid, action, bx as int, by as int, head, gen).0),
        final(written)@ == old(written)@ + write_keys(overflow_effect(*grid, action, bx as int, by as int, head, gen).0),
        final(outs)@ == old(outs)@ + overflow_effect(*grid, action, bx as int, by as int, head, gen).1,
{
    match action {
        OverflowAction::Discard => {
            assert(written@ =~= old(written)@ + write_keys(Seq::<((u32, u32), Cell)>::empty()));
            assert(outs@ =~= old(outs)@ + Seq::<(usize, usize, Cell)>::empty());
        },
        OverflowAction::Write(v) => {
            let ov = if v != 0 {
                Some(v)
            } else {
                None
            };
            apply_overflow_write(grid, bx, by, ov, head, gen, buf, written, outs);
        },
        OverflowAction::WriteLiteral(v) => {
            apply_overflow_write(grid, bx, by, Some(v), head, gen, buf, written, outs);
        },
    }
}

/// `x` clamped into the grid side `w`.
fn clamp_to_side(x: i32, w: usize) -> (r: usize)
    requires
        w <= coord_limit(),
    ensures
        r == clamp_side(x as int, w as int),
        r <= coord_limit(),
{
    if x < 0 {
        0
    } else if w == 0 {
        0
    } else if (x as usize) > w - 1 {
        w - 1
    } else {
        x as usize
    }
}

/// Apply one shift of the head at `(cx, cy)`; with `feedback` or `memory`, the rule's
/// state follows the head when it leaves its origin for a cell inside the grid.
fn apply_shift_buffered(
    grid: &Grid,
    cx: i32,
    cy: i32,
    shift: ShiftSpec,
    rule: &Rule,
    rule_idx: usize,
    fb: &mut MatchMap<u64>,
    mem: &mut MemoryBuffers,
    buf: &mut WriteBuffer,
    written: &mut Vec<(u32, u32)>,
    outs: &mut Vec<(usize, usize, Cell)>,
    gen: u64,
)
    requires
        near(cx as int),
        near(cy as int),
        grid_small(*grid),
    ensures
        final(buf)@ == apply_writes(old(buf)@, shift_effect(*grid, *rule, shift, cx as int, cy as int, gen).0),
        final(written)@ == old(written)@ + write_keys(shift_effect(*grid, *rule, shift, cx as int, cy as int, gen).0),
        final(outs)@ == old(outs)@ + shift_effect(*grid, *rule, shift, cx as int, cy as int, gen).1,
        final(fb)@ == if rule.feedback is Some && shift_moves_state(*grid, shift, cx as int, cy as int) {
            relocated(
                old(fb)@,
                (cx as u32, cy as u32, rule_idx),
                (
                    shift_target(shift, cx as int, cy as int).0 as u32,
                    shift_target(shift, cx as int, cy as int).1 as u32,
                    rule_idx,
                ),
            )
        } else {
            old(fb)@
        },
        final(mem)@ == if rule.memory is Some && shift_moves_state(*grid, shift, cx as int, cy as int) {
            relocated(
                old(mem)@,
                (cx as u32, cy as u32, rule_idx),
                (
                    shift_target(shift, cx as int, cy as int).0 as u32,
                    shift_target(shift, cx as int, cy as int).1 as u32,
                    rule_idx,
                ),
            )
        } else {
            old(mem)@
        },
{
    let ghost e = shift_effect(*grid, *rule, shift, cx as int, cy as int, gen);
    let w = grid.width();
    let h = grid.height();
    if cx < 0 || cy < 0 || (cx as usize) >= w || (cy as usize) >= h {
        assert(written@ =~= old(written)@ + write_keys(e.0));
        assert(outs@ =~= old(outs)@ + e.1);
        return;
    }
    let head = match grid.get_cell(cx as usize, cy as usize) {
        Some(c) => c,
        None => {
            assert(written@ =~= old(written)@ + write_keys(e.0));
            assert(outs@ =~= old(outs)@ + e.1);
            return;
        },
    };
    let (dx, dy) = direction_delta(shift.direction);
    let steps = shift.steps as i32;
    assert(-1 <= dx <= 1 && -1 <= dy <= 1);
    assert(-0xFFFF <= dx * steps <= 0xFFFF && -0xFFFF <= dy * steps <= 0xFFFF) by (nonlinear_arith)
        requires
            -1 <= dx <= 1,
            -1 <= dy <= 1,
            0 <= steps <= 0xFFFF,
    ;
    let nx = cx + dx * steps;
    let ny = cy + dy * steps;
    let target_inside = nx >= 0 && ny >= 0 && (nx as usize) < w && (ny as usize) < h;
    let ghost clear: Seq<((u32, u32), Cell)> = if !shift.keep_source {
        seq![((cx as u32, cy as u32), Cell { value: default_value(), born_at: 0 })]
    } else {
        Seq::empty()
    };
    if !shift.keep_source {
        if rule.feedback.is_some() && target_inside {
            fb.relocate((cx as u32, cy as u32, rule_idx), (nx as u32, ny as u32, rule_idx));
        }
        if rule.memory.is_some() && target_inside {
            mem.relocate((cx as u32, cy as u32, rule_idx), (nx as u32, ny as u32, rule_idx));
        }
        proof {
            lemma_apply_writes_push(old(buf)@, Seq::empty(), ((cx as u32, cy as u32), Cell { value: default_value(), born_at: 0 }));
            assert(Seq::<((u32, u32), Cell)>::empty().push(((cx as u32, cy as u32), Cell { value: default_value(), born_at: 0 })) =~= clear);
        }
        buf.insert(cx as u32, cy as u32, Cell::empty());
        written.push((cx as u32, cy as u32));
        assert(written@ =~= old(written)@ + write_keys(clear));
    } else {
        assert(written@ =~= old(written)@ + write_keys(clear));
        assert(clear =~= Seq::<((u32, u32), Cell)>::empty());
    }
    let ghost b1 = buf@;
    let ghost w1 = written@;
    let ghost o1 = outs@;
    assert(b1 == apply_writes(old(buf)@, clear));
    if !shift.broadcast {
        let ghost rest = if target_inside {
            (seq![((nx as u32, ny as u32), head)], Seq::<(usize, usize, Cell)>::empty())
        } else {
            overflow_effect(
                *grid,
                rule.overflow,
                clamp_side(nx as int, w as int),
                clamp_side(ny as int, h as int),
                head,
                gen,
            )
        };
        if target_inside {
            proof {
                lemma_apply_writes_push(b1, Seq::empty(), ((nx as u32, ny as u32), head));
            }
            buf.insert(nx as u32, ny as u32, head);
            written.push((nx as u32, ny as u32));
            assert(buf@ == apply_writes(b1, rest.0));
            assert(written@ =~= w1 + write_keys(rest.0));
            assert(outs@ =~= o1 + rest.1);
        } else {
            let bx = clamp_to_side(nx, w);
            let by = clamp_to_side(ny, h);
            apply_overflow(grid, rule.overflow, bx, by, head, gen, buf, written, outs);
        }
        proof {
            assert(e == (clear + rest.0, rest.1));
            lemma_apply_writes_concat(old(buf)@, clear, rest.0);
            assert(written@ =~= old(written)@ + write_keys(e.0));
        }
        return;
    }
    let ghost full = broadcast_effect(*grid, rule.overflow, cx as int, cy as int, dx as int, dy as int, 1, steps as int, head, gen);
    let ghost mut acc_w: Seq<((u32, u32), Cell)> = Seq::empty();
    let ghost mut acc_o: Seq<(usize, usize, Cell)> = Seq::empty();
    let mut k: i32 = 1;
    while k <= steps
        invariant_except_break
            1 <= k <= steps + 1,
            (acc_w + broadcast_effect(*grid, rule.overflow, cx as int, cy as int, dx as int, dy as int, k as int, steps as int, head, gen).0,
             acc_o + broadcast_effect(*grid, rule.overflow, cx as int, cy as int, dx as int, dy as int, k as int, steps as int, head, gen).1) == full,
        invariant
            0 <= steps <= 0xFFFF,
            -1 <= dx <= 1,
            -1 <= dy <= 1,
            near(cx as int),
            near(cy as int),
            grid_small(*grid),
            w == grid.spec_width(),
            h == grid.spec_height(),
            buf@ == apply_writes(b1, acc_w),
            written@ == w1 + write_keys(acc_w),
            outs@ == o1 + acc_o,
        ensures
            (acc_w, acc_o) == full,
        decreases steps + 1 - k,
    {
        assert(-0xFFFF <= dx * k <= 0xFFFF && -0xFFFF <= dy * k <= 0xFFFF) by (nonlinear_arith)
            requires
                -1 <= dx <= 1,
                -1 <= dy <= 1,
                1 <= k <= 0xFFFF,
        ;
        let px = cx + dx * k;
        let py = cy + dy * k;
        let ghost be = broadcast_effect(*grid, rule.overflow, cx as int, cy as int, dx as int, dy as int, k as int, steps as int, head, gen);
        if px >= 0 && py >= 0 && (px as usize) < w && (py as usize) < h {
            proof {
                lemma_apply_writes_push(b1, acc_w, ((px as u32, py as u32), head));
                let nb = broadcast_effect(*grid, rule.overflow, cx as int, cy as int, dx as int, dy as int, k as int + 1, steps as int, head, gen);
                assert(be == (seq![((px as u32, py as u32), head)] + nb.0, nb.1));
                assert(acc_w + be.0 =~= acc_w.push(((px as u32, py as u32), head)) + nb.0);
                acc_w = acc_w.push(((px as u32, py as u32), head));
            }
            buf.insert(px as u32, py as u32, head);
            written.push((px as u32, py as u32));
        } else {
            let bx = clamp_to_side(px, w);
            let by = clamp_to_side(py, h);
            let ghost ob = buf@;
            let ghost ow = written@;
            let ghost oo = outs@;
            apply_overflow(grid, rule.overflow, bx, by, head, gen, buf, written, outs);
            proof {
                let ov = overflow_effect(*grid, rule.overflow, bx as int, by as int, head, gen);
                assert(be == ov);
                lemma_apply_writes_concat(b1, acc_w, ov.0);
                acc_w = acc_w + ov.0;
                acc_o = acc_o + ov.1;
                assert(written@ =~= w1 + write_keys(acc_w));
                assert(outs@ =~= o1 + acc_o);
            }
            break;
        }
        k += 1;
    }
    proof {
        if k > steps {
            assert(acc_w + Seq::<((u32, u32), Cell)>::empty() =~= acc_w);
            assert(acc_o + Seq::<(usize, usize, Cell)>::empty() =~= acc_o);
        }
        assert(e == (clear + full.0, full.1));
        lemma_apply_writes_concat(old(buf)@, clear, full.0);
        assert(written@ =~= old(written)@ + write_keys(e.0));
        assert(outs@ =~= old(outs)@ + e.1);
    }
}

// ---------------------------------------------------------------------------
// One rule applied at one match
// ---------------------------------------------------------------------------

/// `s` with its direction replaced by `over`, when given.
pub open spec fn effective_shift(s: ShiftSpec, over: Option<Direction>) -> ShiftSpec {
    match over {
        Some(d) => ShiftSpec { direction: d, steps: s.steps, broadcast: s.broadcast, keep_source: s.keep_source },
        None => s,
    }
}

/// Key of per-match state at `(x, y)`.
pub open spec fn state_key(x: int, y: int, idx: usize) -> (u32, u32, usize) {
    (x as u32, y as u32, idx)
}

/// Writes, outputs and moved state of the shifts `shifts` in order (each with its direction
/// replaced by `over`, when given).
pub open spec fn shifts_effect(
    g: Grid,
    rule: Rule,
    shifts: Seq<ShiftSpec>,
    cx: int,
    cy: int,
    idx: usize,
    gen: u64,
    over: Option<Direction>,
    fb: Map<(u32, u32, usize), u64>,
    mem: Map<(u32, u32, usize), Seq<RecordedValue>>,
) -> (Seq<((u32, u32), Cell)>, Seq<(usize, usize, Cell)>, Map<(u32, u32, usize), u64>, Map<
    (u32, u32, usize),
    Seq<RecordedValue>,
>)
    decreases shifts.len(),
{
    if shifts.len() == 0 {
        (Seq::empty(), Seq::empty(), fb, mem)
    } else {
        let p = shifts_effect(g, rule, shifts.drop_last(), cx, cy, idx, gen, over, fb, mem);
        let sh = effective_shift(shifts.last(), over);
        let e = shift_effect(g, rule, sh, cx, cy, gen);
        let mv = shift_moves_state(g, sh, cx, cy);
        let t = shift_target(sh, cx, cy);
        (
            p.0 + e.0,
            p.1 + e.1,
            if rule.feedback is Some && mv {
                relocated(p.2, state_key(cx, cy, idx), state_key(t.0, t.1, idx))
            } else {
                p.2
            },
            if rule.memory is Some && mv {
                relocated(p.3, state_key(cx, cy, idx), state_key(t.0, t.1, idx))
            } else {
                p.3
            },
        )
    }
}

/// The memory buffer of `key`, empty when missing.
pub open spec fn buffer_or_empty(mem: Map<(u32, u32, usize), Seq<RecordedValue>>, key: (u32, u32, usize)) -> Seq<
    RecordedValue,
> {
    if mem.contains_key(key) {
        mem[key]
    } else {
        Seq::empty()
    }
}

/// One level of a cascade watches its own memory buffer: for a `NeighborType` memory the
/// neighbour's type is observed, and the level goes on only if the buffer, as it was, was
/// full and equal to the pattern. Gives the buffers after and whether the level goes on.
pub open spec fn cascade_gate(
    g: Grid,
    rule: Rule,
    buf: Map<(u32, u32), Cell>,
    ox: int,
    oy: int,
    idx: usize,
    mem: Map<(u32, u32, usize), Seq<RecordedValue>>,
) -> (Map<(u32, u32, usize), Seq<RecordedValue>>, bool) {
    match rule.memory {
        Some(ms) => match ms.record_trigger {
            RecordTrigger::NeighborType(dir) => {
                let key = state_key(ox, oy, idx);
                let open = mem.contains_key(key) && mem[key].len() == ms.window && mem[key] == ms.match_pattern@;
                let nd = spec_direction_delta(dir);
                let nt = eff_value(g, buf, ox + nd.0, oy + nd.1).0;
                (mem.insert(key, spec_observe(buffer_or_empty(mem, key), RecordedValue::Type(nt), ms.window)), open)
            },
            RecordTrigger::RuleOutcome => (mem, true),
        },
        None => (mem, true),
    }
}

/// The cascade from level `k` to `max`: level `k` sits `k` steps along `(dx, dy)` from
/// `(cx, cy)`; while the pattern matches there (reading this tick's writes) and the memory
/// gate is open, the changes apply around it.
pub open spec fn cascade_effect(
    g: Grid,
    rule: Rule,
    cx: int,
    cy: int,
    dx: int,
    dy: int,
    idx: usize,
    k: int,
    max: int,
    gen: u64,
    buf: Map<(u32, u32), Cell>,
    written: Seq<(u32, u32)>,
    mem: Map<(u32, u32, usize), Seq<RecordedValue>>,
) -> (Map<(u32, u32), Cell>, Seq<(u32, u32)>, Map<(u32, u32, usize), Seq<RecordedValue>>)
    decreases max + 1 - k,
{
    if k < 1 || k > max {
        (buf, written, mem)
    } else {
        let ox = cx + dx * k;
        let oy = cy + dy * k;
        if !pattern_matches_eff(g, buf, rule.pattern@, ox, oy, rule.min_age, gen) {
            (buf, written, mem)
        } else {
            let gate = cascade_gate(g, rule, buf, ox, oy, idx, mem);
            if !gate.1 {
                (buf, written, gate.0)
            } else {
                let pb = pattern_values_eff(g, buf, rule.pattern@, ox, oy);
                let ws = all_change_writes(g, rule, pb, ox, oy, 0, 0, gen);
                cascade_effect(
                    g,
                    rule,
                    cx,
                    cy,
                    dx,
                    dy,
                    idx,
                    k + 1,
                    max,
                    gen,
                    apply_writes(buf, ws),
                    written + write_keys(ws),
                    gate.0,
                )
            }
        }
    }
}

/// Whether the feedback of `rule` has latched for the match at key `key`: its counter has
/// reached the timeout; the replacement direction then.
pub open spec fn feedback_override(rule: Rule, fb: Map<(u32, u32, usize), u64>, key: (u32, u32, usize)) -> Option<
    Direction,
> {
    match rule.feedback {
        Some(f) => if (if fb.contains_key(key) {
            fb[key]
        } else {
            0
        }) >= f.timeout {
            Some(f.new_direction)
        } else {
            None
        },
        None => None,
    }
}

/// The feedback counter of `key` counted up once (saturating).
pub open spec fn feedback_counted(rule: Rule, fb: Map<(u32, u32, usize), u64>, key: (u32, u32, usize)) -> Map<
    (u32, u32, usize),
    u64,
> {
    if rule.feedback is Some {
        let c: u64 = if fb.contains_key(key) {
            fb[key]
        } else {
            0
        };
        fb.insert(
            key,
            if c == u64::MAX {
                c
            } else {
                (c + 1) as u64
            },
        )
    } else {
        fb
    }
}

/// Writes of the changes of `rule` at a match: from every shift target (from the match
/// itself without shifts), with the pattern values read before the tick.
pub open spec fn match_change_writes(g: Grid, rule: Rule, cx: int, cy: int, gen: u64) -> Seq<((u32, u32), Cell)> {
    let pb = pattern_values(g, rule.pattern@, cx, cy);
    let t = spec_shift_targets(rule);
    if rule.changes@.len() == 0 {
        Seq::empty()
    } else if t.len() == 0 {
        all_change_writes(g, rule, pb, cx, cy, 0, 0, gen)
    } else {
        targets_change_writes(g, rule, pb, cx, cy, t, gen, t.len() as int)
    }
}

/// The effect of applying `rule` at match `m` on this tick's writes `buf`, feedback
/// counters `fb` and memory buffers `mem`: the writes after, the cells written in order,
/// the boundary outputs, the counters after and the buffers after. First the feedback
/// counter is read and counted; then every shift applies (with the replacement direction
/// once feedback has latched); then the changes; then the cascade of `recursion`.
pub open spec fn rule_effect(
    g: Grid,
    m: RuleMatch,
    rule: Rule,
    gen: u64,
    buf: Map<(u32, u32), Cell>,
    fb: Map<(u32, u32, usize), u64>,
    mem: Map<(u32, u32, usize), Seq<RecordedValue>>,
) -> (Map<(u32, u32), Cell>, Seq<(u32, u32)>, Seq<(usize, usize, Cell)>, Map<(u32, u32, usize), u64>, Map<
    (u32, u32, usize),
    Seq<RecordedValue>,
>) {
    let cx = m.x as int;
    let cy = m.y as int;
    let key = (m.x, m.y, m.rule_idx);
    let over = feedback_override(rule, fb, key);
    let fb1 = feedback_counted(rule, fb, key);
    let sh = flatten_groups(rule.shifts@);
    let p1 = shifts_effect(g, rule, sh, cx, cy, m.rule_idx, gen, over, fb1, mem);
    let w2 = match_change_writes(g, rule, cx, cy, gen);
    let buf2 = apply_writes(buf, p1.0 + w2);
    let written2 = write_keys(p1.0 + w2);
    match rule.recursion {
        None => (buf2, written2, p1.1, p1.2, p1.3),
        Some(r) => {
            let d = spec_direction_delta(r.direction);
            let c = cascade_effect(g, rule, cx, cy, d.0, d.1, m.rule_idx, 1, r.max_depth as int, gen, buf2, written2, p1.3);
            (c.0, c.1, p1.1, p1.2, c.2)
        },
    }
}

/// Bounding box of written cells: `(min x, max x + 1, min y, max y + 1)`, or
/// `(u32::MAX, 0, u32::MAX, 0)` for none.
pub open spec fn region_bbox(w: Seq<(u32, u32)>) -> (u32, u32, u32, u32)
    decreases w.len(),
{
    if w.len() == 0 {
        (u32::MAX, 0, u32::MAX, 0)
    } else {
        let p = region_bbox(w.drop_last());
        let c = w.last();
        let x1: u32 = if c.0 == u32::MAX {
            u32::MAX
        } else {
            (c.0 + 1) as u32
        };
        let y1: u32 = if c.1 == u32::MAX {
            u32::MAX
        } else {
            (c.1 + 1) as u32
        };
        (
            if c.0 < p.0 {
                c.0
            } else {
                p.0
            },
            if x1 > p.1 {
                x1
            } else {
                p.1
            },
            if c.1 < p.2 {
                c.1
            } else {
                p.2
            },
            if y1 > p.3 {
                y1
            } else {
                p.3
            },
        )
    }
}

/// The region of written cells `w`.
pub open spec fn region_of(r: AffectedRegion, w: Seq<(u32, u32)>, has_changes: bool) -> bool {
    &&& r.written_cells@ == w
    &&& (r.x_start, r.x_end, r.y_start, r.y_end) == region_bbox(w)
    &&& r.has_changes == has_changes
}

/// The region of written cells, with its bounding box.
fn region_from(written: Vec<(u32, u32)>, has_changes: bool) -> (r: AffectedRegion)
    ensures
        region_of(r, written@, has_changes),
{
    let mut xs: u32 = u32::MAX;
    let mut xe: u32 = 0;
    let mut ys: u32 = u32::MAX;
    let mut ye: u32 = 0;
    let mut k: usize = 0;
    while k < written.len()
        invariant
            k <= written@.len(),
            (xs, xe, ys, ye) == region_bbox(written@.take(k as int)),
        decreases written@.len() - k,
    {
        let (x, y) = written[k];
        assert(written@.take(k as int + 1).drop_last() =~= written@.take(k as int));
        let x1 = if x == u32::MAX {
            u32::MAX
        } else {
            x + 1
        };
        let y1 = if y == u32::MAX {
            u32::MAX
        } else {
            y + 1
        };
        if x < xs {
            xs = x;
        }
        if x1 > xe {
            xe = x1;
        }
        if y < ys {
            ys = y;
        }
        if y1 > ye {
            ye = y1;
        }
        k += 1;
    }
    assert(written@.take(k as int) =~= written@);
    AffectedRegion { x_start: xs, x_end: xe, y_start: ys, y_end: ye, has_changes, written_cells: written }
}

/// The level-`k` anchor of a cascade, `k` steps along `(dx, dy)`.
fn cascade_anchor(cx: i32, cy: i32, dx: i32, dy: i32, k: i32) -> (r: (i32, i32))
    requires
        near(cx as int) && -0x2000_0000 <= cx <= 0x2000_0000,
        -0x2000_0000 <= cy <= 0x2000_0000,
        -1 <= dx <= 1,
        -1 <= dy <= 1,
        1 <= k <= 255,
    ensures
        r.0 == cx + dx * k,
        r.1 == cy + dy * k,
        near(r.0 as int),
        near(r.1 as int),
{
    assert(-255 <= dx * k <= 255 && -255 <= dy * k <= 255) by (nonlinear_arith)
        requires
            -1 <= dx <= 1,
            -1 <= dy <= 1,
            1 <= k <= 255,
    ;
    (cx + dx * k, cy + dy * k)
}

/// Apply `rule` at match `m`: shifts, then changes, then the cascade of `recursion`. Writes go
/// to `buf`, boundary outputs to `outs`; the region of written cells is returned.
fn apply_rule_buffered(
    grid: &Grid,
    m: RuleMatch,
    rule: &Rule,
    targets: &Vec<(i32, i32)>,
    gen: u64,
    fb: &mut MatchMap<u64>,
    mem: &mut MemoryBuffers,
    buf: &mut WriteBuffer,
    outs: &mut Vec<(usize, usize, Cell)>,
) -> (region: AffectedRegion)
    requires
        grid_small(*grid),
        m.x <= coord_limit(),
        m.y <= coord_limit(),
        rule_in_bounds(*rule),
        targets@ == spec_shift_targets(*rule),
    ensures
        ({
            let e = rule_effect(*grid, m, *rule, gen, old(buf)@, old(fb)@, old(mem)@);
            &&& final(buf)@ == e.0
            &&& region_of(region, e.1, rule.changes@.len() > 0)
            &&& final(outs)@ == old(outs)@ + e.2
            &&& final(fb)@ == e.3
            &&& final(mem)@ == e.4
        }),
{
    let cx = m.x as i32;
    let cy = m.y as i32;
    let key = (m.x, m.y, m.rule_idx);
    let ghost buf0 = buf@;
    let ghost outs0 = outs@;
    let ghost fb0 = fb@;
    let ghost mem0 = mem@;
    let mut written: Vec<(u32, u32)> = Vec::new();
    let over = match rule.feedback {
        Some(f) => {
            let c = match fb.get(key) {
                Some(c) => c,
                None => 0,
            };
            let over = if c >= f.timeout {
                Some(f.new_direction)
            } else {
                None
            };
            let next = if c == u64::MAX {
                c
            } else {
                c + 1
            };
            fb.set(key, next);
            over
        },
        None => None,
    };
    assert(over == feedback_override(*rule, fb0, key));
    assert(fb@ == feedback_counted(*rule, fb0, key));
    let ghost fb1 = fb@;
    // Phase 1: shifts.
    let ng = rule.shifts.len();
    let ghost mut done: Seq<ShiftSpec> = Seq::empty();
    let mut gi: usize = 0;
    while gi < ng
        invariant
            ng == rule.shifts@.len(),
            gi <= ng,
            grid_small(*grid),
            m.x <= coord_limit(),
            m.y <= coord_limit(),
            cx == m.x as i32,
            cy == m.y as i32,
            cx as int == m.x as int,
            cy as int == m.y as int,
            done == flatten_groups(rule.shifts@.take(gi as int)),
            ({
                let p = shifts_effect(*grid, *rule, done, cx as int, cy as int, m.rule_idx, gen, over, fb1, mem0);
                &&& buf@ == apply_writes(buf0, p.0)
                &&& written@ == write_keys(p.0)
                &&& outs@ == outs0 + p.1
                &&& fb@ == p.2
                &&& mem@ == p.3
            }),
        decreases ng - gi,
    {
        let group = &rule.shifts[gi];
        let ns = group.len();
        let mut k: usize = 0;
        while k < ns
            invariant
                ns == group@.len(),
                k <= ns,
                gi < ng,
                ng == rule.shifts@.len(),
                *group == rule.shifts@[gi as int],
                grid_small(*grid),
                m.x <= coord_limit(),
                m.y <= coord_limit(),
                cx as int == m.x as int,
                cy as int == m.y as int,
                done == flatten_groups(rule.shifts@.take(gi as int)) + group@.take(k as int),
                ({
                    let p = shifts_effect(*grid, *rule, done, cx as int, cy as int, m.rule_idx, gen, over, fb1, mem0);
                    &&& buf@ == apply_writes(buf0, p.0)
                    &&& written@ == write_keys(p.0)
                    &&& outs@ == outs0 + p.1
                    &&& fb@ == p.2
                    &&& mem@ == p.3
                }),
            decreases ns - k,
        {
            let declared = group[k];
            let shift = match over {
                Some(d) => ShiftSpec {
                    direction: d,
                    steps: declared.steps,
                    broadcast: declared.broadcast,
                    keep_source: declared.keep_source,
                },
                None => declared,
            };
            let ghost p = shifts_effect(*grid, *rule, done, cx as int, cy as int, m.rule_idx, gen, over, fb1, mem0);
            let ghost bw = buf@;
            let ghost ww = written@;
            apply_shift_buffered(grid, cx, cy, shift, rule, m.rule_idx, fb, mem, buf, &mut written, outs, gen);
            proof {
                let nd = done.push(declared);
                assert(nd.drop_last() =~= done);
                let e = shift_effect(*grid, *rule, shift, cx as int, cy as int, gen);
                assert(shift == effective_shift(declared, over));
                lemma_apply_writes_concat(buf0, p.0, e.0);
                assert(written@ =~= write_keys(p.0 + e.0));
                assert(outs@ =~= outs0 + (p.1 + e.1));
                assert(flatten_groups(rule.shifts@.take(gi as int)) + group@.take(k as int + 1) =~= nd);
                done = nd;
            }
            k += 1;
        }
        proof {
            assert(group@.take(k as int) =~= group@);
            let t = rule.shifts@.take(gi as int + 1);
            assert(t.drop_last() =~= rule.shifts@.take(gi as int));
        }
        gi += 1;
    }
    proof {
        assert(rule.shifts@.take(gi as int) =~= rule.shifts@);
    }
    let ghost p1 = shifts_effect(*grid, *rule, done, cx as int, cy as int, m.rule_idx, gen, over, fb1, mem0);
    // Phase 2: changes, from every shift target (from the match without shifts).
    let pb = read_pattern_buffer(grid, &rule.pattern, cx, cy);
    let ghost w2 = match_change_writes(*grid, *rule, cx as int, cy as int, gen);
    let ghost b1 = buf@;
    let ghost wr1 = written@;
    if rule.changes.len() > 0 {
        if targets.len() == 0 {
            apply_changes_at(rule, &pb, cx, cy, 0, 0, grid, gen, buf, &mut written);
        } else {
            proof {
                assert forall|t: int| 0 <= t < targets@.len() implies -0x10000 <= (#[trigger] targets@[t]).0 <= 0x10000
                    && -0x10000 <= targets@[t].1 <= 0x10000 by {
                    lemma_shift_targets_small(*rule, t);
                }
            }
            apply_changes_at_targets(rule, &pb, cx, cy, targets, grid, gen, buf, &mut written);
        }
    } else {
        assert(w2 =~= Seq::<((u32, u32), Cell)>::empty());
        assert(written@ =~= wr1 + write_keys(w2));
    }
    proof {
        lemma_apply_writes_concat(buf0, p1.0, w2);
        assert(written@ =~= write_keys(p1.0 + w2));
    }
    // Phase 3: the cascade of `recursion`.
    match rule.recursion {
        None => {},
        Some(r) => {
            let (ddx, ddy) = direction_delta(r.direction);
            let ghost bstart = buf@;
            let ghost wstart = written@;
            let ghost mstart = mem@;
            let ghost full = cascade_effect(*grid, *rule, cx as int, cy as int, ddx as int, ddy as int, m.rule_idx, 1, r.max_depth as int, gen, bstart, wstart, mstart);
            let mut k: i32 = 1;
            while k <= r.max_depth as i32
                invariant_except_break
                    1 <= k <= r.max_depth as i32 + 1,
                    cascade_effect(*grid, *rule, cx as int, cy as int, ddx as int, ddy as int, m.rule_idx, k as int, r.max_depth as int, gen, buf@, written@, mem@) == full,
                invariant
                    -1 <= ddx <= 1,
                    -1 <= ddy <= 1,
                    grid_small(*grid),
                    rule_in_bounds(*rule),
                    m.x <= coord_limit(),
                    m.y <= coord_limit(),
                    cx as int == m.x as int,
                    cy as int == m.y as int,
                ensures
                    (buf@, written@, mem@) == full,
                decreases r.max_depth as i32 + 1 - k,
            {
                let (ox, oy) = cascade_anchor(cx, cy, ddx, ddy, k);
                if !pattern_matches_effective(grid, buf, &rule.pattern, ox, oy, rule.min_age, gen) {
                    break;
                }
                let ghost gate = cascade_gate(*grid, *rule, buf@, ox as int, oy as int, m.rule_idx, mem@);
                let mut open = true;
                match &rule.memory {
                    Some(ms) => match ms.record_trigger {
                        RecordTrigger::NeighborType(dir) => {
                            let lkey = (ox as u32, oy as u32, m.rule_idx);
                            open = mem.gate_open(lkey, ms.window, &ms.match_pattern);
                            let (ndx, ndy) = direction_delta(dir);
                            let nt = read_cell_effective(grid, buf, ox + ndx, oy + ndy).0;
                            mem.observe(lkey, RecordedValue::Type(nt), ms.window);
                        },
                        RecordTrigger::RuleOutcome => {},
                    },
                    None => {},
                }
                assert(mem@ == gate.0);
                assert(open == gate.1);
                if !open {
                    break;
                }
                let level_pb = read_pattern_buffer_effective(grid, buf, &rule.pattern, ox, oy);
                let ghost ws = all_change_writes(*grid, *rule, level_pb@, ox as int, oy as int, 0, 0, gen);
                let ghost bb = buf@;
                let ghost wb = written@;
                apply_changes_at(rule, &level_pb, ox, oy, 0, 0, grid, gen, buf, &mut written);
                k += 1;
            }
        },
    }
    region_from(written, rule.changes.len() > 0)
}

// ---------------------------------------------------------------------------
// Content-addressable search
// ---------------------------------------------------------------------------

/// Chebyshev distance from `(cx, cy)`.
pub open spec fn cheb(x: int, y: int, cx: int, cy: int) -> int {
    let ax = if x >= cx {
        x - cx
    } else {
        cx - x
    };
    let ay = if y >= cy {
        y - cy
    } else {
        cy - y
    };
    if ax >= ay {
        ax
    } else {
        ay
    }
}

/// `(x, y)` is a cell of type `target` within Chebyshev radius `r` of `(cx, cy)`, other than
/// `(cx, cy)` itself, at non-negative coordinates (and stored in the grid when
/// `stored_only`), read as this tick's writes left it.
pub open spec fn cam_candidate(
    g: Grid,
    buf: Map<(u32, u32), Cell>,
    stored_only: bool,
    cx: int,
    cy: int,
    r: int,
    target: CellType,
    x: int,
    y: int,
) -> bool {
    &&& cx - r <= x <= cx + r
    &&& cy - r <= y <= cy + r
    &&& x >= 0
    &&& y >= 0
    &&& !(x == cx && y == cy)
    &&& (!stored_only || g.spec_in_grid(x, y))
    &&& eff_value(g, buf, x, y).0 == target
}

/// `a` comes no later than `b` by distance, then row, then column.
pub open spec fn cam_le(cx: int, cy: int, a: (int, int), b: (int, int)) -> bool {
    let da = cheb(a.0, a.1, cx, cy);
    let db = cheb(b.0, b.1, cx, cy);
    da < db || (da == db && (a.1 < b.1 || (a.1 == b.1 && a.0 <= b.0)))
}

/// `p` is the nearest candidate: a candidate that comes no later than any other.
pub open spec fn is_nearest(
    g: Grid,
    buf: Map<(u32, u32), Cell>,
    stored_only: bool,
    cx: int,
    cy: int,
    r: int,
    target: CellType,
    p: (int, int),
) -> bool {
    &&& cam_candidate(g, buf, stored_only, cx, cy, r, target, p.0, p.1)
    &&& forall|x: int, y: int|
        #[trigger] cam_candidate(g, buf, stored_only, cx, cy, r, target, x, y) ==> cam_le(cx, cy, p, (x, y))
}

/// The nearest candidate, if any.
pub open spec fn nearest(
    g: Grid,
    buf: Map<(u32, u32), Cell>,
    stored_only: bool,
    cx: int,
    cy: int,
    r: int,
    target: CellType,
) -> Option<(int, int)> {
    if exists|p: (int, int)| is_nearest(g, buf, stored_only, cx, cy, r, target, p) {
        Some(choose|p: (int, int)| is_nearest(g, buf, stored_only, cx, cy, r, target, p))
    } else {
        None
    }
}

/// The nearest cell of type `target` within Chebyshev radius `radius` of `(cx, cy)` (by
/// distance, then row, then column), read as this tick's writes left the grid.
pub(crate) fn search_nearest_effective(
    grid: &Grid,
    buf: &WriteBuffer,
    stored_only: bool,
    cx: i32,
    cy: i32,
    radius: u8,
    target: CellType,
) -> (r: Option<(i32, i32)>)
    requires
        near(cx as int),
        near(cy as int),
    ensures
        match r {
            Some(p) => nearest(*grid, buf@, stored_only, cx as int, cy as int, radius as int, target) == Some(
                (p.0 as int, p.1 as int),
            ),
            None => nearest(*grid, buf@, stored_only, cx as int, cy as int, radius as int, target) is None,
        },
{
    let ghost g = *grid;
    let ghost b = buf@;
    let ghost ci = cx as int;
    let ghost cj = cy as int;
    let ghost ri = radius as int;
    let rr = radius as i32;
    let mut best: Option<(i32, i32, i32)> = None;
    let mut dy: i32 = -rr;
    while dy <= rr
        invariant
            g == *grid,
            b == buf@,
            ci == cx as int,
            cj == cy as int,
            ri == radius as int,
            near(cx as int),
            near(cy as int),
            rr == radius as i32,
            -rr <= dy <= rr + 1,
            match best {
                Some(t) => cam_candidate(g, b, stored_only, ci, cj, ri, target, t.2 as int, t.1 as int) && t.0 as int
                    == cheb(t.2 as int, t.1 as int, ci, cj) && t.1 - cy < dy,
                None => true,
            },
            forall|x: int, y: int|
                y - cj < dy && #[trigger] cam_candidate(g, b, stored_only, ci, cj, ri, target, x, y) ==> match best {
                    Some(t) => cam_le(ci, cj, (t.2 as int, t.1 as int), (x, y)),
                    None => false,
                },
        decreases rr + 1 - dy,
    {
        let ny = cy + dy;
        let mut dx: i32 = -rr;
        while dx <= rr
            invariant
                g == *grid,
                b == buf@,
                ci == cx as int,
                cj == cy as int,
                ri == radius as int,
                near(cx as int),
                near(cy as int),
                rr == radius as i32,
                -rr <= dy <= rr,
                ny == cy + dy,
                -rr <= dx <= rr + 1,
                match best {
                    Some(t) => cam_candidate(g, b, stored_only, ci, cj, ri, target, t.2 as int, t.1 as int) && t.0 as int
                        == cheb(t.2 as int, t.1 as int, ci, cj) && t.1 - cy <= dy,
                    None => true,
                },
                forall|x: int, y: int|
                    (y - cj < dy || (y - cj == dy && x - ci < dx)) && #[trigger] cam_candidate(
                        g,
                        b,
                        stored_only,
                        ci,
                        cj,
                        ri,
                        target,
                        x,
                        y,
                    ) ==> match best {
                        Some(t) => cam_le(ci, cj, (t.2 as int, t.1 as int), (x, y)),
                        None => false,
                    },
            decreases rr + 1 - dx,
        {
            let nx = cx + dx;
            let ok = if ny < 0 || nx < 0 || (nx == cx && ny == cy) {
                false
            } else if stored_only && grid.get_cell(nx as usize, ny as usize).is_none() {
                false
            } else {
                read_cell_effective(grid, buf, nx, ny).0 == target
            };
            proof {
                if !ok {
                    assert(!cam_candidate(g, b, stored_only, ci, cj, ri, target, nx as int, ny as int));
                } else {
                    assert(cam_candidate(g, b, stored_only, ci, cj, ri, target, nx as int, ny as int));
                }
            }
            if ok {
                let ax = if dx >= 0 {
                    dx
                } else {
                    -dx
                };
                let ay = if dy >= 0 {
                    dy
                } else {
                    -dy
                };
                let dist = if ax >= ay {
                    ax
                } else {
                    ay
                };
                assert(dist as int == cheb(nx as int, ny as int, ci, cj));
                let better = match best {
                    None => true,
                    Some(t) => dist < t.0 || (dist == t.0 && (ny < t.1 || (ny == t.1 && nx < t.2))),
                };
                if better {
                    best = Some((dist, ny, nx));
                }
            }
            dx += 1;
        }
        dy += 1;
    }
    match best {
        None => {
            proof {
                assert forall|p: (int, int)| !is_nearest(g, b, stored_only, ci, cj, ri, target, p) by {
                    if cam_candidate(g, b, stored_only, ci, cj, ri, target, p.0, p.1) {
                        assert(p.1 - cj < dy);
                    }
                }
            }
            None
        },
        Some(t) => {
            let ghost p = (t.2 as int, t.1 as int);
            proof {
                assert forall|x: int, y: int| #[trigger] cam_candidate(g, b, stored_only, ci, cj, ri, target, x, y) implies cam_le(
                    ci,
                    cj,
                    p,
                    (x, y),
                ) by {
                    assert(y - cj < dy);
                }
                assert(is_nearest(g, b, stored_only, ci, cj, ri, target, p));
                let q = choose|q: (int, int)| is_nearest(g, b, stored_only, ci, cj, ri, target, q);
                assert(cam_le(ci, cj, p, q));
                assert(cam_le(ci, cj, q, p));
                assert(q == p);
            }
            Some((t.2, t.1))
        },
    }
}

// ---------------------------------------------------------------------------
// Content-addressable rules applied
// ---------------------------------------------------------------------------

/// Cascade of magnets of a `cam` rule with `recursion`: level `k` sits `k` steps along
/// `(dx, dy)`; while that cell (as this tick's writes left it) has the head type and a
/// target lies within its own radius, the nearest target is cleared and the level cell
/// takes the target type.
pub open spec fn cam_cascade(
    g: Grid,
    cam: CamSearch,
    cx: int,
    cy: int,
    dx: int,
    dy: int,
    k: int,
    max: int,
    gen: u64,
    head: CellType,
    buf: Map<(u32, u32), Cell>,
    written: Seq<(u32, u32)>,
) -> (Map<(u32, u32), Cell>, Seq<(u32, u32)>)
    decreases max + 1 - k,
{
    if k < 1 || k > max {
        (buf, written)
    } else {
        let lx = cx + dx * k;
        let ly = cy + dy * k;
        if lx < 0 || ly < 0 {
            (buf, written)
        } else if eff_value(g, buf, lx, ly).0 != head {
            (buf, written)
        } else {
            match nearest(g, buf, false, lx, ly, cam.radius as int, cam.target_type) {
                None => (buf, written),
                Some(f) => {
                    let ws = seq![
                        ((f.0 as u32, f.1 as u32), Cell { value: default_value(), born_at: gen }),
                        ((lx as u32, ly as u32), Cell { value: CellValue(cam.target_type), born_at: gen }),
                    ];
                    cam_cascade(g, cam, cx, cy, dx, dy, k + 1, max, gen, head, apply_writes(buf, ws), written + write_keys(ws))
                },
            }
        }
    }
}

/// Effect of a `cam` match whose target was found at `found`: the target is cleared and the
/// magnet takes the target type; with `recursion`, the cascade of magnets follows.
pub open spec fn cam_effect(
    g: Grid,
    m: RuleMatch,
    rule: Rule,
    cam: CamSearch,
    found: (u32, u32),
    gen: u64,
    buf: Map<(u32, u32), Cell>,
) -> (Map<(u32, u32), Cell>, Seq<(u32, u32)>) {
    let ws = seq![
        (found, Cell { value: default_value(), born_at: gen }),
        ((m.x, m.y), Cell { value: CellValue(cam.target_type), born_at: gen }),
    ];
    let b1 = apply_writes(buf, ws);
    let w1 = write_keys(ws);
    match rule.recursion {
        None => (b1, w1),
        Some(r) => {
            let d = spec_direction_delta(r.direction);
            cam_cascade(g, cam, m.x as int, m.y as int, d.0, d.1, 1, r.max_depth as int, gen, rule.id@[0], b1, w1)
        },
    }
}

/// Tight bounding box of written cells: `(min x, max x, min y, max y)`.
pub open spec fn tight_bbox(w: Seq<(u32, u32)>) -> (u32, u32, u32, u32)
    decreases w.len(),
{
    if w.len() == 0 {
        (u32::MAX, 0, u32::MAX, 0)
    } else {
        let p = tight_bbox(w.drop_last());
        let c = w.last();
        (
            if c.0 < p.0 {
                c.0
            } else {
                p.0
            },
            if c.0 > p.1 {
                c.0
            } else {
                p.1
            },
            if c.1 < p.2 {
                c.1
            } else {
                p.2
            },
            if c.1 > p.3 {
                c.1
            } else {
                p.3
            },
        )
    }
}

/// The region of the cells a `cam` match wrote, with its tight bounding box.
pub open spec fn cam_region_of(r: AffectedRegion, w: Seq<(u32, u32)>) -> bool {
    &&& r.written_cells@ == w
    &&& (r.x_start, r.x_end, r.y_start, r.y_end) == tight_bbox(w)
    &&& !r.has_changes
}

/// The region of the cells a `cam` match wrote.
fn cam_region_from(written: Vec<(u32, u32)>) -> (r: AffectedRegion)
    ensures
        cam_region_of(r, written@),
{
    let mut xs: u32 = u32::MAX;
    let mut xe: u32 = 0;
    let mut ys: u32 = u32::MAX;
    let mut ye: u32 = 0;
    let mut k: usize = 0;
    while k < written.len()
        invariant
            k <= written@.len(),
            (xs, xe, ys, ye) == tight_bbox(written@.take(k as int)),
        decreases written@.len() - k,
    {
        let (x, y) = written[k];
        assert(written@.take(k as int + 1).drop_last() =~= written@.take(k as int));
        if x < xs {
            xs = x;
        }
        if x > xe {
            xe = x;
        }
        if y < ys {
            ys = y;
        }
        if y > ye {
            ye = y;
        }
        k += 1;
    }
    assert(written@.take(k as int) =~= written@);
    AffectedRegion { x_start: xs, x_end: xe, y_start: ys, y_end: ye, has_changes: false, written_cells: written }
}

/// Apply a `cam` match whose target was found at `found`.
fn apply_cam_buffered(
    grid: &Grid,
    m: RuleMatch,
    rule: &Rule,
    cam: CamSearch,
    found: (u32, u32),
    gen: u64,
    buf: &mut WriteBuffer,
) -> (region: AffectedRegion)
    requires
        grid_small(*grid),
        m.x <= coord_limit(),
        m.y <= coord_limit(),
        rule.recursion is Some ==> rule.id@.len() > 0,
    ensures
        final(buf)@ == cam_effect(*grid, m, *rule, cam, found, gen, old(buf)@).0,
        cam_region_of(region, cam_effect(*grid, m, *rule, cam, found, gen, old(buf)@).1),
{
    let c0 = Cell { value: CellValue(CellType(0)), born_at: gen };
    let c1 = Cell { value: CellValue(cam.target_type), born_at: gen };
    let ghost ws = seq![(found, c0), ((m.x, m.y), c1)];
    proof {
        lemma_apply_writes_push(old(buf)@, Seq::empty(), (found, c0));
        lemma_apply_writes_push(old(buf)@, seq![(found, c0)], ((m.x, m.y), c1));
        assert(Seq::<((u32, u32), Cell)>::empty().push((found, c0)) =~= seq![(found, c0)]);
        assert(seq![(found, c0)].push(((m.x, m.y), c1)) =~= ws);
    }
    buf.insert(found.0, found.1, c0);
    buf.insert(m.x, m.y, c1);
    let mut written: Vec<(u32, u32)> = Vec::new();
    written.push(found);
    written.push((m.x, m.y));
    assert(written@ =~= write_keys(ws));
    match rule.recursion {
        None => {},
        Some(r) => {
            let head = rule.id[0];
            let (ddx, ddy) = direction_delta(r.direction);
            let cx = m.x as i32;
            let cy = m.y as i32;
            let ghost full = cam_cascade(*grid, cam, m.x as int, m.y as int, ddx as int, ddy as int, 1, r.max_depth as int, gen, head, buf@, written@);
            let mut k: i32 = 1;
            while k <= r.max_depth as i32
                invariant_except_break
                    1 <= k <= r.max_depth as i32 + 1,
                    cam_cascade(*grid, cam, m.x as int, m.y as int, ddx as int, ddy as int, k as int, r.max_depth as int, gen, head, buf@, written@) == full,
                invariant
                    -1 <= ddx <= 1,
                    -1 <= ddy <= 1,
                    grid_small(*grid),
                    m.x <= coord_limit(),
                    m.y <= coord_limit(),
                    cx as int == m.x as int,
                    cy as int == m.y as int,
                ensures
                    (buf@, written@) == full,
                decreases r.max_depth as i32 + 1 - k,
            {
                let (lx, ly) = cascade_anchor(cx, cy, ddx, ddy, k);
                if lx < 0 || ly < 0 {
                    break;
                }
                if read_cell_effective(grid, buf, lx, ly).0 != head {
                    break;
                }
                let f = match search_nearest_effective(grid, buf, false, lx, ly, cam.radius, cam.target_type) {
                    Some(f) => f,
                    None => {
                        break;
                    },
                };
                let ghost lws = seq![
                    ((f.0 as u32, f.1 as u32), Cell { value: default_value(), born_at: gen }),
                    ((lx as u32, ly as u32), Cell { value: CellValue(cam.target_type), born_at: gen }),
                ];
                let ghost b0 = buf@;
                let ghost w0 = written@;
                proof {
                    lemma_apply_writes_push(b0, Seq::empty(), lws[0]);
                    lemma_apply_writes_push(b0, seq![lws[0]], lws[1]);
                    assert(Seq::<((u32, u32), Cell)>::empty().push(lws[0]) =~= seq![lws[0]]);
                    assert(seq![lws[0]].push(lws[1]) =~= lws);
                }
                buf.insert(f.0 as u32, f.1 as u32, Cell { value: CellValue(CellType(0)), born_at: gen });
                buf.insert(lx as u32, ly as u32, Cell { value: CellValue(cam.target_type), born_at: gen });
                written.push((f.0 as u32, f.1 as u32));
                written.push((lx as u32, ly as u32));
                assert(written@ =~= w0 + write_keys(lws));
                k += 1;
            }
        },
    }
    cam_region_from(written)
}

// ---------------------------------------------------------------------------
// All accepted matches of a tick
// ---------------------------------------------------------------------------

/// Written cells of one applied match, whether its rule has changes, and whether it was a
/// `cam` match (whose region has a tight bounding box).
pub type RegionSpec = (Seq<(u32, u32)>, bool, bool);

/// `r` is the region `spec` describes.
pub open spec fn region_matches(r: AffectedRegion, spec: RegionSpec) -> bool {
    if spec.2 {
        cam_region_of(r, spec.0)
    } else {
        region_of(r, spec.0, spec.1)
    }
}

/// The rule of match `m` in the index, if its position exists.
pub open spec fn match_rule(index: RuleIndex, m: RuleMatch) -> Option<Rule> {
    let rules = index.rules_of(m.head.0 as int);
    if m.rule_idx < rules.len() {
        Some(rules[m.rule_idx as int])
    } else {
        None
    }
}

/// Effect of applying `matches` in order: each match whose rule exists applies it (a `cam`
/// rule with the target found for it in `cams`); matches read the grid before the tick and
/// this tick's earlier writes only where a cascade does. Gives the writes, the regions, the
/// boundary outputs, the feedback counters and the memory buffers after.
pub open spec fn matches_effect(
    g: Grid,
    matches: Seq<RuleMatch>,
    index: RuleIndex,
    cams: Map<(u32, u32, usize), (u32, u32)>,
    gen: u64,
    buf: Map<(u32, u32), Cell>,
    fb: Map<(u32, u32, usize), u64>,
    mem: Map<(u32, u32, usize), Seq<RecordedValue>>,
) -> (Map<(u32, u32), Cell>, Seq<RegionSpec>, Seq<(usize, usize, Cell)>, Map<(u32, u32, usize), u64>, Map<
    (u32, u32, usize),
    Seq<RecordedValue>,
>)
    decreases matches.len(),
{
    if matches.len() == 0 {
        (buf, Seq::empty(), Seq::empty(), fb, mem)
    } else {
        let p = matches_effect(g, matches.drop_last(), index, cams, gen, buf, fb, mem);
        let m = matches.last();
        match match_rule(index, m) {
            None => p,
            Some(rule) => match rule.cam {
                Some(cam) => {
                    let ce = cam_effect(g, m, rule, cam, cams[(m.x, m.y, m.rule_idx)], gen, p.0);
                    (ce.0, p.1.push((ce.1, false, true)), p.2, p.3, p.4)
                },
                None => {
                    let re = rule_effect(g, m, rule, gen, p.0, p.3, p.4);
                    (re.0, p.1.push((re.1, rule.changes@.len() > 0, false)), p.2 + re.2, re.3, re.4)
                },
            },
        }
    }
}

/// Cells output at `(a, b)`, in order.
pub open spec fn cells_at(outs: Seq<(usize, usize, Cell)>, a: usize, b: usize) -> Seq<Cell>
    decreases outs.len(),
{
    if outs.len() == 0 {
        Seq::empty()
    } else if outs.last().0 == a && outs.last().1 == b {
        cells_at(outs.drop_last(), a, b).push(outs.last().2)
    } else {
        cells_at(outs.drop_last(), a, b)
    }
}

/// Queues after enqueueing `cells` in order on channel 0.
pub open spec fn enqueue_all(qs: Seq<(u32, Seq<Cell>)>, cells: Seq<Cell>, max_queue: Option<u8>) -> Seq<
    (u32, Seq<Cell>),
>
    decreases cells.len(),
{
    if cells.len() == 0 {
        qs
    } else {
        spec_enqueue(enqueue_all(qs, cells.drop_last(), max_queue), 0, cells.last(), max_queue)
    }
}

/// `gn` is `go` with the outputs `outs` enqueued on channel 0 of the boundary buffers they
/// reach: buffers stay where they are, with the same direction and capacity.
pub open spec fn outputs_enqueued(gn: Grid, go: Grid, outs: Seq<(usize, usize, Cell)>) -> bool {
    forall|a: usize, b: usize|
        match #[trigger] go.spec_boundary_at(a, b) {
            None => gn.spec_boundary_at(a, b) is None,
            Some(ob) => match gn.spec_boundary_at(a, b) {
                Some(nb) => queues_view(nb) == enqueue_all(queues_view(ob), cells_at(outs, a, b), ob.max_queue)
                    && nb.direction@ == ob.direction@ && nb.max_queue == ob.max_queue,
                None => false,
            },
        }
}

/// `gn` is `go` after a tick wrote `buf` (each written cell inside the grid takes its value,
/// born at `gen`) and output `outs`.
pub open spec fn grid_applied(gn: Grid, go: Grid, buf: Map<(u32, u32), Cell>, outs: Seq<(usize, usize, Cell)>, gen: u64) -> bool {
    &&& gn.spec_width() == go.spec_width()
    &&& gn.spec_height() == go.spec_height()
    &&& gn.spec_generation() == go.spec_generation()
    &&& forall|a: int, b: int| #[trigger] gn.spec_in_grid(a, b) == go.spec_in_grid(a, b)
    &&& forall|a: int, b: int|
        #[trigger] gn.spec_cell(a, b) == if 0 <= a <= u32::MAX && 0 <= b <= u32::MAX && buf.contains_key(
            (a as u32, b as u32),
        ) && go.spec_in_grid(a, b) {
            Cell { value: buf[(a as u32, b as u32)].value, born_at: gen }
        } else {
            go.spec_cell(a, b)
        }
    &&& outputs_enqueued(gn, go, outs)
}

/// The matches can be applied: coordinates within the limit, and every `cam` match has its
/// found target in `cams`; `cam` rules with `recursion` have an id.
pub open spec fn matches_applicable(
    matches: Seq<RuleMatch>,
    index: RuleIndex,
    cams: Map<(u32, u32, usize), (u32, u32)>,
) -> bool {
    forall|i: int|
        0 <= i < matches.len() ==> {
            let m = #[trigger] matches[i];
            &&& m.x <= coord_limit()
            &&& m.y <= coord_limit()
            &&& match match_rule(index, m) {
                Some(rule) => rule.cam is Some ==> cams.contains_key((m.x, m.y, m.rule_idx)) && (rule.recursion is Some
                    ==> rule.id@.len() > 0),
                None => true,
            }
        }
}

/// Enqueue every output on channel 0 of the boundary buffer at its cell.
fn enqueue_outputs(grid: &mut Grid, outs: &Vec<(usize, usize, Cell)>)
    ensures
        final(grid).spec_width() == old(grid).spec_width(),
        final(grid).spec_height() == old(grid).spec_height(),
        final(grid).spec_generation() == old(grid).spec_generation(),
        forall|a: int, b: int| #[trigger] final(grid).spec_in_grid(a, b) == old(grid).spec_in_grid(a, b),
        forall|a: int, b: int| #[trigger] final(grid).spec_cell(a, b) == old(grid).spec_cell(a, b),
        outputs_enqueued(*final(grid), *old(grid), outs@),
{
    let n = outs.len();
    let mut k: usize = 0;
    while k < n
        invariant
            n == outs@.len(),
            k <= n,
            grid.spec_width() == old(grid).spec_width(),
            grid.spec_height() == old(grid).spec_height(),
            grid.spec_generation() == old(grid).spec_generation(),
            forall|a: int, b: int| #[trigger] grid.spec_in_grid(a, b) == old(grid).spec_in_grid(a, b),
            forall|a: int, b: int| #[trigger] grid.spec_cell(a, b) == old(grid).spec_cell(a, b),
            outputs_enqueued(*grid, *old(grid), outs@.take(k as int)),
        decreases n - k,
    {
        let (bx, by, cell) = outs[k];
        let ghost before = *grid;
        let _ = grid.enqueue_boundary(bx, by, 0, cell);
        let ghost k0 = k as int;
        k += 1;
        proof {
            let t = outs@.take(k as int);
            assert(t.drop_last() =~= outs@.take(k0));
            assert forall|a: usize, b: usize|
                match #[trigger] old(grid).spec_boundary_at(a, b) {
                    None => grid.spec_boundary_at(a, b) is None,
                    Some(ob) => match grid.spec_boundary_at(a, b) {
                        Some(nb) => queues_view(nb) == enqueue_all(queues_view(ob), cells_at(t, a, b), ob.max_queue)
                            && nb.direction@ == ob.direction@ && nb.max_queue == ob.max_queue,
                        None => false,
                    },
                } by {
                assert(match before.spec_boundary_at(a, b) {
                    None => old(grid).spec_boundary_at(a, b) is None,
                    Some(x) => true,
                } || true);
                if (a, b) == (bx, by) {
                    let ca = cells_at(t, a, b);
                    assert(ca.drop_last() == cells_at(outs@.take(k0), a, b));
                    assert(ca.last() == cell);
                }
            }
        }
    }
    assert(outs@.take(n as int) =~= outs@);
}

/// Apply the accepted matches of a tick: every match reads the grid as it was before the
/// tick; all writes reach the grid at once (each born at the grid's generation), and
/// outputs reach the boundary buffers. `cams` holds the target found for every `cam`
/// match; `fb` and `mem` are the feedback counters and memory buffers the rules keep.
/// Returns the region of every applied match and the outputs (column and cell).
pub fn apply_matches_with_cam(
    grid: &mut Grid,
    matches: &Vec<RuleMatch>,
    index: &RuleIndex,
    cache: &RuleDataCache,
    cams: &MatchMap<(u32, u32)>,
    fb: &mut MatchMap<u64>,
    mem: &mut MemoryBuffers,
) -> (r: (Vec<AffectedRegion>, Vec<(u32, Cell)>))
    requires
        grid_small(*old(grid)),
        index_in_bounds(*index),
        cache.caches(*index),
        matches_applicable(matches@, *index, cams@),
    ensures
        ({
            let e = matches_effect(
                *old(grid),
                matches@,
                *index,
                cams@,
                old(grid).spec_generation(),
                Map::empty(),
                old(fb)@,
                old(mem)@,
            );
            &&& grid_applied(*final(grid), *old(grid), e.0, e.2, old(grid).spec_generation())
            &&& r.0@.len() == e.1.len()
            &&& forall|i: int| 0 <= i < e.1.len() ==> region_matches(#[trigger] r.0@[i], e.1[i])
            &&& r.1@ == e.2.map_values(|o: (usize, usize, Cell)| (o.0 as u32, o.2))
            &&& final(fb)@ == e.3
            &&& final(mem)@ == e.4
        }),
{
    let gen = grid.generation();
    let ghost g0 = *grid;
    let ghost fb0 = fb@;
    let ghost mem0 = mem@;
    let mut buf = WriteBuffer::new();
    let mut outs: Vec<(usize, usize, Cell)> = Vec::new();
    let mut regions: Vec<AffectedRegion> = Vec::new();
    let n = matches.len();
    let mut i: usize = 0;
    while i < n
        invariant
            n == matches@.len(),
            i <= n,
            *grid == g0,
            gen == g0.spec_generation(),
            grid_small(g0),
            index_in_bounds(*index),
            cache.caches(*index),
            matches_applicable(matches@, *index, cams@),
            ({
                let p = matches_effect(g0, matches@.take(i as int), *index, cams@, gen, Map::empty(), fb0, mem0);
                &&& buf@ == p.0
                &&& regions@.len() == p.1.len()
                &&& forall|j: int| 0 <= j < p.1.len() ==> region_matches(#[trigger] regions@[j], p.1[j])
                &&& outs@ == p.2
                &&& fb@ == p.3
                &&& mem@ == p.4
            }),
        decreases n - i,
    {
        let m = matches[i];
        let ghost pre = matches@.take(i as int);
        let ghost p = matches_effect(g0, pre, *index, cams@, gen, Map::empty(), fb0, mem0);
        proof {
            assert(matches@.take(i as int + 1).drop_last() =~= pre);
            assert(matches@.take(i as int + 1).last() == m);
            assert(m.x <= coord_limit() && m.y <= coord_limit());
        }
        let rules = index.rules(m.head.0);
        if m.rule_idx < rules.len() {
            let rule = &rules[m.rule_idx];
            proof {
                assert(match_rule(*index, m) == Some(*rule));
                assert(rule_in_bounds(index.rules_of(m.head.0 as int)[m.rule_idx as int]));
            }
            match rule.cam {
                Some(cam) => {
                    let found = match cams.get((m.x, m.y, m.rule_idx)) {
                        Some(f) => f,
                        None => {
                            assert(false);
                            (0, 0)
                        },
                    };
                    let ghost rb = regions@;
                    let region = apply_cam_buffered(grid, m, rule, cam, found, gen, &mut buf);
                    regions.push(region);
                    proof {
                        assert forall|j: int| 0 <= j < rb.len() + 1 implies region_matches(
                            #[trigger] regions@[j],
                            p.1.push((cam_effect(g0, m, *rule, cam, found, gen, p.0).1, false, true))[j],
                        ) by {
                            if j < rb.len() {
                                assert(regions@[j] == rb[j]);
                            }
                        }
                    }
                },
                None => {
                    let ghost rb = regions@;
                    let ghost o0 = outs@;
                    let region = match get_rule_data(cache, m.head, m.rule_idx) {
                        Some(data) => {
                            assert(data.shift_targets@ == spec_shift_targets(*rule));
                            apply_rule_buffered(grid, m, rule, &data.shift_targets, gen, fb, mem, &mut buf, &mut outs)
                        },
                        None => {
                            let targets = compute_shift_targets(rule);
                            apply_rule_buffered(grid, m, rule, &targets, gen, fb, mem, &mut buf, &mut outs)
                        },
                    };
                    regions.push(region);
                    proof {
                        let re = rule_effect(g0, m, *rule, gen, p.0, p.3, p.4);
                        assert forall|j: int| 0 <= j < rb.len() + 1 implies region_matches(
                            #[trigger] regions@[j],
                            p.1.push((re.1, rule.changes@.len() > 0, false))[j],
                        ) by {
                            if j < rb.len() {
                                assert(regions@[j] == rb[j]);
                            }
                        }
                    }
                },
            }
        } else {
            assert(match_rule(*index, m) is None);
        }
        i += 1;
    }
    proof {
        assert(matches@.take(n as int) =~= matches@);
    }
    let ghost e = matches_effect(g0, matches@, *index, cams@, gen, Map::empty(), fb0, mem0);
    enqueue_outputs(grid, &outs);
    let ghost g1 = *grid;
    buf.flush_into(grid, gen);
    proof {
        assert forall|a: usize, b: usize|
            match #[trigger] g0.spec_boundary_at(a, b) {
                None => grid.spec_boundary_at(a, b) is None,
                Some(ob) => match grid.spec_boundary_at(a, b) {
                    Some(nb) => queues_view(nb) == enqueue_all(queues_view(ob), cells_at(e.2, a, b), ob.max_queue)
                        && nb.direction@ == ob.direction@ && nb.max_queue == ob.max_queue,
                    None => false,
                },
            } by {
            assert(grid.spec_boundary_at(a, b) == g1.spec_boundary_at(a, b));
        }
    }
    let mut pending: Vec<(u32, Cell)> = Vec::new();
    let mut k: usize = 0;
    while k < outs.len()
        invariant
            k <= outs@.len(),
            pending@ == outs@.take(k as int).map_values(|o: (usize, usize, Cell)| (o.0 as u32, o.2)),
        decreases outs@.len() - k,
    {
        pending.push((outs[k].0 as u32, outs[k].2));
        assert(outs@.take(k as int + 1).map_values(|o: (usize, usize, Cell)| (o.0 as u32, o.2)) =~= outs@.take(
            k as int,
        ).map_values(|o: (usize, usize, Cell)| (o.0 as u32, o.2)).push((outs@[k as int].0 as u32, outs@[k as int].2)));
        k += 1;
    }
    assert(outs@.take(k as int) =~= outs@);
    (regions, pending)
}

/// Apply matches found by the pattern matcher, without per-match state: every match reads
/// the grid as it was before the tick, all writes reach the grid at once (born at the
/// grid's generation) and outputs reach the boundary buffers. A `cam` match needs the
/// target its search found, which only a tick carries, so no match here may be one.
pub fn apply_matches(grid: &mut Grid, matches: Vec<RuleMatch>, index: &RuleIndex, cache: &RuleDataCache) -> (r: (
    Vec<AffectedRegion>,
    Vec<(u32, Cell)>,
))
    requires
        grid_small(*old(grid)),
        index_in_bounds(*index),
        cache.caches(*index),
        matches_applicable(matches@, *index, Map::empty()),
    ensures
        ({
            let e = matches_effect(
                *old(grid),
                matches@,
                *index,
                Map::empty(),
                old(grid).spec_generation(),
                Map::empty(),
                Map::empty(),
                Map::empty(),
            );
            &&& grid_applied(*final(grid), *old(grid), e.0, e.2, old(grid).spec_generation())
            &&& r.0@.len() == e.1.len()
            &&& forall|i: int| 0 <= i < e.1.len() ==> region_matches(#[trigger] r.0@[i], e.1[i])
            &&& r.1@ == e.2.map_values(|o: (usize, usize, Cell)| (o.0 as u32, o.2))
        }),
{
    let cams: MatchMap<(u32, u32)> = MatchMap::new();
    let mut fb: MatchMap<u64> = MatchMap::new();
    let mut mem = MemoryBuffers::new();
    apply_matches_with_cam(grid, &matches, index, cache, &cams, &mut fb, &mut mem)
}

/// Every cell written by `regions` that the grid stores is born again at the grid's
/// generation (its value unchanged).
pub fn reset_age_for_regions(grid: &mut Grid, regions: &Vec<AffectedRegion>)
    ensures
        final(grid).spec_width() == old(grid).spec_width(),
        final(grid).spec_height() == old(grid).spec_height(),
        final(grid).spec_generation() == old(grid).spec_generation(),
        final(grid).spec_boundaries() == old(grid).spec_boundaries(),
        forall|a: int, b: int| #[trigger] final(grid).spec_in_grid(a, b) == old(grid).spec_in_grid(a, b),
        forall|a: int, b: int|
            #[trigger] final(grid).spec_cell(a, b) == if old(grid).spec_in_grid(a, b) && in_regions(regions@, a, b) {
                Cell { value: old(grid).spec_cell(a, b).value, born_at: old(grid).spec_generation() }
            } else {
                old(grid).spec_cell(a, b)
            },
{
    let gen = grid.generation();
    let n = regions.len();
    let mut i: usize = 0;
    while i < n
        invariant
            n == regions@.len(),
            i <= n,
            gen == old(grid).spec_generation(),
            grid.spec_width() == old(grid).spec_width(),
            grid.spec_height() == old(grid).spec_height(),
            grid.spec_generation() == old(grid).spec_generation(),
            grid.spec_boundaries() == old(grid).spec_boundaries(),
            forall|a: int, b: int| #[trigger] grid.spec_in_grid(a, b) == old(grid).spec_in_grid(a, b),
            forall|a: int, b: int|
                #[trigger] grid.spec_cell(a, b) == if old(grid).spec_in_grid(a, b) && in_regions(
                    regions@.take(i as int),
                    a,
                    b,
                ) {
                    Cell { value: old(grid).spec_cell(a, b).value, born_at: gen }
                } else {
                    old(grid).spec_cell(a, b)
                },
        decreases n - i,
    {
        let cells = &regions[i].written_cells;
        let mut k: usize = 0;
        while k < cells.len()
            invariant
                i < n,
                n == regions@.len(),
                *cells == regions@[i as int].written_cells,
                k <= cells@.len(),
                gen == old(grid).spec_generation(),
                grid.spec_width() == old(grid).spec_width(),
                grid.spec_height() == old(grid).spec_height(),
                grid.spec_generation() == old(grid).spec_generation(),
                grid.spec_boundaries() == old(grid).spec_boundaries(),
                forall|a: int, b: int| #[trigger] grid.spec_in_grid(a, b) == old(grid).spec_in_grid(a, b),
                forall|a: int, b: int|
                    #[trigger] grid.spec_cell(a, b) == if old(grid).spec_in_grid(a, b) && (in_regions(
                        regions@.take(i as int),
                        a,
                        b,
                    ) || cells@.take(k as int).contains((a as u32, b as u32)) && 0 <= a <= u32::MAX && 0 <= b
                        <= u32::MAX) {
                        Cell { value: old(grid).spec_cell(a, b).value, born_at: gen }
                    } else {
                        old(grid).spec_cell(a, b)
                    },
            decreases cells@.len() - k,
        {
            let (x, y) = cells[k];
            let ghost before = *grid;
            match grid.get_cell(x as usize, y as usize) {
                Some(c) => {
                    grid.set_cell(x as usize, y as usize, Cell { value: c.value, born_at: gen });
                },
                None => {},
            }
            let ghost k0 = k as int;
            k += 1;
            proof {
                assert forall|a: int, b: int|
                    #[trigger] grid.spec_cell(a, b) == if old(grid).spec_in_grid(a, b) && (in_regions(
                        regions@.take(i as int),
                        a,
                        b,
                    ) || cells@.take(k as int).contains((a as u32, b as u32)) && 0 <= a <= u32::MAX && 0 <= b
                        <= u32::MAX) {
                        Cell { value: old(grid).spec_cell(a, b).value, born_at: gen }
                    } else {
                        old(grid).spec_cell(a, b)
                    } by {
                    let t = cells@.take(k as int);
                    let t0 = cells@.take(k0);
                    assert(t =~= t0.push((x, y)));
                    assert(before.spec_in_grid(a, b) == old(grid).spec_in_grid(a, b));
                    if a == x as int && b == y as int {
                        assert(t[k0] == (x, y));
                        assert(t.contains((a as u32, b as u32)));
                    } else if 0 <= a <= u32::MAX && 0 <= b <= u32::MAX {
                        if t.contains((a as u32, b as u32)) {
                            let q = choose|q: int| 0 <= q < t.len() && t[q] == (a as u32, b as u32);
                            assert(q != k0);
                            assert(t0[q] == t[q]);
                            assert(t0.contains((a as u32, b as u32)));
                        }
                        if t0.contains((a as u32, b as u32)) {
                            let q = choose|q: int| 0 <= q < t0.len() && t0[q] == (a as u32, b as u32);
                            assert(t[q] == t0[q]);
                        }
                    }
                }
            }
        }
        let ghost i0 = i as int;
        i += 1;
        proof {
            assert(cells@.take(k as int) =~= cells@);
            assert forall|a: int, b: int| #[trigger] in_regions(regions@.take(i as int), a, b) == (in_regions(
                regions@.take(i0),
                a,
                b,
            ) || (regions@[i0].written_cells@.contains((a as u32, b as u32)) && 0 <= a <= u32::MAX && 0 <= b
                <= u32::MAX)) by {
                assert(regions@.take(i as int).drop_last() =~= regions@.take(i0));
            }
        }
    }
    assert(regions@.take(n as int) =~= regions@);
}

/// `(x, y)` is one of the cells written by `regions`.
pub open spec fn in_regions(regions: Seq<AffectedRegion>, x: int, y: int) -> bool
    decreases regions.len(),
{
    if regions.len() == 0 {
        false
    } else {
        in_regions(regions.drop_last(), x, y) || (regions.last().written_cells@.contains((x as u32, y as u32)) && 0
            <= x <= u32::MAX && 0 <= y <= u32::MAX)
    }
}

/// Law: a rule with feedback and one plain shift (no changes, no recursion) moves the head
/// in its declared direction until its counter reaches the timeout, and in the feedback's
/// direction after; the head lands on the target, and the counter, counted up once
/// (saturating), follows it there, leaving the origin's key.
pub proof fn lemma_feedback_shift_follows_counter(
    g: Grid,
    m: RuleMatch,
    rule: Rule,
    gen: u64,
    buf: Map<(u32, u32), Cell>,
    fb: Map<(u32, u32, usize), u64>,
    mem: Map<(u32, u32, usize), Seq<RecordedValue>>,
    s: ShiftSpec,
)
    requires
        rule.feedback is Some,
        flatten_groups(rule.shifts@) == seq![s],
        !s.broadcast,
        !s.keep_source,
        s.steps >= 1,
        rule.changes@.len() == 0,
        rule.recursion is None,
        grid_small(g),
        in_bounds(g, m.x as int, m.y as int),
        g.spec_in_grid(m.x as int, m.y as int),
        in_bounds(
            g,
            shift_target(effective_shift(s, feedback_override(rule, fb, (m.x, m.y, m.rule_idx))), m.x as int, m.y as int).0,
            shift_target(effective_shift(s, feedback_override(rule, fb, (m.x, m.y, m.rule_idx))), m.x as int, m.y as int).1,
        ),
    ensures
        ({
            let key = (m.x, m.y, m.rule_idx);
            let c0: u64 = if fb.contains_key(key) {
                fb[key]
            } else {
                0
            };
            let sh = effective_shift(s, feedback_override(rule, fb, key));
            let t = shift_target(sh, m.x as int, m.y as int);
            let tkey = (t.0 as u32, t.1 as u32, m.rule_idx);
            let e = rule_effect(g, m, rule, gen, buf, fb, mem);
            &&& sh.direction == if c0 >= rule.feedback->0.timeout {
                rule.feedback->0.new_direction
            } else {
                s.direction
            }
            &&& e.0[(t.0 as u32, t.1 as u32)] == g.spec_cell(m.x as int, m.y as int)
            &&& e.3.contains_key(tkey)
            &&& e.3[tkey] == if c0 == u64::MAX {
                c0
            } else {
                (c0 + 1) as u64
            }
            &&& !e.3.contains_key(key)
        }),
{
    let key = (m.x, m.y, m.rule_idx);
    let cx = m.x as int;
    let cy = m.y as int;
    let over = feedback_override(rule, fb, key);
    let fb1 = feedback_counted(rule, fb, key);
    let sh = effective_shift(s, over);
    let t = shift_target(sh, cx, cy);
    let shs = seq![s];
    assert(shs.drop_last() =~= Seq::<ShiftSpec>::empty());
    assert(shs.last() == s);
    let p1 = shifts_effect(g, rule, shs, cx, cy, m.rule_idx, gen, over, fb1, mem);
    let p0 = shifts_effect(g, rule, shs.drop_last(), cx, cy, m.rule_idx, gen, over, fb1, mem);
    assert(p0.0.len() == 0 && p0.2 == fb1);
    let e1 = shift_effect(g, rule, sh, cx, cy, gen);
    assert(p1.0 == p0.0 + e1.0);
    assert(p1.2 == relocated(fb1, state_key(cx, cy, m.rule_idx), state_key(t.0, t.1, m.rule_idx)));
    let head = g.spec_cell(cx, cy);
    assert(e1.0 == seq![((cx as u32, cy as u32), Cell { value: default_value(), born_at: 0 })] + seq![((t.0 as u32, t.1 as u32), head)]);
    assert(p1.0 =~= e1.0);
    assert(shift_moves_state(g, sh, cx, cy));
    assert(t != (cx, cy)) by {
        let d = spec_direction_delta(sh.direction);
        assert(d.0 != 0 || d.1 != 0);
        assert(d.0 * sh.steps != 0 || d.1 * sh.steps != 0) by (nonlinear_arith)
            requires
                d.0 != 0 || d.1 != 0,
                sh.steps >= 1,
        ;
    }
    assert(t.0 as u32 == t.0 && t.1 as u32 == t.1);
    assert(state_key(cx, cy, m.rule_idx) == key);
    assert(state_key(t.0, t.1, m.rule_idx) != key);
    let w2 = match_change_writes(g, rule, cx, cy, gen);
    assert(w2 =~= Seq::<((u32, u32), Cell)>::empty());
    let all = p1.0 + w2;
    assert(all =~= e1.0);
    assert(all.drop_last() =~= seq![((cx as u32, cy as u32), Cell { value: default_value(), born_at: 0 })]);
    assert(apply_writes(buf, all)[(t.0 as u32, t.1 as u32)] == head);
}

proof fn lemma_shifts_writes_free(
    g: Grid,
    rule: Rule,
    shs: Seq<ShiftSpec>,
    cx: int,
    cy: int,
    idx: usize,
    gen: u64,
    over: Option<Direction>,
    fb1: Map<(u32, u32, usize), u64>,
    mem1: Map<(u32, u32, usize), Seq<RecordedValue>>,
    fb2: Map<(u32, u32, usize), u64>,
    mem2: Map<(u32, u32, usize), Seq<RecordedValue>>,
)
    ensures
        shifts_effect(g, rule, shs, cx, cy, idx, gen, over, fb1, mem1).0 == shifts_effect(
            g,
            rule,
            shs,
            cx,
            cy,
            idx,
            gen,
            over,
            fb2,
            mem2,
        ).0,
    decreases shs.len(),
{
    if shs.len() > 0 {
        lemma_shifts_writes_free(g, rule, shs.drop_last(), cx, cy, idx, gen, over, fb1, mem1, fb2, mem2);
    }
}

proof fn lemma_apply_writes_at(buf1: Map<(u32, u32), Cell>, buf2: Map<(u32, u32), Cell>, w: Seq<((u32, u32), Cell)>, k: (u32, u32))
    ensures
        write_keys(w).contains(k) ==> apply_writes(buf1, w).contains_key(k) && apply_writes(buf2, w).contains_key(k)
            && apply_writes(buf1, w)[k] == apply_writes(buf2, w)[k],
        !write_keys(w).contains(k) ==> apply_writes(buf1, w).contains_key(k) == buf1.contains_key(k) && (
        buf1.contains_key(k) ==> apply_writes(buf1, w)[k] == buf1[k]),
    decreases w.len(),
{
    if w.len() > 0 {
        let p = w.drop_last();
        lemma_apply_writes_at(buf1, buf2, p, k);
        assert(write_keys(w) =~= write_keys(p).push(w.last().0));
        assert(write_keys(w)[w.len() - 1] == w.last().0);
        assert(apply_writes(buf1, w) == apply_writes(buf1, p).insert(w.last().0, w.last().1));
        assert(apply_writes(buf2, w) == apply_writes(buf2, p).insert(w.last().0, w.last().1));
        if write_keys(p).contains(k) {
            let j = choose|j: int| 0 <= j < write_keys(p).len() && write_keys(p)[j] == k;
            assert(write_keys(w)[j] == k);
        }
        if write_keys(w).contains(k) && !write_keys(p).contains(k) {
            let j = choose|j: int| 0 <= j < write_keys(w).len() && write_keys(w)[j] == k;
            if j < p.len() {
                assert(write_keys(p)[j] == k);
            }
        }
    }
}

proof fn lemma_apply_writes_commute(buf: Map<(u32, u32), Cell>, a: Seq<((u32, u32), Cell)>, b: Seq<((u32, u32), Cell)>)
    requires
        forall|k: (u32, u32)| !(write_keys(a).contains(k) && write_keys(b).contains(k)),
    ensures
        apply_writes(apply_writes(buf, a), b) == apply_writes(apply_writes(buf, b), a),
{
    let ab = apply_writes(apply_writes(buf, a), b);
    let ba = apply_writes(apply_writes(buf, b), a);
    assert forall|k: (u32, u32)| #[trigger] ab.contains_key(k) == ba.contains_key(k) && (ab.contains_key(k) ==> ab[k]
        == ba[k]) by {
        lemma_apply_writes_at(apply_writes(buf, a), apply_writes(buf, b), b, k);
        lemma_apply_writes_at(apply_writes(buf, b), apply_writes(buf, a), a, k);
        lemma_apply_writes_at(buf, buf, a, k);
        lemma_apply_writes_at(buf, buf, b, k);
        lemma_apply_writes_at(apply_writes(buf, b), buf, b, k);
        lemma_apply_writes_at(apply_writes(buf, a), buf, a, k);
        lemma_apply_writes_at(apply_writes(buf, a), buf, b, k);
        lemma_apply_writes_at(apply_writes(buf, b), buf, a, k);
        if write_keys(b).contains(k) {
            assert(!write_keys(a).contains(k));
        } else if write_keys(a).contains(k) {
        } else {
        }
    }
    assert(ab =~= ba);
}

/// The writes of a match `m` of `rule` (no feedback, no recursion): its shifts', then its
/// changes', all read from the grid before the tick.
pub open spec fn match_writes(g: Grid, m: RuleMatch, rule: Rule, gen: u64) -> Seq<((u32, u32), Cell)> {
    shifts_effect(
        g,
        rule,
        flatten_groups(rule.shifts@),
        m.x as int,
        m.y as int,
        m.rule_idx,
        gen,
        None,
        Map::empty(),
        Map::empty(),
    ).0 + match_change_writes(g, rule, m.x as int, m.y as int, gen)
}

/// A match whose writes read nothing that earlier matches of the tick change: a rule that
/// exists, without `cam`, `recursion` or feedback.
pub open spec fn plain_match(index: RuleIndex, m: RuleMatch) -> bool {
    match match_rule(index, m) {
        Some(r) => r.cam is None && r.recursion is None && r.feedback is None,
        None => false,
    }
}

proof fn lemma_plain_effect(
    g: Grid,
    ms: Seq<RuleMatch>,
    m: RuleMatch,
    index: RuleIndex,
    cams: Map<(u32, u32, usize), (u32, u32)>,
    gen: u64,
    buf: Map<(u32, u32), Cell>,
    fb: Map<(u32, u32, usize), u64>,
    mem: Map<(u32, u32, usize), Seq<RecordedValue>>,
)
    requires
        plain_match(index, m),
    ensures
        matches_effect(g, ms.push(m), index, cams, gen, buf, fb, mem).0 == apply_writes(
            matches_effect(g, ms, index, cams, gen, buf, fb, mem).0,
            match_writes(g, m, match_rule(index, m)->0, gen),
        ),
{
    let r = match_rule(index, m)->0;
    assert(ms.push(m).drop_last() =~= ms);
    let p = matches_effect(g, ms, index, cams, gen, buf, fb, mem);
    let key = (m.x, m.y, m.rule_idx);
    assert(feedback_override(r, p.3, key) is None);
    assert(feedback_counted(r, p.3, key) == p.3);
    lemma_shifts_writes_free(
        g,
        r,
        flatten_groups(r.shifts@),
        m.x as int,
        m.y as int,
        m.rule_idx,
        gen,
        None,
        p.3,
        p.4,
        Map::empty(),
        Map::empty(),
    );
    assert(match_rule(index, ms.push(m).last()) == Some(r));
    let re = rule_effect(g, m, r, gen, p.0, p.3, p.4);
    assert(re.0 == apply_writes(p.0, match_writes(g, m, r, gen)));
}

/// Law: two matches of plain rules (see `plain_match`) that write no common cell can be
/// applied in either order: the writes of the tick come out the same.
pub proof fn lemma_disjoint_matches_commute(
    g: Grid,
    pre: Seq<RuleMatch>,
    a: RuleMatch,
    b: RuleMatch,
    index: RuleIndex,
    cams: Map<(u32, u32, usize), (u32, u32)>,
    gen: u64,
    buf: Map<(u32, u32), Cell>,
    fb: Map<(u32, u32, usize), u64>,
    mem: Map<(u32, u32, usize), Seq<RecordedValue>>,
)
    requires
        plain_match(index, a),
        plain_match(index, b),
        forall|k: (u32, u32)|
            !(write_keys(match_writes(g, a, match_rule(index, a)->0, gen)).contains(k) && write_keys(
                match_writes(g, b, match_rule(index, b)->0, gen),
            ).contains(k)),
    ensures
        matches_effect(g, pre.push(a).push(b), index, cams, gen, buf, fb, mem).0 == matches_effect(
            g,
            pre.push(b).push(a),
            index,
            cams,
            gen,
            buf,
            fb,
            mem,
        ).0,
{
    let wa = match_writes(g, a, match_rule(index, a)->0, gen);
    let wb = match_writes(g, b, match_rule(index, b)->0, gen);
    let p = matches_effect(g, pre, index, cams, gen, buf, fb, mem);
    lemma_plain_effect(g, pre, a, index, cams, gen, buf, fb, mem);
    lemma_plain_effect(g, pre.push(a), b, index, cams, gen, buf, fb, mem);
    lemma_plain_effect(g, pre, b, index, cams, gen, buf, fb, mem);
    lemma_plain_effect(g, pre.push(b), a, index, cams, gen, buf, fb, mem);
    lemma_apply_writes_commute(p.0, wa, wb);
}

} // verus!
