use vstd::prelude::*;
use crate::error::{error_kind, CellariaError, ErrorKind};
use crate::grid::Grid;
use crate::rule_config::{build_rule, rule_built_from, spec_rule_error, RawRule};
use crate::text::{concat, decimal_string, decimal_text};
use crate::types::{
    lemma_priority_sorted, priority_insert, priority_sorted, BoundaryBuffer, Cell, CellType, CellValue, Rule,
    RuleIndex,
};

verus! {

// ---------------------------------------------------------------------------
// A configuration as written
// ---------------------------------------------------------------------------

/// An initial cell, as written.
pub struct RawCell {
    pub coord: (usize, usize),
    pub cell_type: u8,
}

/// A boundary buffer, as written.
pub struct RawBoundary {
    pub cell: (usize, usize),
    pub channel: u32,
    pub direction: String,
    pub max_queue: Option<u8>,
}

/// The grid section, as written.
pub struct RawGrid {
    pub width: usize,
    pub height: usize,
    pub default_cell_type: u8,
    pub initial_cells: Vec<RawCell>,
    pub boundaries: Option<Vec<RawBoundary>>,
}

/// A configuration, as written. A missing `version` stands for version 1.
pub struct RawConfig {
    pub version: Option<u32>,
    pub grid: RawGrid,
    pub rules: Vec<RawRule>,
}

/// The configuration format version this library reads.
pub const SUPPORTED_CONFIG_VERSION: u32 = 1;

// ---------------------------------------------------------------------------
// What a written configuration denotes
// ---------------------------------------------------------------------------

/// Every initial cell lies inside the grid.
pub open spec fn cells_in_bounds(g: RawGrid) -> bool {
    forall|k: int|
        0 <= k < g.initial_cells@.len() ==> (#[trigger] g.initial_cells@[k]).coord.0 < g.width
            && g.initial_cells@[k].coord.1 < g.height
}

/// The written boundaries, none when the section is missing.
pub open spec fn raw_boundaries(g: RawGrid) -> Seq<RawBoundary> {
    match g.boundaries {
        Some(bs) => bs@,
        None => Seq::empty(),
    }
}

/// Every boundary lies inside the grid.
pub open spec fn boundaries_in_bounds(g: RawGrid) -> bool {
    forall|k: int|
        0 <= k < raw_boundaries(g).len() ==> (#[trigger] raw_boundaries(g)[k]).cell.0 < g.width
            && raw_boundaries(g)[k].cell.1 < g.height
}

/// The error of the first rule (in order) that has one.
pub open spec fn first_rule_error(rules: Seq<RawRule>) -> Option<ErrorKind>
    decreases rules.len(),
{
    if rules.len() == 0 {
        None
    } else {
        match first_rule_error(rules.drop_last()) {
            Some(k) => Some(k),
            None => spec_rule_error(rules.last()),
        }
    }
}

/// The error a written configuration yields: an unsupported version, an initial cell or a
/// boundary outside the grid (configuration errors), then the first rule's error.
pub open spec fn spec_config_error(c: RawConfig) -> Option<ErrorKind> {
    if c.version is Some && c.version->0 != SUPPORTED_CONFIG_VERSION {
        Some(ErrorKind::Config)
    } else if !cells_in_bounds(c.grid) {
        Some(ErrorKind::Config)
    } else if !boundaries_in_bounds(c.grid) {
        Some(ErrorKind::Config)
    } else {
        first_rule_error(c.rules@)
    }
}

/// Type of the cell at `(x, y)`: the last initial cell written there, else the default.
pub open spec fn initial_type(cells: Seq<RawCell>, x: int, y: int, default: u8) -> u8
    decreases cells.len(),
{
    if cells.len() == 0 {
        default
    } else if cells.last().coord.0 == x && cells.last().coord.1 == y {
        cells.last().cell_type
    } else {
        initial_type(cells.drop_last(), x, y, default)
    }
}

/// The last boundary written at `(x, y)`.
pub open spec fn last_boundary(bs: Seq<RawBoundary>, x: usize, y: usize) -> Option<RawBoundary>
    decreases bs.len(),
{
    if bs.len() == 0 {
        None
    } else if bs.last().cell == (x, y) {
        Some(bs.last())
    } else {
        last_boundary(bs.drop_last(), x, y)
    }
}

/// `buf` is the buffer a written boundary sets up: one empty queue on its channel, its
/// direction and its capacity.
pub open spec fn boundary_from(buf: BoundaryBuffer, b: RawBoundary) -> bool {
    &&& buf.queues@.len() == 1
    &&& buf.queues@[0].0 == b.channel
    &&& buf.queues@[0].1@.len() == 0
    &&& buf.direction@ == b.direction@
    &&& buf.max_queue == b.max_queue
}

/// Boundary buffers of `grid` are those the written boundaries set up, the last one at
/// each cell winning.
pub open spec fn boundaries_built_from(grid: Grid, bs: Seq<RawBoundary>) -> bool {
    forall|x: usize, y: usize|
        match (#[trigger] grid.spec_boundary_at(x, y), last_boundary(bs, x, y)) {
            (None, None) => true,
            (Some(buf), Some(b)) => boundary_from(buf, b),
            _ => false,
        }
}

/// `grid` is the grid the written section denotes, at generation 0.
pub open spec fn grid_built_from(grid: Grid, g: RawGrid) -> bool {
    &&& grid.spec_width() == g.width
    &&& grid.spec_height() == g.height
    &&& grid.spec_generation() == 0
    &&& forall|x: int, y: int|
        0 <= x < g.width && 0 <= y < g.height ==> #[trigger] grid.spec_in_grid(x, y) && grid.spec_cell(x, y) == (Cell {
            value: CellValue(CellType(initial_type(g.initial_cells@, x, y, g.default_cell_type))),
            born_at: 0,
        })
    &&& boundaries_built_from(grid, raw_boundaries(g))
}

/// Head of a rule: its first id entry, else its first pattern entry (-1 for neither).
pub open spec fn rule_head(r: Rule) -> int {
    if r.id@.len() > 0 {
        r.id@[0].0 as int
    } else if r.pattern@.len() > 0 {
        r.pattern@[0].2.0 as int
    } else {
        -1
    }
}

/// The rules of `s` with head `h`, in order.
pub open spec fn rules_with_head(s: Seq<Rule>, h: int) -> Seq<Rule>
    decreases s.len(),
{
    if s.len() == 0 {
        Seq::empty()
    } else if rule_head(s.last()) == h {
        rules_with_head(s.drop_last(), h).push(s.last())
    } else {
        rules_with_head(s.drop_last(), h)
    }
}

/// `index` holds, for every head, the rules of `built` with that head, stably sorted by
/// descending priority.
pub open spec fn index_built_from(index: RuleIndex, built: Seq<Rule>) -> bool {
    forall|h: int| 0 <= h < 256 ==> #[trigger] index.rules_of(h) == priority_sorted(rules_with_head(built, h))
}

/// `built` are the rules the written rules denote, in order.
pub open spec fn rules_built_from(built: Seq<Rule>, raw: Seq<RawRule>) -> bool {
    &&& built.len() == raw.len()
    &&& forall|k: int| 0 <= k < raw.len() ==> rule_built_from(#[trigger] built[k], raw[k])
}

// ---------------------------------------------------------------------------
// Building a configuration
// ---------------------------------------------------------------------------

/// The text of an out-of-bounds error: "SECTION: coordinate (X, Y) is out of bounds for grid WxH",
/// with each number in decimal.
pub open spec fn out_of_bounds_text(section: Seq<char>, x: nat, y: nat, w: nat, h: nat) -> Seq<char> {
    section + ": coordinate ("@ + decimal_text(x) + ", "@ + decimal_text(y) + ") is out of bounds for grid "@
        + decimal_text(w) + "x"@ + decimal_text(h)
}

/// "coordinate (x, y) is out of bounds for grid WxH"
fn out_of_bounds_message(section: &str, x: usize, y: usize, w: usize, h: usize) -> (s: String)
    ensures
        s@ == out_of_bounds_text(section@, x as nat, y as nat, w as nat, h as nat),
{
    let mut s = String::from_str(section);
    s.append(": coordinate (");
    s.append(decimal_string(x as u64).as_str());
    s.append(", ");
    s.append(decimal_string(y as u64).as_str());
    s.append(") is out of bounds for grid ");
    s.append(decimal_string(w as u64).as_str());
    s.append("x");
    s.append(decimal_string(h as u64).as_str());
    s
}

pub(crate) proof fn lemma_rules_with_head_push(s: Seq<Rule>, r: Rule, h: int)
    ensures
        rules_with_head(s.push(r), h) == if rule_head(r) == h {
            rules_with_head(s, h).push(r)
        } else {
            rules_with_head(s, h)
        },
{
    assert(s.push(r).drop_last() =~= s);
}

proof fn lemma_first_rule_error_push(s: Seq<RawRule>, r: RawRule)
    ensures
        first_rule_error(s.push(r)) == match first_rule_error(s) {
            Some(k) => Some(k),
            None => spec_rule_error(r),
        },
{
    assert(s.push(r).drop_last() =~= s);
}

proof fn lemma_first_rule_error_prefix(s: Seq<RawRule>, k: int)
    requires
        0 <= k <= s.len(),
        first_rule_error(s.take(k)) is Some,
    ensures
        first_rule_error(s) == first_rule_error(s.take(k)),
    decreases s.len() - k,
{
    if k < s.len() {
        lemma_first_rule_error_push(s.take(k), s[k]);
        assert(s.take(k).push(s[k]) =~= s.take(k + 1));
        lemma_first_rule_error_prefix(s, k + 1);
    } else {
        assert(s.take(k) =~= s);
    }
}

proof fn lemma_initial_type_push(cells: Seq<RawCell>, c: RawCell, x: int, y: int, d: u8)
    ensures
        initial_type(cells.push(c), x, y, d) == if c.coord.0 == x && c.coord.1 == y {
            c.cell_type
        } else {
            initial_type(cells, x, y, d)
        },
{
    assert(cells.push(c).drop_last() =~= cells);
}

proof fn lemma_last_boundary_push(bs: Seq<RawBoundary>, b: RawBoundary, x: usize, y: usize)
    ensures
        last_boundary(bs.push(b), x, y) == if b.cell == (x, y) {
            Some(b)
        } else {
            last_boundary(bs, x, y)
        },
{
    assert(bs.push(b).drop_last() =~= bs);
}

/// Build the grid a written grid section denotes, its cells and boundaries inside it.
fn build_grid(g: &RawGrid) -> (grid: Grid)
    requires
        g.width * g.height <= usize::MAX,
        cells_in_bounds(*g),
        boundaries_in_bounds(*g),
    ensures
        grid_built_from(grid, *g),
{
    let mut grid = Grid::new(g.width, g.height, g.default_cell_type);
    let ghost cells = g.initial_cells@;
    assert forall|x: int, y: int| 0 <= x < g.width && 0 <= y < g.height implies #[trigger] grid.spec_in_grid(x, y)
        && grid.spec_cell(x, y) == (Cell {
        value: CellValue(CellType(initial_type(cells.take(0), x, y, g.default_cell_type))),
        born_at: 0,
    }) by {
        assert(cells.take(0).len() == 0);
        assert(initial_type(cells.take(0), x, y, g.default_cell_type) == g.default_cell_type);
        assert(grid.spec_in_grid(x, y));
        assert(grid.spec_cell(x, y) == (Cell { value: CellValue(CellType(g.default_cell_type)), born_at: 0 }));
    }
    let mut k: usize = 0;
    while k < g.initial_cells.len()
        invariant
            cells == g.initial_cells@,
            cells_in_bounds(*g),
            k <= cells.len(),
            grid.spec_width() == g.width,
            grid.spec_height() == g.height,
            grid.spec_generation() == 0,
            grid.spec_boundaries().len() == 0,
            forall|x: int, y: int|
                0 <= x < g.width && 0 <= y < g.height ==> #[trigger] grid.spec_in_grid(x, y) && grid.spec_cell(x, y)
                    == (Cell {
                    value: CellValue(CellType(initial_type(cells.take(k as int), x, y, g.default_cell_type))),
                    born_at: 0,
                }),
        decreases cells.len() - k,
    {
        let c = &g.initial_cells[k];
        let ghost before = grid;
        grid.set_cell(c.coord.0, c.coord.1, Cell { value: CellValue(CellType(c.cell_type)), born_at: 0 });
        let ghost k0 = k as int;
        k += 1;
        proof {
            assert(cells.take(k0).push(cells[k0]) =~= cells.take(k as int));
            assert forall|x: int, y: int| 0 <= x < g.width && 0 <= y < g.height implies #[trigger] grid.spec_in_grid(
                x,
                y,
            ) && grid.spec_cell(x, y) == (Cell {
                value: CellValue(CellType(initial_type(cells.take(k as int), x, y, g.default_cell_type))),
                born_at: 0,
            }) by {
                lemma_initial_type_push(cells.take(k0), cells[k0], x, y, g.default_cell_type);
                assert(before.spec_in_grid(x, y));
            }
        }
    }
    assert(cells.take(k as int) =~= cells);
    let ghost bs = raw_boundaries(*g);
    assert forall|x: usize, y: usize|
        match (#[trigger] grid.spec_boundary_at(x, y), last_boundary(bs.take(0), x, y)) {
            (None, None) => true,
            (Some(bb), Some(rb)) => boundary_from(bb, rb),
            _ => false,
        } by {
        assert(grid.spec_boundaries().len() == 0);
        assert(bs.take(0).len() == 0);
    }
    match &g.boundaries {
        None => {
            assert(bs.take(0) =~= bs);
        },
        Some(list) => {
            let mut j: usize = 0;
            while j < list.len()
                invariant
                    bs == list@,
                    boundaries_in_bounds(*g),
                    j <= bs.len(),
                    grid.spec_width() == g.width,
                    grid.spec_height() == g.height,
                    grid.spec_generation() == 0,
                    forall|x: int, y: int|
                        0 <= x < g.width && 0 <= y < g.height ==> #[trigger] grid.spec_in_grid(x, y)
                            && grid.spec_cell(x, y) == (Cell {
                            value: CellValue(CellType(initial_type(cells, x, y, g.default_cell_type))),
                            born_at: 0,
                        }),
                    boundaries_built_from(grid, bs.take(j as int)),
                decreases bs.len() - j,
            {
                let b = &list[j];
                let mut buf = BoundaryBuffer::new();
                buf.queues.push((b.channel, Vec::new()));
                buf.direction = b.direction.clone();
                buf.max_queue = b.max_queue;
                let ghost before = grid;
                grid.set_boundary(b.cell.0, b.cell.1, buf);
                let ghost j0 = j as int;
                j += 1;
                proof {
                    assert(bs.take(j0).push(bs[j0]) =~= bs.take(j as int));
                    assert forall|x: usize, y: usize|
                        match (#[trigger] grid.spec_boundary_at(x, y), last_boundary(bs.take(j as int), x, y)) {
                            (None, None) => true,
                            (Some(bb), Some(rb)) => boundary_from(bb, rb),
                            _ => false,
                        } by {
                        lemma_last_boundary_push(bs.take(j0), bs[j0], x, y);
                        assert(before.spec_boundary_at(x, y) == before.spec_boundary_at(x, y));
                    }
                    assert forall|x: int, y: int| 0 <= x < g.width && 0 <= y < g.height implies #[trigger] grid.spec_in_grid(
                        x,
                        y,
                    ) && grid.spec_cell(x, y) == (Cell {
                        value: CellValue(CellType(initial_type(cells, x, y, g.default_cell_type))),
                        born_at: 0,
                    }) by {
                        assert(before.spec_in_grid(x, y));
                    }
                }
            }
            assert(bs.take(j as int) =~= bs);
        },
    }
    grid
}

/// Validate a written configuration and build its grid and rule index. The rules of each
/// head are stably sorted by descending priority. The grid's cell count must fit `usize`.
/// The text of the error for an unsupported version `v`: it names `v` and the supported
/// version.
pub open spec fn version_error_text(v: nat) -> Seq<char> {
    "unsupported config version "@ + decimal_text(v) + " (this build supports version "@ + decimal_text(
        SUPPORTED_CONFIG_VERSION as nat,
    ) + ") -- if this config was written for a newer Cellaria, upgrade; if older, a migration may be needed"@
}

pub fn build_config(raw: RawConfig) -> (r: Result<(Grid, RuleIndex), CellariaError>)
    requires
        raw.grid.width * raw.grid.height <= usize::MAX,
    ensures
        match r {
            Ok(built_pair) => spec_config_error(raw) is None && grid_built_from(built_pair.0, raw.grid) && exists|
                built: Seq<Rule>,
            | #[trigger] rules_built_from(built, raw.rules@) && index_built_from(built_pair.1, built),
            Err(e) => spec_config_error(raw) == Some(error_kind(e)),
        },
        raw.version is Some && raw.version->0 != SUPPORTED_CONFIG_VERSION ==> (r matches Err(
            CellariaError::Config(m),
        ) && m@ == version_error_text(raw.version->0 as nat)),
{
    let version = match raw.version {
        Some(v) => v,
        None => 1,
    };
    if version != SUPPORTED_CONFIG_VERSION {
        let mut msg = String::from_str("unsupported config version ");
        msg.append(decimal_string(version as u64).as_str());
        msg.append(" (this build supports version ");
        msg.append(decimal_string(SUPPORTED_CONFIG_VERSION as u64).as_str());
        msg.append(") -- if this config was written for a newer Cellaria, upgrade; if older, a migration may be needed");
        return Err(CellariaError::Config(msg));
    }
    let g = &raw.grid;
    assert(*g == raw.grid);
    let mut k: usize = 0;
    while k < g.initial_cells.len()
        invariant
            raw.version is Some ==> raw.version->0 == SUPPORTED_CONFIG_VERSION,
            *g == raw.grid,
            k <= g.initial_cells@.len(),
            forall|j: int|
                0 <= j < k ==> (#[trigger] g.initial_cells@[j]).coord.0 < g.width && g.initial_cells@[j].coord.1
                    < g.height,
        decreases g.initial_cells@.len() - k,
    {
        let c = &g.initial_cells[k];
        if c.coord.0 >= g.width || c.coord.1 >= g.height {
            assert(g.initial_cells@[k as int] == *c);
            assert(g.initial_cells@[k as int].coord.0 >= g.width || g.initial_cells@[k as int].coord.1 >= g.height);
            assert(!cells_in_bounds(*g));
            assert(!cells_in_bounds(raw.grid));
            return Err(
                CellariaError::Config(out_of_bounds_message("initial_cells", c.coord.0, c.coord.1, g.width, g.height)),
            );
        }
        k += 1;
    }
    match &g.boundaries {
        None => {},
        Some(list) => {
            let mut j: usize = 0;
            while j < list.len()
                invariant
                    raw.version is Some ==> raw.version->0 == SUPPORTED_CONFIG_VERSION,
                    *g == raw.grid,
                    g.boundaries == Some(*list),
                    j <= list@.len(),
                    forall|i: int| 0 <= i < j ==> (#[trigger] list@[i]).cell.0 < g.width && list@[i].cell.1 < g.height,
                decreases list@.len() - j,
            {
                let b = &list[j];
                if b.cell.0 >= g.width || b.cell.1 >= g.height {
                    assert(raw_boundaries(*g)[j as int] == list@[j as int]);
                    assert(!boundaries_in_bounds(raw.grid));
                    return Err(
                        CellariaError::Config(out_of_bounds_message("boundaries", b.cell.0, b.cell.1, g.width, g.height)),
                    );
                }
                j += 1;
            }
            assert(boundaries_in_bounds(raw.grid));
        },
    }
    assert(cells_in_bounds(raw.grid));
    assert(boundaries_in_bounds(raw.grid));
    let grid = build_grid(&raw.grid);
    let total = raw.rules.len();
    let ghost raws = raw.rules@;
    let mut rest = raw.rules;
    let mut index = RuleIndex::new();
    let ghost mut built: Seq<Rule> = Seq::empty();
    let mut i: usize = 0;
    while rest.len() > 0
        invariant
            raw.version is Some ==> raw.version->0 == SUPPORTED_CONFIG_VERSION,
            grid_built_from(grid, raw.grid),
            raws == raw.rules@,
            total == raws.len(),
            i <= raws.len(),
            rest@ == raws.skip(i as int),
            cells_in_bounds(raw.grid),
            boundaries_in_bounds(raw.grid),
            version == SUPPORTED_CONFIG_VERSION,
            version == match raw.version {
                Some(v) => v,
                None => 1,
            },
            first_rule_error(raws.take(i as int)) is None,
            rules_built_from(built, raws.take(i as int)),
            forall|h: int| 0 <= h < 256 ==> #[trigger] index.rules_of(h) == priority_sorted(rules_with_head(built, h)),
        decreases rest@.len(),
    {
        let ghost pre = raws.take(i as int);
        let raw_rule = rest.remove(0);
        proof {
            assert(raw_rule == raws[i as int]);
            assert(pre.push(raw_rule) =~= raws.take(i as int + 1));
            lemma_first_rule_error_push(pre, raw_rule);
        }
        let rule = match build_rule(raw_rule) {
            Ok(rule) => rule,
            Err(e) => {
                proof {
                    lemma_first_rule_error_prefix(raws, i as int + 1);
                }
                return Err(e);
            },
        };
        let ghost head = rule_head(rule);
        let h: u8 = if rule.id.len() > 0 {
            rule.id[0].0
        } else {
            rule.pattern[0].2.0
        };
        assert(h as int == head);
        let ghost before = index;
        index.insert_by_priority(CellType(h), rule);
        proof {
            let nb = built.push(rule);
            assert forall|hh: int| 0 <= hh < 256 implies #[trigger] index.rules_of(hh) == priority_sorted(
                rules_with_head(nb, hh),
            ) by {
                lemma_rules_with_head_push(built, rule, hh);
                if hh == h as int {
                    let t = rules_with_head(built, hh).push(rule);
                    assert(t.drop_last() =~= rules_with_head(built, hh));
                }
            }
            assert forall|q: int| 0 <= q < i + 1 implies rule_built_from(#[trigger] nb[q], raws.take(i as int + 1)[q]) by {
                if q < i {
                    assert(nb[q] == built[q]);
                }
            }
            built = nb;
        }
        i += 1;
        proof {
            assert(raws.skip(i as int - 1).drop_first() =~= raws.skip(i as int));
        }
    }
    proof {
        assert(raws.skip(i as int).len() == 0);
        assert(raws.take(i as int) =~= raws);
        assert(rules_built_from(built, raw.rules@) && index_built_from(index, built));
        assert(first_rule_error(raw.rules@) is None);
        assert(cells_in_bounds(raw.grid));
        assert(spec_config_error(raw) is None);
        assert(grid_built_from(grid, raw.grid));
        assert(exists|b: Seq<Rule>| #[trigger] rules_built_from(b, raw.rules@) && index_built_from(index, b));
    }
    Ok((grid, index))
}

pub(crate) proof fn lemma_first_rule_error_some(rules: Seq<RawRule>, k: int)
    requires
        0 <= k < rules.len(),
        spec_rule_error(rules[k]) is Some,
    ensures
        first_rule_error(rules) is Some,
    decreases rules.len(),
{
    if k < rules.len() - 1 {
        lemma_first_rule_error_some(rules.drop_last(), k);
    }
}

/// Law: one invalid rule rejects the whole configuration; no configuration is built with
/// an offending rule left out.
pub proof fn lemma_invalid_rule_rejects_config(c: RawConfig, k: int)
    requires
        0 <= k < c.rules@.len(),
        spec_rule_error(c.rules@[k]) is Some,
    ensures
        spec_config_error(c) is Some,
{
    lemma_first_rule_error_some(c.rules@, k);
}

/// Law: an initial cell or a boundary outside the grid rejects the whole configuration.
pub proof fn lemma_out_of_grid_rejects_config(c: RawConfig)
    requires
        !cells_in_bounds(c.grid) || !boundaries_in_bounds(c.grid),
    ensures
        spec_config_error(c) == Some(ErrorKind::Config),
{
}


} // verus!
