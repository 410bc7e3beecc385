use cellaria::arbitrator::{arbitrate, arbitrate_with_cam};
use cellaria::conflict_analyzer::build_rule_data_cache;
use cellaria::engine::Engine;
use cellaria::grid::Grid;
use cellaria::journal::MatchMap;
use cellaria::matcher::{detect_cam_matches, detect_matches};
use cellaria::pipeline::run_tick;
use cellaria::types::{
    BoundaryBuffer, CamSearch, Cell, CellType, CellValue, ChangeValue, Direction, OverflowAction, Rule, RuleIndex,
    RuleMatch, ShiftSpec,
};

fn cell(v: u8) -> Cell {
    Cell { value: CellValue(CellType(v)), born_at: 0 }
}

fn rule(id: Vec<u8>, shifts: Vec<Vec<ShiftSpec>>, changes: Vec<(i32, i32, u8)>, priority: u32) -> Rule {
    Rule {
        id: id.into_iter().map(CellType).collect(),
        pattern: vec![],
        shifts,
        changes: changes.into_iter().map(|(dx, dy, v)| (dx, dy, ChangeValue::Literal(v))).collect(),
        active_only: false,
        priority,
        min_age: 0,
        overflow: OverflowAction::Discard,
        cam: None,
        tie_break: 0,
        starvation_after: None,
        feedback: None,
        recursion: None,
        memory: None,
        max_activations: None,
        cross_layer_reads: vec![],
    }
}

/// Rules grouped by the first type of their id, highest priority first.
fn make_rule_index(rules: Vec<Rule>) -> RuleIndex {
    let mut index = RuleIndex::new();
    for r in rules {
        if let Some(&head) = r.id.first() {
            index.insert_by_priority(head, r);
        }
    }
    index
}

fn all_cells(g: &Grid) -> Vec<(usize, usize)> {
    let mut v = Vec::new();
    for y in 0..g.height() {
        for x in 0..g.width() {
            v.push((x, y));
        }
    }
    v
}

fn value_at(g: &Grid, x: usize, y: usize) -> u8 {
    g.get_cell(x, y).unwrap().value.0 .0
}

fn m(x: u32, y: u32, head: u8, rule_idx: usize) -> RuleMatch {
    RuleMatch { x, y, head: CellType(head), rule_idx }
}

#[test]
fn test_detect_simple_pattern() {
    let mut grid = Grid::new(4, 1, 0);
    grid.set_cell(1, 0, cell(5));
    grid.set_cell(2, 0, cell(6));
    let index = make_rule_index(vec![rule(vec![5, 6], vec![], vec![(0, 0, 7)], 10)]);
    let engine = Engine::new(grid, index);
    let matches = engine.detect_matches();
    assert_eq!(matches.len(), 1);
    assert_eq!(matches[0].x, 1);
    assert_eq!(matches[0].y, 0);
}

#[test]
fn test_detect_no_match() {
    let grid = Grid::new(4, 1, 0);
    let index = make_rule_index(vec![rule(vec![1, 2], vec![], vec![], 10)]);
    let engine = Engine::new(grid, index);
    let matches = engine.detect_matches();
    assert!(matches.is_empty());
}

#[test]
fn test_arbitrate_no_conflict() {
    let grid = Grid::new(10, 1, 0);
    let index = make_rule_index(vec![rule(vec![1], vec![], vec![], 10), rule(vec![2], vec![], vec![], 10)]);
    let engine = Engine::new(grid, index);
    let accepted = engine.arbitrate(vec![m(1, 0, 1, 0), m(5, 0, 2, 0)]);
    assert_eq!(accepted.len(), 2);
}

#[test]
fn test_shift_right() {
    let mut grid = Grid::new(4, 1, 0);
    grid.set_cell(0, 0, cell(1));
    grid.set_cell(1, 0, cell(2));
    grid.set_cell(2, 0, cell(3));
    let index = make_rule_index(vec![rule(vec![1], vec![vec![ShiftSpec::new(Direction::Right, 1)]], vec![(0, 0, 0)], 10)]);
    let cache = build_rule_data_cache(&index);
    let matches = detect_matches(&grid, &index, &all_cells(&grid));
    let accepted = arbitrate(matches, &index, &cache, &grid);
    assert!(!accepted.is_empty());
}

#[test]
fn test_apply_local_changes() {
    let mut grid = Grid::new(3, 3, 0);
    grid.set_cell(1, 1, cell(5));
    let index = make_rule_index(vec![rule(vec![5], vec![], vec![(0, 0, 9)], 10)]);
    let mut engine = Engine::new(grid, index);
    let matches = engine.detect_matches();
    let accepted = engine.arbitrate(matches);
    engine.apply_matches(accepted);
    assert_eq!(engine.grid.get_cell(1, 1).unwrap().value, CellValue(CellType(9)));
}

#[test]
fn test_apply_matches_empty() {
    let grid = Grid::new(3, 3, 0);
    let index = make_rule_index(vec![]);
    let mut engine = Engine::new(grid, index);
    let (regions, _) = engine.apply_matches(vec![]);
    assert!(regions.is_empty());
}

#[test]
fn test_run_tick_simple() {
    let mut grid = Grid::new(3, 3, 0);
    grid.set_cell(1, 1, cell(7));
    let index = make_rule_index(vec![rule(vec![7], vec![], vec![(0, 0, 3)], 10)]);
    let (accepted, _) = run_tick(&mut grid, &index);
    assert_eq!(accepted.len(), 1);
    assert_eq!(grid.get_cell(1, 1).unwrap().value, CellValue(CellType(3)));
}

#[test]
fn test_run_tick_empty_grid() {
    let mut grid = Grid::new(3, 3, 0);
    let index = RuleIndex::new();
    let (accepted, _) = run_tick(&mut grid, &index);
    assert!(accepted.is_empty());
}

#[test]
fn test_io_boundary() {
    let mut grid = Grid::new(8, 1, 0);
    let mut input_buf = BoundaryBuffer::new();
    input_buf.direction = "input".to_string();
    grid.set_boundary(0, 0, input_buf);
    let mut output_buf = BoundaryBuffer::new();
    output_buf.direction = "output".to_string();
    grid.set_boundary(7, 0, output_buf);
    let index = make_rule_index(vec![rule(vec![5], vec![vec![ShiftSpec::new(Direction::Right, 1)]], vec![(0, 0, 0)], 10)]);
    let mut engine = Engine::new(grid, index);
    let matches = engine.detect_matches();
    assert!(matches.is_empty(), "No 5 on grid");
    let outputs = engine.pop_output();
    assert!(outputs.is_empty());
}

fn mixed_group_rule_index() -> RuleIndex {
    let mut full = rule(vec![10], vec![], vec![(0, 0, 11)], 20);
    full.pattern = vec![(0, 0, CellType(10)), (1, 0, CellType(20))];
    let wildcard = rule(vec![10], vec![], vec![(0, 0, 12)], 10);
    let mut index = RuleIndex::new();
    index.push_rule(CellType(10), full);
    index.push_rule(CellType(10), wildcard);
    index
}

#[test]
fn test_mixed_group_matches_correctly_despite_split() {
    let index = mixed_group_rule_index();
    let mut grid1 = Grid::new(2, 1, 0);
    grid1.set_cell(0, 0, cell(10));
    grid1.set_cell(1, 0, cell(20));
    let mut idxs: Vec<usize> = detect_matches(&grid1, &index, &vec![(0, 0)]).iter().map(|m| m.rule_idx).collect();
    idxs.sort_unstable();
    assert_eq!(idxs, vec![0, 1]);

    let mut grid2 = Grid::new(2, 1, 0);
    grid2.set_cell(0, 0, cell(10));
    grid2.set_cell(1, 0, cell(99));
    let matches2 = detect_matches(&grid2, &index, &vec![(0, 0)]);
    assert_eq!(matches2.len(), 1);
    assert_eq!(matches2[0].rule_idx, 1);
}

/// At the grid's edge the rule that reads past it cannot match, but its sibling that reads
/// only its own cell still does.
#[test]
fn mixed_group_edge_keeps_the_rule_that_reads_inside() {
    let index = mixed_group_rule_index();
    let mut grid = Grid::new(2, 1, 0);
    grid.set_cell(1, 0, cell(10));
    let matches = detect_matches(&grid, &index, &vec![(1, 0)]);
    assert_eq!(matches, vec![m(1, 0, 10, 1)]);
}

// ---------------------------------------------------------------------------
// Arbitration
// ---------------------------------------------------------------------------

/// Two movers heading for the same cell: the higher priority wins, the other is rejected.
#[test]
fn arbitration_higher_priority_wins_shared_target() {
    let grid = Grid::new(5, 1, 0);
    let index = make_rule_index(vec![
        rule(vec![1], vec![vec![ShiftSpec::new(Direction::Right, 1)]], vec![], 5),
        rule(vec![2], vec![vec![ShiftSpec::new(Direction::Left, 1)]], vec![], 9),
    ]);
    let cache = build_rule_data_cache(&index);
    let accepted = arbitrate(vec![m(1, 0, 1, 0), m(3, 0, 2, 0)], &index, &cache, &grid);
    assert_eq!(accepted, vec![m(3, 0, 2, 0)]);
}

/// Equal keys up to position: the match further right (larger x) is considered first.
#[test]
fn arbitration_ties_go_to_larger_coordinates() {
    let grid = Grid::new(5, 1, 0);
    let index = make_rule_index(vec![rule(vec![1], vec![vec![ShiftSpec::new(Direction::Right, 1)]], vec![], 5)]);
    let cache = build_rule_data_cache(&index);
    // x=1 writes (1,0),(2,0); x=2 writes (2,0),(3,0): they share (2,0).
    let accepted = arbitrate(vec![m(1, 0, 1, 0), m(2, 0, 1, 0)], &index, &cache, &grid);
    assert_eq!(accepted, vec![m(2, 0, 1, 0)]);
}

/// A rejected match does not block a later one: c loses to b, so a (which only conflicts
/// with c) is accepted.
#[test]
fn arbitration_rejected_match_frees_its_cells() {
    let grid = Grid::new(10, 1, 0);
    let index = make_rule_index(vec![
        rule(vec![1], vec![], vec![(0, 0, 0), (1, 0, 0)], 1),
        rule(vec![2], vec![], vec![(0, 0, 0), (1, 0, 0)], 2),
        rule(vec![3], vec![], vec![(0, 0, 0), (1, 0, 0)], 3),
    ]);
    let cache = build_rule_data_cache(&index);
    // b (prio 3) at x=3 writes 3,4; c (prio 2) at x=4 writes 4,5; a (prio 1) at x=5 writes 5,6.
    let accepted = arbitrate(vec![m(5, 0, 1, 0), m(4, 0, 2, 0), m(3, 0, 3, 0)], &index, &cache, &grid);
    assert_eq!(accepted, vec![m(3, 0, 3, 0), m(5, 0, 1, 0)]);
}

/// Accepted matches never write a common cell, and every rejected match shares a cell with
/// an accepted one.
#[test]
fn arbitration_accepted_writes_are_disjoint() {
    let grid = Grid::new(12, 1, 0);
    let index = make_rule_index(vec![rule(vec![1], vec![], vec![(0, 0, 0), (1, 0, 0), (2, 0, 0)], 1)]);
    let cache = build_rule_data_cache(&index);
    let ms: Vec<RuleMatch> = (0..10).map(|x| m(x, 0, 1, 0)).collect();
    let accepted = arbitrate(ms.clone(), &index, &cache, &grid);
    let writes = |a: &RuleMatch| -> Vec<u32> { vec![a.x, a.x + 1, a.x + 2] };
    for i in 0..accepted.len() {
        for j in (i + 1)..accepted.len() {
            assert!(writes(&accepted[i]).iter().all(|c| !writes(&accepted[j]).contains(c)));
        }
    }
    for c in &ms {
        if !accepted.contains(c) {
            assert!(accepted.iter().any(|a| writes(a).iter().any(|w| writes(c).contains(w))));
        }
    }
    // Highest x first: 9, then 6, then 3, then 0.
    assert_eq!(accepted, vec![m(9, 0, 1, 0), m(6, 0, 1, 0), m(3, 0, 1, 0), m(0, 0, 1, 0)]);
}

/// The tie-break rotates with the generation: (tie_break + generation) % 16, highest first.
#[test]
fn arbitration_tie_break_rotates_with_generation() {
    let grid = Grid::new(6, 1, 0);
    let mut a = rule(vec![1], vec![], vec![(0, 0, 0), (1, 0, 0)], 5);
    a.tie_break = 0;
    let mut b = rule(vec![2], vec![], vec![(0, 0, 0), (1, 0, 0)], 5);
    b.tie_break = 8;
    let index = make_rule_index(vec![a, b]);
    let cache = build_rule_data_cache(&index);
    let cams: MatchMap<(u32, u32)> = MatchMap::new();
    let starv: MatchMap<u32> = MatchMap::new();
    let ms = vec![m(1, 0, 1, 0), m(2, 0, 2, 0)];
    // generation 0: rotated 0 vs 8 -> rule 2 wins.
    let r0 = arbitrate_with_cam(ms.clone(), &index, &cache, &grid, &cams, &MatchMap::<u64>::new(), 0, &starv, &vec![]).0;
    assert_eq!(r0, vec![m(2, 0, 2, 0)]);
    // generation 8: rotated 8 vs 0 -> rule 1 wins.
    let r8 = arbitrate_with_cam(ms.clone(), &index, &cache, &grid, &cams, &MatchMap::<u64>::new(), 8, &starv, &vec![]).0;
    assert_eq!(r8, vec![m(1, 0, 1, 0)]);
}

/// A starving match reaches priority u32::MAX and wins.
#[test]
fn arbitration_starved_match_wins() {
    let grid = Grid::new(6, 1, 0);
    let mut low = rule(vec![1], vec![], vec![(0, 0, 0), (1, 0, 0)], 1);
    low.starvation_after = Some(3);
    let high = rule(vec![2], vec![], vec![(0, 0, 0), (1, 0, 0)], 9);
    let index = make_rule_index(vec![low, high]);
    let cache = build_rule_data_cache(&index);
    let cams: MatchMap<(u32, u32)> = MatchMap::new();
    let mut starv: MatchMap<u32> = MatchMap::new();
    let ms = vec![m(1, 0, 1, 0), m(2, 0, 2, 0)];
    starv.set((1, 0, 0), 2);
    assert_eq!(arbitrate_with_cam(ms.clone(), &index, &cache, &grid, &cams, &MatchMap::<u64>::new(), 0, &starv, &vec![]).0, vec![m(2, 0, 2, 0)]);
    starv.set((1, 0, 0), 3);
    assert_eq!(arbitrate_with_cam(ms.clone(), &index, &cache, &grid, &cams, &MatchMap::<u64>::new(), 0, &starv, &vec![]).0, vec![m(1, 0, 1, 0)]);
}

/// Older cells are considered first at equal priority, whatever their position.
#[test]
fn arbitration_older_cell_wins_at_equal_priority() {
    let mut grid = Grid::new(6, 1, 0);
    let empty = RuleIndex::new();
    run_tick(&mut grid, &empty);
    run_tick(&mut grid, &empty);
    assert_eq!(grid.generation(), 2);
    grid.set_cell(1, 0, Cell { value: CellValue(CellType(1)), born_at: 0 });
    grid.set_cell(2, 0, Cell { value: CellValue(CellType(1)), born_at: 2 });
    assert_eq!(grid.get_age(1, 0), 2);
    assert_eq!(grid.get_age(2, 0), 0);
    let index = make_rule_index(vec![rule(vec![1], vec![], vec![(0, 0, 0), (1, 0, 0)], 5)]);
    let cache = build_rule_data_cache(&index);
    let r = arbitrate(vec![m(2, 0, 1, 0), m(1, 0, 1, 0)], &index, &cache, &grid);
    assert_eq!(r, vec![m(1, 0, 1, 0)]);
}

// ---------------------------------------------------------------------------
// Ticks
// ---------------------------------------------------------------------------

/// A single mover advances one cell per tick and the generation advances.
#[test]
fn tick_moves_a_cell_and_advances_generation() {
    let mut grid = Grid::new(4, 1, 0);
    grid.set_cell(0, 0, cell(1));
    let index = make_rule_index(vec![rule(vec![1], vec![vec![ShiftSpec::new(Direction::Right, 1)]], vec![], 10)]);
    let (accepted, _) = run_tick(&mut grid, &index);
    assert_eq!(accepted, vec![m(0, 0, 1, 0)]);
    assert_eq!(value_at(&grid, 0, 0), 0);
    assert_eq!(value_at(&grid, 1, 0), 1);
    assert_eq!(grid.generation(), 1);
    // The moved cell was written this tick: age 0.
    assert_eq!(grid.get_age(1, 0), 0);
    let (accepted, _) = run_tick(&mut grid, &index);
    assert_eq!(accepted, vec![m(1, 0, 1, 0)]);
    assert_eq!(value_at(&grid, 2, 0), 1);
    assert_eq!(grid.generation(), 2);
}

/// A tick with no matches still advances the generation and ages the cells.
#[test]
fn tick_without_matches_ages_the_grid() {
    let mut grid = Grid::new(2, 1, 0);
    grid.set_cell(0, 0, cell(4));
    let index = RuleIndex::new();
    let (accepted, outputs) = run_tick(&mut grid, &index);
    assert!(accepted.is_empty() && outputs.is_empty());
    assert_eq!(grid.generation(), 1);
    assert_eq!(grid.get_age(0, 0), 1);
    assert_eq!(value_at(&grid, 0, 0), 4);
}

/// A rule with an activation budget of 0 never fires; a rule with `memory` needs history.
#[test]
fn tick_leaves_out_rules_that_need_state() {
    let mut grid = Grid::new(2, 1, 0);
    grid.set_cell(0, 0, cell(1));
    let mut r = rule(vec![1], vec![], vec![(0, 0, 2)], 10);
    r.max_activations = Some(0);
    let index = make_rule_index(vec![r]);
    let (accepted, _) = run_tick(&mut grid, &index);
    assert!(accepted.is_empty());
    assert_eq!(value_at(&grid, 0, 0), 1);

    let mut r = rule(vec![1], vec![], vec![(0, 0, 2)], 10);
    r.max_activations = Some(1);
    let index = make_rule_index(vec![r]);
    let (accepted, _) = run_tick(&mut grid, &index);
    assert_eq!(accepted.len(), 1);
    assert_eq!(value_at(&grid, 0, 0), 2);
}

/// A shift off the edge with `Write(0)` writes the head's value on the edge cell and
/// outputs it to the boundary buffer there.
#[test]
fn tick_overflow_writes_to_edge_and_outputs() {
    let mut grid = Grid::new(3, 1, 0);
    let mut out = BoundaryBuffer::new();
    out.direction = "output".to_string();
    grid.set_boundary(2, 0, out);
    grid.set_cell(2, 0, cell(6));
    let mut r = rule(vec![6], vec![vec![ShiftSpec::new(Direction::Right, 1)]], vec![], 10);
    r.overflow = OverflowAction::Write(0);
    let index = make_rule_index(vec![r]);
    let (accepted, outputs) = run_tick(&mut grid, &index);
    assert_eq!(accepted.len(), 1);
    assert_eq!(outputs.len(), 1);
    assert_eq!(outputs[0].0, 2);
    assert_eq!(outputs[0].1.value, CellValue(CellType(6)));
}

/// `cam`: the magnet finds the nearest target; the tick empties the target's cell and gives
/// the magnet's cell the target's type.
#[test]
fn tick_cam_attracts_nearest_target() {
    let mut grid = Grid::new(5, 1, 0);
    grid.set_cell(0, 0, cell(3));
    grid.set_cell(3, 0, cell(8));
    let mut r = rule(vec![3], vec![], vec![], 10);
    r.cam = Some(CamSearch { radius: 4, target_type: CellType(8) });
    let index = make_rule_index(vec![r]);
    let coords: Vec<(usize, usize)> = (0..5).map(|x| (x, 0)).collect();
    let (cams, positions) = detect_cam_matches(&grid, &index, &coords);
    assert_eq!(cams, vec![m(0, 0, 3, 0)]);
    assert_eq!(positions.get((0, 0, 0)), Some((3, 0)));
    let (accepted, _) = run_tick(&mut grid, &index);
    assert_eq!(accepted.len(), 1);
    assert_eq!(value_at(&grid, 3, 0), 0);
    assert_eq!(value_at(&grid, 0, 0), 8);
}

/// A win over a rival of the same priority and age is marked as decided below them; a win
/// by priority is not.
#[test]
fn arbitration_marks_tie_decided_wins() {
    let grid = Grid::new(6, 1, 0);
    let index = make_rule_index(vec![
        rule(vec![1], vec![], vec![(0, 0, 0), (1, 0, 0)], 5),
        rule(vec![2], vec![], vec![(0, 0, 0), (1, 0, 0)], 5),
        rule(vec![3], vec![], vec![(0, 0, 0), (1, 0, 0)], 9),
    ]);
    let cache = build_rule_data_cache(&index);
    let cams: MatchMap<(u32, u32)> = MatchMap::new();
    let starv: MatchMap<u32> = MatchMap::new();
    // Same priority: x=2 wins over x=1 on position alone.
    let (r, d) = arbitrate_with_cam(vec![m(1, 0, 1, 0), m(2, 0, 2, 0)], &index, &cache, &grid, &cams, &MatchMap::<u64>::new(), 0, &starv, &vec![]);
    assert_eq!(r, vec![m(2, 0, 2, 0)]);
    assert_eq!(d, vec![true]);
    // Higher priority: decided by priority.
    let (r, d) = arbitrate_with_cam(vec![m(2, 0, 1, 0), m(1, 0, 3, 0)], &index, &cache, &grid, &cams, &MatchMap::<u64>::new(), 0, &starv, &vec![]);
    assert_eq!(r, vec![m(1, 0, 3, 0)]);
    assert_eq!(d, vec![false]);
}

/// A reserved cell rejects every match that writes it.
#[test]
fn arbitration_respects_reserved_cells() {
    let grid = Grid::new(6, 1, 0);
    let index = make_rule_index(vec![rule(vec![1], vec![], vec![(0, 0, 0), (1, 0, 0)], 5)]);
    let cache = build_rule_data_cache(&index);
    let cams: MatchMap<(u32, u32)> = MatchMap::new();
    let starv: MatchMap<u32> = MatchMap::new();
    let (r, _) = arbitrate_with_cam(vec![m(1, 0, 1, 0), m(3, 0, 1, 0)], &index, &cache, &grid, &cams, &MatchMap::<u64>::new(), 0, &starv, &vec![(4, 0)]);
    assert_eq!(r, vec![m(1, 0, 1, 0)]);
}

// ---------------------------------------------------------------------------
// Ticks that remember
// ---------------------------------------------------------------------------

use cellaria::tick_state::{run_tick_with_state, TickState};
use cellaria::types::{MemorySpec, RecordTrigger, RecordedValue};

/// A rule with an activation budget of 2 fires twice, then never again.
#[test]
fn state_tick_respects_activation_budget() {
    let mut grid = Grid::new(1, 1, 0);
    grid.set_cell(0, 0, cell(1));
    let mut r = rule(vec![1], vec![], vec![(0, 0, 1)], 10);
    r.max_activations = Some(2);
    let index = make_rule_index(vec![r]);
    let mut st = TickState::new();
    assert_eq!(run_tick_with_state(&mut grid, &index, &mut st).0.len(), 1);
    assert_eq!(run_tick_with_state(&mut grid, &index, &mut st).0.len(), 1);
    assert_eq!(run_tick_with_state(&mut grid, &index, &mut st).0.len(), 0);
    assert_eq!(st.activations.get((1, 0)), 2);
}

/// A low-priority rule that keeps losing wins once its starvation counter reaches the
/// threshold, and its counter is then reset.
#[test]
fn state_tick_starvation_lets_the_loser_win() {
    let mut grid = Grid::new(2, 1, 0);
    grid.set_cell(0, 0, cell(1));
    grid.set_cell(1, 0, cell(2));
    // Both rules rewrite both cells to what they were: they always conflict.
    let mut low = rule(vec![1, 2], vec![], vec![(0, 0, 1), (1, 0, 2)], 1);
    low.starvation_after = Some(2);
    let mut high = rule(vec![2], vec![], vec![(-1, 0, 1), (0, 0, 2)], 9);
    high.pattern = vec![(0, 0, CellType(2)), (-1, 0, CellType(1))];
    let index = make_rule_index(vec![low, high]);
    let mut st = TickState::new();
    let (a1, _) = run_tick_with_state(&mut grid, &index, &mut st);
    assert_eq!(a1, vec![m(1, 0, 2, 0)]);
    assert_eq!(st.starvation.get((0, 0, 0)), Some(1));
    let (a2, _) = run_tick_with_state(&mut grid, &index, &mut st);
    assert_eq!(a2, vec![m(1, 0, 2, 0)]);
    assert_eq!(st.starvation.get((0, 0, 0)), Some(2));
    let (a3, _) = run_tick_with_state(&mut grid, &index, &mut st);
    assert_eq!(a3, vec![m(0, 0, 1, 0)]);
    assert_eq!(st.starvation.get((0, 0, 0)), None);
}

/// A rule with `memory` fires once its buffer has seen its pattern.
#[test]
fn state_tick_memory_gate_opens_after_history() {
    let mut grid = Grid::new(2, 1, 0);
    grid.set_cell(0, 0, cell(1));
    grid.set_cell(1, 0, cell(5));
    let mut r = rule(vec![1], vec![], vec![(0, 0, 2)], 10);
    r.memory = Some(MemorySpec {
        window: 2,
        record_trigger: RecordTrigger::NeighborType(Direction::Right),
        match_pattern: vec![RecordedValue::Type(CellType(5)), RecordedValue::Type(CellType(5))],
    });
    let index = make_rule_index(vec![r]);
    let mut st = TickState::new();
    let (a1, _) = run_tick_with_state(&mut grid, &index, &mut st);
    assert!(a1.is_empty());
    let (a2, _) = run_tick_with_state(&mut grid, &index, &mut st);
    assert!(a2.is_empty());
    let (a3, _) = run_tick_with_state(&mut grid, &index, &mut st);
    assert_eq!(a3.len(), 1);
    assert_eq!(value_at(&grid, 0, 0), 2);
}

/// State of a position that stops matching is dropped.
#[test]
fn state_tick_drops_state_of_vanished_matches() {
    let mut grid = Grid::new(2, 1, 0);
    grid.set_cell(0, 0, cell(1));
    grid.set_cell(1, 0, cell(2));
    let mut low = rule(vec![1, 2], vec![], vec![(0, 0, 1), (1, 0, 2)], 1);
    low.starvation_after = Some(5);
    let mut high = rule(vec![2], vec![], vec![(-1, 0, 1), (0, 0, 2)], 9);
    high.pattern = vec![(0, 0, CellType(2)), (-1, 0, CellType(1))];
    let index = make_rule_index(vec![low, high]);
    let mut st = TickState::new();
    run_tick_with_state(&mut grid, &index, &mut st);
    assert_eq!(st.starvation.get((0, 0, 0)), Some(1));
    grid.set_cell(0, 0, cell(7));
    run_tick_with_state(&mut grid, &index, &mut st);
    assert_eq!(st.starvation.get((0, 0, 0)), None);
}

// ---------------------------------------------------------------------------
// Split arbitration
// ---------------------------------------------------------------------------

use cellaria::spatial::{arbitrate_spatial, arbitrate_spatial_banded};

fn sorted(mut v: Vec<RuleMatch>) -> Vec<RuleMatch> {
    v.sort_by_key(|m| (m.x, m.y, m.rule_idx));
    v
}

/// Few matches: split arbitration is the single greedy pass.
#[test]
fn spatial_small_input_is_one_pass() {
    let grid = Grid::new(10, 1, 0);
    let index = make_rule_index(vec![rule(vec![1], vec![], vec![(0, 0, 0), (1, 0, 0)], 5)]);
    let cache = build_rule_data_cache(&index);
    let ms: Vec<RuleMatch> = (0..8).map(|x| m(x, 0, 1, 0)).collect();
    let central = arbitrate(ms.clone(), &index, &cache, &grid);
    assert_eq!(arbitrate_spatial(ms, &index, &cache, &grid, 1), central);
}

/// Many matches that never conflict: every one is accepted, whichever band it falls in.
#[test]
fn spatial_split_accepts_independent_matches() {
    let n = 5000u32;
    let grid = Grid::new(n as usize, 1, 0);
    let index = make_rule_index(vec![rule(vec![1], vec![], vec![(0, 0, 2)], 5)]);
    let cache = build_rule_data_cache(&index);
    let cams: MatchMap<(u32, u32)> = MatchMap::new();
    let starv: MatchMap<u32> = MatchMap::new();
    let ms: Vec<RuleMatch> = (0..n).map(|x| m(x, 0, 1, 0)).collect();
    let (r, d) = arbitrate_spatial_banded(ms.clone(), &index, &cache, &grid, 1, &cams, &MatchMap::<u64>::new(), 0, &starv, 4);
    assert_eq!(r.len(), n as usize);
    assert_eq!(d.len(), r.len());
    assert_eq!(sorted(r), sorted(ms));
}

/// Conflicts that come in isolated pairs: the split result accepts the same matches as one
/// pass over all of them.
#[test]
fn spatial_split_matches_one_pass_on_isolated_pairs() {
    let n = 7500u32;
    let grid = Grid::new(n as usize + 1, 1, 0);
    let index = make_rule_index(vec![rule(vec![1], vec![], vec![(0, 0, 0), (1, 0, 0)], 5)]);
    let cache = build_rule_data_cache(&index);
    let cams: MatchMap<(u32, u32)> = MatchMap::new();
    let starv: MatchMap<u32> = MatchMap::new();
    let ms: Vec<RuleMatch> = (0..n).filter(|x| x % 3 != 2).map(|x| m(x, 0, 1, 0)).collect();
    let central = arbitrate(ms.clone(), &index, &cache, &grid);
    let (r, _) = arbitrate_spatial_banded(ms, &index, &cache, &grid, 1, &cams, &MatchMap::<u64>::new(), 0, &starv, 4);
    assert_eq!(central.len(), 2500);
    assert_eq!(sorted(r), sorted(central));
}

/// A long chain of overlapping matches: the split result still never accepts two matches
/// that write the same cell, and accepts only candidates.
#[test]
fn spatial_split_on_chain_accepts_disjoint_writes() {
    let n = 5000u32;
    let grid = Grid::new(n as usize + 1, 1, 0);
    let index = make_rule_index(vec![rule(vec![1], vec![], vec![(0, 0, 0), (1, 0, 0)], 5)]);
    let cache = build_rule_data_cache(&index);
    let cams: MatchMap<(u32, u32)> = MatchMap::new();
    let starv: MatchMap<u32> = MatchMap::new();
    let ms: Vec<RuleMatch> = (0..n).map(|x| m(x, 0, 1, 0)).collect();
    let (r, d) = arbitrate_spatial_banded(ms.clone(), &index, &cache, &grid, 1, &cams, &MatchMap::<u64>::new(), 0, &starv, 4);
    assert_eq!(d.len(), r.len());
    let xs: Vec<u32> = sorted(r).iter().map(|m| m.x).collect();
    assert!(!xs.is_empty());
    for w in xs.windows(2) {
        assert!(w[1] > w[0] + 1);
    }
    assert!(xs.iter().all(|x| *x < n));
}

/// On a long chain of overlapping matches the promised result is exactly the one greedy
/// pass: every other match from the right end, `n - 1, n - 3, ...`.
#[test]
fn spatial_with_cam_on_chain_is_the_one_pass_result() {
    let n = 5000u32;
    let grid = Grid::new(n as usize + 1, 1, 0);
    let index = make_rule_index(vec![rule(vec![1], vec![], vec![(0, 0, 0), (1, 0, 0)], 5)]);
    let cache = build_rule_data_cache(&index);
    let cams: MatchMap<(u32, u32)> = MatchMap::new();
    let starv: MatchMap<u32> = MatchMap::new();
    let ms: Vec<RuleMatch> = (0..n).map(|x| m(x, 0, 1, 0)).collect();
    let central = arbitrate_with_cam(ms.clone(), &index, &cache, &grid, &cams, &MatchMap::<u64>::new(), 0, &starv, &vec![]);
    let spatial = cellaria::spatial::arbitrate_spatial_with_cam(ms, &index, &cache, &grid, 1, &cams, &MatchMap::<u64>::new(), 0, &starv);
    assert_eq!(spatial, central);
    let expected: Vec<RuleMatch> = (0..n / 2).map(|k| m(n - 1 - 2 * k, 0, 1, 0)).collect();
    assert_eq!(spatial.0, expected);
}

/// The accepted matches do not depend on the order the candidates come in.
#[test]
fn arbitration_ignores_input_order() {
    let grid = Grid::new(12, 1, 0);
    let index = make_rule_index(vec![
        rule(vec![1], vec![], vec![(0, 0, 0), (1, 0, 0)], 5),
        rule(vec![2], vec![], vec![(0, 0, 0), (1, 0, 0)], 7),
    ]);
    let cache = build_rule_data_cache(&index);
    let cams: MatchMap<(u32, u32)> = MatchMap::new();
    let starv: MatchMap<u32> = MatchMap::new();
    let ms = vec![m(0, 0, 1, 0), m(1, 0, 2, 0), m(2, 0, 1, 0), m(3, 0, 1, 0), m(4, 0, 2, 0), m(6, 0, 1, 0)];
    let mut reversed = ms.clone();
    reversed.reverse();
    let a = arbitrate_with_cam(ms, &index, &cache, &grid, &cams, &MatchMap::<u64>::new(), 0, &starv, &vec![]).0;
    let b = arbitrate_with_cam(reversed, &index, &cache, &grid, &cams, &MatchMap::<u64>::new(), 0, &starv, &vec![]).0;
    assert_eq!(sorted(a), sorted(b));
}

/// A match whose feedback has latched reserves the cells of its new direction: its shift
/// to the left meets the rival's target, though its declared shift to the right would not.
#[test]
fn arbitration_uses_the_latched_feedback_direction() {
    let grid = Grid::new(6, 1, 0);
    let mut turning = rule(vec![1], vec![vec![ShiftSpec::new(Direction::Right, 1)]], vec![], 9);
    turning.feedback = Some(cellaria::types::FeedbackSpec { timeout: 1, new_direction: Direction::Left });
    let mover = rule(vec![2], vec![vec![ShiftSpec::new(Direction::Right, 1)]], vec![], 5);
    let index = make_rule_index(vec![turning, mover]);
    let cache = build_rule_data_cache(&index);
    let cams: MatchMap<(u32, u32)> = MatchMap::new();
    let starv: MatchMap<u32> = MatchMap::new();
    let ms = vec![m(2, 0, 1, 0), m(0, 0, 2, 0)];
    let fresh: MatchMap<u64> = MatchMap::new();
    let r = arbitrate_with_cam(ms.clone(), &index, &cache, &grid, &cams, &fresh, 0, &starv, &vec![]).0;
    assert_eq!(sorted(r), vec![m(0, 0, 2, 0), m(2, 0, 1, 0)]);
    let mut latched: MatchMap<u64> = MatchMap::new();
    latched.set((2, 0, 0), 1);
    let r = arbitrate_with_cam(ms, &index, &cache, &grid, &cams, &latched, 0, &starv, &vec![]).0;
    assert_eq!(r, vec![m(2, 0, 1, 0)]);
}

/// Matches that write different cells give the same grid in either order.
#[test]
fn apply_matches_order_free_for_disjoint_writes() {
    let run = |order: Vec<RuleMatch>| {
        let mut grid = Grid::new(6, 1, 0);
        grid.set_cell(0, 0, cell(1));
        grid.set_cell(4, 0, cell(2));
        let index = make_rule_index(vec![
            rule(vec![1], vec![vec![ShiftSpec::new(Direction::Right, 1)]], vec![], 10),
            rule(vec![2], vec![], vec![(0, 0, 7)], 10),
        ]);
        let mut engine = Engine::new(grid, index);
        engine.apply_matches(order);
        (0..6).map(|x| engine.grid.get_cell(x, 0).unwrap().value.0 .0).collect::<Vec<u8>>()
    };
    let a = run(vec![m(0, 0, 1, 0), m(4, 0, 2, 0)]);
    let b = run(vec![m(4, 0, 2, 0), m(0, 0, 1, 0)]);
    assert_eq!(a, b);
    assert_eq!(a, vec![0, 1, 0, 0, 7, 0]);
}
