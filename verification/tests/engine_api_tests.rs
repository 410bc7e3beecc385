use cellaria::conflict_analyzer::CompositionVerdict;
use cellaria::engine::Engine;
use cellaria::grid::Grid;
use cellaria::pipeline::{InputEvent, TerminationVerdict, TickLogEntry};
use cellaria::search::{compute_extension_flags, compute_search_radius_cache, expand_neighborhood, pattern_radius};
use cellaria::types::{BoundaryBuffer, Cell, CellType, CellValue, ChangeValue, OverflowAction, Rule, RuleIndex};

fn cell(v: u8) -> Cell {
    Cell { value: CellValue(CellType(v)), born_at: 0 }
}

fn rule(id: Vec<u8>, changes: Vec<(i32, i32, u8)>, priority: u32) -> Rule {
    Rule {
        id: id.into_iter().map(CellType).collect(),
        pattern: vec![],
        shifts: vec![],
        changes: changes.into_iter().map(|(dx, dy, v)| (dx, dy, ChangeValue::Literal(v))).collect(),
        active_only: false,
        priority,
        min_age: 0,
        overflow: OverflowAction::Discard,
        cam: None,
        tie_break: 0,
        starvation_after: None,
        feedback: None,
        recursion: None,
        memory: None,
        max_activations: None,
        cross_layer_reads: vec![],
    }
}

fn index_of(rules: Vec<Rule>) -> RuleIndex {
    let mut index = RuleIndex::new();
    for r in rules {
        let head = r.id[0];
        index.insert_by_priority(head, r);
    }
    index
}

fn buffer(direction: &str) -> BoundaryBuffer {
    let mut b = BoundaryBuffer::new();
    b.direction = direction.to_string();
    b
}

fn value_at(e: &Engine, x: usize, y: usize) -> u8 {
    e.grid().get_cell(x, y).unwrap().value.0 .0
}

#[test]
fn engine_input_reaches_the_grid() {
    let mut grid = Grid::new(4, 1, 0);
    grid.set_boundary(0, 0, buffer("input"));
    let mut e = Engine::new(grid, RuleIndex::new());
    e.push_input(0, 5);
    e.push_input(0, 6);
    e.apply_input();
    assert_eq!(value_at(&e, 0, 0), 5);
    e.apply_input();
    assert_eq!(value_at(&e, 0, 0), 6);
    e.apply_input();
    assert_eq!(value_at(&e, 0, 0), 6);
}

#[test]
fn engine_input_goes_to_first_input_buffer() {
    let mut grid = Grid::new(4, 1, 0);
    grid.set_boundary(3, 0, buffer("output"));
    grid.set_boundary(1, 0, buffer("input"));
    grid.set_boundary(2, 0, buffer("input"));
    let mut e = Engine::new(grid, RuleIndex::new());
    e.push_input(4, 9);
    e.apply_input();
    assert_eq!(value_at(&e, 1, 0), 9);
    assert_eq!(value_at(&e, 2, 0), 0);
    assert_eq!(value_at(&e, 3, 0), 0);
}

#[test]
fn engine_input_without_input_buffer_is_dropped() {
    let mut grid = Grid::new(2, 1, 0);
    grid.set_boundary(0, 0, buffer("output"));
    let mut e = Engine::new(grid, RuleIndex::new());
    e.push_input(0, 5);
    assert!(e.pop_output().is_empty());
}

#[test]
fn engine_input_recording() {
    let mut e = Engine::new(Grid::new(2, 1, 0), RuleIndex::new());
    e.push_input(1, 3);
    assert!(e.input_log().is_none());
    e.enable_input_recording();
    e.push_input(2, 7);
    assert_eq!(e.input_log().unwrap(), &[InputEvent { tick: 0, channel: 2, value: 7 }][..]);
}

#[test]
fn engine_drain_output_takes_only_output_buffers() {
    let mut grid = Grid::new(8, 1, 0);
    grid.set_boundary(0, 0, buffer("input"));
    grid.set_boundary(7, 0, buffer("output"));
    grid.enqueue_boundary(0, 0, 0, cell(1));
    grid.enqueue_boundary(7, 0, 0, cell(3));
    grid.enqueue_boundary(7, 0, 2, cell(4));
    let mut e = Engine::new(grid, RuleIndex::new());
    assert_eq!(e.drain_output(), vec![(7, cell(3)), (7, cell(4))]);
    assert!(e.drain_output().is_empty());
    assert_eq!(e.pop_output(), vec![(0, cell(1))]);
    assert!(e.pop_output().is_empty());
}

#[test]
fn engine_tick_is_logged() {
    let mut grid = Grid::new(3, 3, 0);
    grid.set_cell(1, 1, cell(7));
    let mut e = Engine::new(grid, index_of(vec![rule(vec![7], vec![(0, 0, 3)], 10)]));
    e.enable_tick_logging();
    let (accepted, _) = e.run_tick();
    assert_eq!(accepted.len(), 1);
    assert_eq!(value_at(&e, 1, 1), 3);
    let (accepted, _) = e.run_tick();
    assert!(accepted.is_empty());
    assert_eq!(
        e.tick_log().unwrap(),
        &[
            TickLogEntry { tick: 0, accepted: 1, rejected: 0, starvation_events: 0, feedback_events: 0 },
            TickLogEntry { tick: 1, accepted: 0, rejected: 0, starvation_events: 0, feedback_events: 0 },
        ][..]
    );
    assert_eq!(e.grid().generation(), 2);
}

#[test]
fn engine_tick_log_counts_rejected_candidates() {
    let mut grid = Grid::new(3, 1, 0);
    grid.set_cell(0, 0, cell(7));
    grid.set_cell(2, 0, cell(8));
    let index = index_of(vec![rule(vec![7], vec![(1, 0, 1)], 10), rule(vec![8], vec![(-1, 0, 2)], 5)]);
    let mut e = Engine::new(grid, index);
    e.enable_tick_logging();
    let (accepted, _) = e.run_tick();
    assert_eq!(accepted.len(), 1);
    assert_eq!(value_at(&e, 1, 0), 1);
    assert_eq!(e.tick_log().unwrap()[0].rejected, 1);
}

#[test]
fn engine_find_rule_and_priority() {
    let index = index_of(vec![rule(vec![5, 6], vec![], 10), rule(vec![5], vec![], 3)]);
    let e = Engine::new(Grid::new(2, 1, 0), index);
    assert_eq!(e.find_rule(&[CellType(5), CellType(6)]).unwrap().priority, 10);
    assert_eq!(e.get_priority(&[CellType(5)]), 3);
    assert_eq!(e.get_priority(&[CellType(9)]), 0);
    assert!(e.find_rule(&[]).is_none());
    assert!(e.find_rule(&[CellType(5), CellType(7)]).is_none());
}

#[test]
fn engine_set_rules_for_head_replaces_rules() {
    let mut grid = Grid::new(2, 1, 0);
    grid.set_cell(0, 0, cell(5));
    let mut e = Engine::new(grid, index_of(vec![rule(vec![5], vec![(0, 0, 1)], 10)]));
    e.set_rules_for_head(CellType(5), vec![rule(vec![5], vec![(0, 0, 2)], 10)]);
    e.run_tick();
    assert_eq!(value_at(&e, 0, 0), 2);
    e.set_rule_index(RuleIndex::new());
    assert!(e.detect_matches().is_empty());
    assert_eq!(e.detect_termination(1), TerminationVerdict::Stable);
}

#[test]
fn engine_detect_termination() {
    let mut grid = Grid::new(2, 1, 0);
    grid.set_cell(0, 0, cell(5));
    let e = Engine::new(grid, index_of(vec![rule(vec![5], vec![(0, 0, 1)], 10)]));
    assert_eq!(e.detect_termination(0), TerminationVerdict::Active);
    assert_eq!(e.detect_termination(3), TerminationVerdict::Active);
}

#[test]
fn engine_compose_bounded() {
    let mut grid = Grid::new(3, 3, 0);
    grid.set_cell(1, 1, cell(7));
    let mut e = Engine::new(grid, index_of(vec![rule(vec![7], vec![(0, 0, 3)], 10)]));
    assert_eq!(e.compose_with(), CompositionVerdict::Bounded(1));
    assert_eq!(value_at(&e, 1, 1), 3);
}

#[test]
fn engine_compose_shrinking() {
    let mut grid = Grid::new(3, 1, 0);
    grid.set_cell(0, 0, cell(7));
    grid.set_cell(2, 0, cell(7));
    let mut e = Engine::new(grid, index_of(vec![rule(vec![7], vec![(0, 0, 0)], 10)]));
    assert_eq!(e.compose_with(), CompositionVerdict::Shrinking);
}

#[test]
fn engine_compose_divergent() {
    let mut grid = Grid::new(3, 1, 0);
    grid.set_cell(1, 0, cell(7));
    let mut e = Engine::new(grid, index_of(vec![rule(vec![7], vec![(-1, 0, 9), (0, 0, 9), (1, 0, 9)], 10)]));
    assert_eq!(e.compose_with(), CompositionVerdict::Divergent);
}

#[test]
fn engine_compose_non_terminating() {
    let mut grid = Grid::new(2, 1, 0);
    grid.set_cell(0, 0, cell(7));
    let mut e = Engine::new(grid, index_of(vec![rule(vec![7], vec![(0, 0, 7)], 10)]));
    assert_eq!(e.compose_with(), CompositionVerdict::NonTerminating);
    assert_eq!(e.grid().generation(), 1001);
}

#[test]
fn engine_grid_mut_changes_the_grid() {
    let mut e = Engine::new(Grid::new(2, 1, 0), RuleIndex::new());
    e.grid_mut().set_cell(1, 0, cell(4));
    assert_eq!(value_at(&e, 1, 0), 4);
    e.advance_age();
    assert_eq!(e.grid().generation(), 1);
}

fn sorted(mut v: Vec<(usize, usize)>) -> Vec<(usize, usize)> {
    v.sort();
    v
}

#[test]
fn neighborhood_of_zero_radius_is_the_coordinates() {
    let g = Grid::new(10, 10, 0);
    assert_eq!(expand_neighborhood(&g, &[(3, 3), (3, 3)], 0), vec![(3, 3), (3, 3)]);
    assert!(expand_neighborhood(&g, &[], 2).is_empty());
}

#[test]
fn neighborhood_sparse_lists_each_cell_once() {
    let g = Grid::new(10, 10, 0);
    let r = expand_neighborhood(&g, &[(2, 2), (3, 2)], 1);
    assert_eq!(r.len(), 12);
    assert_eq!(r[0], (1, 1));
    let mut want = Vec::new();
    for x in 1..=4 {
        for y in 1..=3 {
            want.push((x, y));
        }
    }
    assert_eq!(sorted(r), want);
}

#[test]
fn neighborhood_sparse_cuts_negative_coordinates_only() {
    let g = Grid::new(10, 10, 0);
    assert_eq!(sorted(expand_neighborhood(&g, &[(0, 0)], 1)), vec![(0, 0), (0, 1), (1, 0), (1, 1)]);
    assert_eq!(expand_neighborhood(&g, &[(9, 9)], 1).len(), 9);
}

#[test]
fn neighborhood_dense_stays_inside_the_grid() {
    let g = Grid::new(2, 2, 0);
    let r = expand_neighborhood(&g, &[(1, 1)], 1);
    assert_eq!(r, vec![(0, 0), (1, 0), (0, 1), (1, 1)]);
}

fn budget_rule(priority: u32) -> Rule {
    let mut r = rule(vec![5], vec![(0, 0, 5)], priority);
    r.max_activations = Some(1);
    r
}

#[test]
fn engine_changed_rule_loses_its_state() {
    let mut grid = Grid::new(2, 1, 0);
    grid.set_cell(0, 0, cell(5));
    let mut e = Engine::new(grid, index_of(vec![budget_rule(10)]));
    assert_eq!(e.run_tick().0.len(), 1);
    assert_eq!(e.run_tick().0.len(), 0);
    e.set_rules_for_head(CellType(5), vec![budget_rule(10)]);
    assert_eq!(e.run_tick().0.len(), 0);
    e.set_rules_for_head(CellType(5), vec![budget_rule(11)]);
    assert_eq!(e.run_tick().0.len(), 1);
    assert_eq!(e.run_tick().0.len(), 0);
    e.set_rule_index(index_of(vec![budget_rule(12)]));
    assert_eq!(e.run_tick().0.len(), 1);
}

fn partner_index() -> RuleIndex {
    index_of(vec![rule(vec![1], vec![(1, 0, 9)], 10), rule(vec![2], vec![(-1, 0, 9)], 10), rule(vec![4], vec![], 10)])
}

#[test]
fn conflict_partners_of_heads() {
    let index = partner_index();
    let cache = cellaria::conflict_analyzer::build_rule_data_cache(&index);
    let (p, radius) = cellaria::partners::compute_conflict_partners(&index, &cache);
    assert!(p.are_partners(1, 2));
    assert!(p.are_partners(2, 1));
    assert!(!p.are_partners(1, 1));
    assert!(!p.are_partners(1, 4));
    assert!(p.has_partners(1));
    assert!(!p.has_partners(4));
    assert!(!p.has_partners(7));
    assert_eq!(radius, 1);
}

#[test]
fn conflict_partners_of_empty_index() {
    let index = RuleIndex::new();
    let cache = cellaria::conflict_analyzer::build_rule_data_cache(&index);
    let (p, radius) = cellaria::partners::compute_conflict_partners(&index, &cache);
    assert!(!p.has_partners(0));
    assert_eq!(radius, 0);
}

#[test]
fn bypass_split_keeps_lone_matches_out_of_arbitration() {
    let index = partner_index();
    let cache = cellaria::conflict_analyzer::build_rule_data_cache(&index);
    let (p, radius) = cellaria::partners::compute_conflict_partners(&index, &cache);
    let m = |x: u32, h: u8| cellaria::types::RuleMatch { x, y: 0, head: CellType(h), rule_idx: 0 };
    let ms = vec![m(10, 1), m(20, 4), m(12, 2), m(40, 1)];
    let (safe, contested) = cellaria::partners::spatial_bypass_split(ms, &p, radius);
    assert_eq!(safe, vec![m(20, 4), m(40, 1)]);
    assert_eq!(contested, vec![m(10, 1), m(12, 2)]);
}

#[test]
fn engine_snapshot_restores_grid_rules_and_state() {
    let mut grid = Grid::new(2, 1, 0);
    grid.set_cell(0, 0, cell(5));
    let mut e = Engine::new(grid, index_of(vec![budget_rule(10)]));
    assert_eq!(e.run_tick().0.len(), 1);
    let snap = e.snapshot();
    e.grid_mut().set_cell(0, 0, cell(0));
    let mut restored = Engine::from_snapshot(snap);
    assert_eq!(value_at(&restored, 0, 0), 5);
    assert_eq!(restored.grid().generation(), 1);
    assert_eq!(restored.run_tick().0.len(), 0);
    assert!(restored.input_log().is_none());
}

#[test]
fn engine_replay_pushes_recorded_inputs() {
    let mut grid = Grid::new(3, 1, 0);
    grid.set_boundary(0, 0, buffer("input"));
    let e = Engine::new(grid, index_of(vec![rule(vec![5], vec![(0, 0, 6)], 10)]));
    let snap = e.snapshot();
    let log = vec![InputEvent { tick: 0, channel: 0, value: 5 }, InputEvent { tick: 1, channel: 0, value: 9 }];
    let replayed = Engine::replay(snap, &log, 2);
    assert_eq!(replayed.grid().generation(), 2);
    assert_eq!(value_at(&replayed, 0, 0), 9);
    let once = Engine::replay(e.snapshot(), &log, 1);
    assert_eq!(value_at(&once, 0, 0), 6);
}

fn patterned(id: Vec<u8>, pattern: Vec<(i8, i8, u8)>) -> Rule {
    let mut r = rule(id, vec![], 1);
    r.pattern = pattern.into_iter().map(|(dx, dy, t)| (dx, dy, CellType(t))).collect();
    r
}

#[test]
fn search_radius_of_rules() {
    assert_eq!(pattern_radius(&[]), 0);
    assert_eq!(pattern_radius(&[rule(vec![1, 2, 3], vec![], 1)]), 2);
    assert_eq!(pattern_radius(&[patterned(vec![1], vec![(0, 0, 1), (-3, 1, 2), (2, -2, 3)])]), 3);
    let mut cam_rule = rule(vec![4], vec![], 1);
    cam_rule.cam = Some(cellaria::types::CamSearch { radius: 5, target_type: CellType(2) });
    assert_eq!(pattern_radius(&[cam_rule]), 5);
    let mut aged = rule(vec![0, 1], vec![], 1);
    aged.min_age = 2;
    let mut stateful = rule(vec![3], vec![], 1);
    stateful.starvation_after = Some(4);
    let index = index_of(vec![aged, patterned(vec![7], vec![(0, 0, 7), (0, 4, 1)]), stateful]);
    let c = compute_search_radius_cache(&index);
    assert_eq!(c.min_age_gated_types, vec![CellType(0)]);
    assert_eq!(c.max_pattern_radius, 4);
    assert_eq!(c.zero_head_radius, 1);
    let f = compute_extension_flags(&index);
    assert!(f.starvation_after);
    assert!(!f.feedback && !f.memory && !f.max_activations);
    assert_eq!(f.extension_rule_indices, vec![0]);
}

#[test]
fn engine_analyze_conflicts_over_all_heads() {
    let e = Engine::new(Grid::new(2, 1, 0), partner_index());
    let g = e.analyze_conflicts();
    assert!(!g.is_conflict_free());
    assert_eq!(g.potential_conflicts(), &[(0, 1)][..]);
    let quiet = Engine::new(Grid::new(2, 1, 0), index_of(vec![rule(vec![4], vec![], 1)]));
    assert!(quiet.analyze_conflicts().is_conflict_free());
}

#[test]
fn context_arbitration_accepts_safe_matches_and_resolves_contested_ones() {
    let index = partner_index();
    let cache = cellaria::conflict_analyzer::build_rule_data_cache(&index);
    let (partners, max_radius) = cellaria::partners::compute_conflict_partners(&index, &cache);
    let ctx = cellaria::partners::ConflictContext { partners, max_radius };
    let grid = Grid::new(50, 1, 0);
    let cams: cellaria::journal::MatchMap<(u32, u32)> = cellaria::journal::MatchMap::new();
    let starv: cellaria::journal::MatchMap<u32> = cellaria::journal::MatchMap::new();
    let m = |x: u32, h: u8| cellaria::types::RuleMatch { x, y: 0, head: CellType(h), rule_idx: 0 };
    let ms = vec![m(10, 1), m(20, 4), m(12, 2), m(40, 1)];
    let (acc, dec) = cellaria::partners::arbitrate_with_context(ms, &index, &cache, &grid, &ctx, &cams, &cellaria::journal::MatchMap::<u64>::new(), 0, &starv);
    // Both contested matches write (11, 0); same priority and age, so the higher x wins.
    assert_eq!(acc, vec![m(20, 4), m(40, 1), m(12, 2)]);
    assert_eq!(dec, vec![false, false, true]);
}

#[test]
fn context_arbitration_without_contest_accepts_everything() {
    let index = partner_index();
    let cache = cellaria::conflict_analyzer::build_rule_data_cache(&index);
    let (partners, max_radius) = cellaria::partners::compute_conflict_partners(&index, &cache);
    let ctx = cellaria::partners::ConflictContext { partners, max_radius };
    let grid = Grid::new(50, 1, 0);
    let cams: cellaria::journal::MatchMap<(u32, u32)> = cellaria::journal::MatchMap::new();
    let starv: cellaria::journal::MatchMap<u32> = cellaria::journal::MatchMap::new();
    let m = |x: u32, h: u8| cellaria::types::RuleMatch { x, y: 0, head: CellType(h), rule_idx: 0 };
    let (acc, dec) = cellaria::partners::arbitrate_with_context(vec![m(5, 1), m(30, 2)], &index, &cache, &grid, &ctx, &cams, &cellaria::journal::MatchMap::<u64>::new(), 0, &starv);
    assert_eq!(acc, vec![m(5, 1), m(30, 2)]);
    assert_eq!(dec, vec![false, false]);
}

#[test]
fn check_index_accepts_ordinary_rules() {
    assert!(cellaria::engine::check_index(&partner_index()));
    assert!(cellaria::engine::check_index(&RuleIndex::new()));
}

#[test]
fn check_index_rejects_a_far_change() {
    let far = rule(vec![3], vec![(0x2000_0000, 0, 1)], 1);
    assert!(!cellaria::engine::check_index(&index_of(vec![far])));
}

#[test]
fn feedback_switches_direction_once_latched() {
    let mut turning = rule(vec![5], vec![], 10);
    turning.shifts = vec![vec![cellaria::types::ShiftSpec::new(cellaria::types::Direction::Right, 1)]];
    turning.feedback =
        Some(cellaria::types::FeedbackSpec { timeout: 1, new_direction: cellaria::types::Direction::Left });
    let mut grid = Grid::new(5, 1, 0);
    grid.set_cell(1, 0, cell(5));
    let mut e = Engine::new(grid, index_of(vec![turning]));
    e.run_tick();
    assert_eq!(value_at(&e, 2, 0), 5);
    e.run_tick();
    assert_eq!(value_at(&e, 1, 0), 5);
    assert_eq!(value_at(&e, 2, 0), 0);
    e.run_tick();
    assert_eq!(value_at(&e, 0, 0), 5);
}
