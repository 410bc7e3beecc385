use cellaria::conflict_analyzer::{CompositionVerdict, ConflictGraph};
use cellaria::types::{CellType, ChangeValue, Direction, OverflowAction, Rule, ShiftSpec};

/// A rule whose pattern is spelled by its id: `(0,0,id[0]), (1,0,id[1]), ...`.
fn make_rule(id: Vec<u8>, shifts: Vec<Vec<(Direction, u16)>>, changes: Vec<(i32, i32, u8)>, priority: u32, min_age: u64) -> Rule {
    let pattern: Vec<(i8, i8, CellType)> = id.iter().enumerate().map(|(i, &v)| (i as i8, 0i8, CellType(v))).collect();
    Rule {
        id: id.iter().map(|&v| CellType(v)).collect(),
        pattern,
        shifts: shifts
            .into_iter()
            .map(|group| group.into_iter().map(|(dir, steps)| ShiftSpec::new(dir, steps)).collect())
            .collect(),
        changes: changes.into_iter().map(|(dx, dy, v)| (dx, dy, ChangeValue::Literal(v))).collect(),
        active_only: false,
        priority,
        min_age,
        overflow: OverflowAction::Discard,
        cam: None,
        tie_break: 0,
        starvation_after: None,
        feedback: None,
        recursion: None,
        memory: None,
        max_activations: None,
        cross_layer_reads: vec![],
    }
}

/// Independent rewrites of distinct cell types, each writing only its own cell.
fn parallel_rules() -> Vec<Rule> {
    vec![make_rule(vec![1], vec![], vec![(0, 0, 2)], 10, 0), make_rule(vec![3], vec![], vec![(0, 0, 4)], 10, 0)]
}

/// Two chains moving towards each other: `[1,2]` east, `[3,4]` west.
fn conflict_rules() -> Vec<Rule> {
    vec![
        make_rule(vec![1, 2], vec![vec![(Direction::Right, 1)]], vec![(0, 0, 5)], 10, 0),
        make_rule(vec![3, 4], vec![vec![(Direction::Left, 1)]], vec![(-1, 0, 6)], 10, 0),
    ]
}

/// One rule per machine state, each rewriting only the cell it reads.
fn turing_rules() -> Vec<Rule> {
    vec![
        make_rule(vec![10], vec![], vec![(0, 0, 11)], 10, 0),
        make_rule(vec![11], vec![], vec![(0, 0, 12)], 10, 0),
        make_rule(vec![12], vec![], vec![(0, 0, 10)], 10, 0),
    ]
}

/// A tag system: symbols consumed at the head, appended behind.
fn tag_system_rules() -> Vec<Rule> {
    vec![
        make_rule(vec![1, 2], vec![], vec![(0, 0, 0), (2, 0, 1)], 10, 0),
        make_rule(vec![2, 1], vec![], vec![(0, 0, 0), (2, 0, 2)], 10, 0),
    ]
}

/// Cells that move and leave a trail.
fn cascade_rules() -> Vec<Rule> {
    vec![
        make_rule(vec![1], vec![vec![(Direction::Right, 1)]], vec![], 10, 0),
        make_rule(vec![2, 1], vec![], vec![(1, 0, 3)], 5, 0),
    ]
}

/// Two movers heading for the same cell.
fn collision_rules() -> Vec<Rule> {
    vec![
        make_rule(vec![1], vec![vec![(Direction::Right, 1)]], vec![], 10, 0),
        make_rule(vec![2], vec![vec![(Direction::Left, 1)]], vec![], 10, 0),
    ]
}

/// A value travelling from an input cell to an output cell.
fn io_rules() -> Vec<Rule> {
    vec![make_rule(vec![5], vec![vec![(Direction::Right, 1)]], vec![], 10, 0)]
}

/// A mover that writes its value on the boundary when it leaves the grid.
fn overflow_rules() -> Vec<Rule> {
    let mut r = make_rule(vec![7], vec![vec![(Direction::Right, 2)]], vec![], 10, 0);
    r.overflow = OverflowAction::Write(0);
    vec![r]
}

/// Rules of different priority on the same cell type.
fn priority_rules() -> Vec<Rule> {
    vec![make_rule(vec![1], vec![], vec![(0, 0, 2)], 20, 0), make_rule(vec![1], vec![], vec![(0, 0, 3)], 10, 0)]
}

/// A head moving right, a head moving left, and a cleanup rule.
fn composition_rules() -> Vec<Rule> {
    vec![
        make_rule(vec![1, 0], vec![vec![(Direction::Right, 1)]], vec![], 10, 0),
        make_rule(vec![0, 2], vec![vec![(Direction::Left, 1)]], vec![], 10, 0),
        make_rule(vec![3], vec![], vec![(0, 0, 0)], 5, 0),
    ]
}

#[test]
fn test_parallel_rules_conflict_free() {
    let rules = parallel_rules();
    let graph = ConflictGraph::build(&rules);
    assert!(graph.is_conflict_free(), "parallel rules must not conflict: {:?}", graph.edges);
}

#[test]
fn test_conflict_rules_have_conflict() {
    let rules = conflict_rules();
    let graph = ConflictGraph::build(&rules);
    assert!(!graph.is_conflict_free(), "the chains must conflict");
    assert!(graph.edges.contains(&(0, 1)), "expected edge (0, 1), got {:?}", graph.edges);
}

#[test]
fn test_turing_rules_conflict_free() {
    let rules = turing_rules();
    let graph = ConflictGraph::build(&rules);
    assert!(graph.is_conflict_free(), "one rule per state must not conflict: {:?}", graph.edges);
}

#[test]
fn test_tag_system_rules() {
    let rules = tag_system_rules();
    let graph = ConflictGraph::build(&rules);
    assert_eq!(graph.rule_count, rules.len());
}

#[test]
fn test_different_min_age_can_conflict() {
    let rules = vec![
        make_rule(vec![1, 2], vec![vec![(Direction::Right, 1)]], vec![(0, 0, 5)], 10, 0),
        make_rule(vec![3, 4], vec![vec![(Direction::Left, 1)]], vec![(-1, 0, 6)], 5, 1),
    ];
    let graph = ConflictGraph::build(&rules);
    assert!(!graph.is_conflict_free(), "rules with different min_age may still conflict");
}

#[test]
fn test_different_head_and_min_age_no_conflict() {
    let rules = vec![make_rule(vec![1], vec![], vec![(0, 0, 0)], 10, 0), make_rule(vec![2], vec![], vec![(0, 0, 0)], 5, 10)];
    let graph = ConflictGraph::build(&rules);
    assert!(graph.is_conflict_free(), "different heads writing only their own cells must not conflict");
}

#[test]
fn test_overlap_incompatible_types_no_conflict() {
    let rules = vec![make_rule(vec![1, 2], vec![], vec![(0, 0, 5)], 10, 0), make_rule(vec![1, 3], vec![], vec![(0, 0, 6)], 10, 0)];
    let graph = ConflictGraph::build(&rules);
    assert!(graph.is_conflict_free(), "incompatible types on the shared cell must not conflict");
}

#[test]
fn test_overlap_compatible_types_has_conflict() {
    let rules = vec![
        make_rule(vec![1, 2], vec![vec![(Direction::Right, 1)]], vec![(0, 0, 5)], 10, 0),
        make_rule(vec![2, 3], vec![vec![(Direction::Left, 1)]], vec![(0, 0, 6)], 10, 0),
    ];
    let graph = ConflictGraph::build(&rules);
    if graph.is_conflict_free() {
        println!("overlap_compatible_types: no conflict found");
    } else {
        assert!(graph.edges.contains(&(0, 1)), "expected edge (0, 1), got {:?}", graph.edges);
    }
}

#[test]
fn test_cascade_rules_have_potential_conflict() {
    let rules = cascade_rules();
    let graph = ConflictGraph::build(&rules);
    assert!(rules.len() >= 2);
    assert_eq!(graph.rule_count, rules.len());
    if !graph.is_conflict_free() {
        println!("cascade: potential conflict {:?}", graph.edges);
    }
}

#[test]
fn test_collision_rules() {
    let rules = collision_rules();
    let graph = ConflictGraph::build(&rules);
    assert_eq!(graph.rule_count, rules.len());
}

#[test]
fn test_io_rules() {
    let rules = io_rules();
    let graph = ConflictGraph::build(&rules);
    assert_eq!(graph.rule_count, rules.len());
}

#[test]
fn test_overflow_rules() {
    let rules = overflow_rules();
    let graph = ConflictGraph::build(&rules);
    assert_eq!(graph.rule_count, rules.len());
}

#[test]
fn test_priority_rules() {
    let rules = priority_rules();
    let graph = ConflictGraph::build(&rules);
    assert_eq!(graph.rule_count, rules.len());
}

#[test]
fn test_composition_unique_head() {
    let a = vec![make_rule(vec![10], vec![], vec![(0, 0, 0)], 10, 0)];
    let b = vec![make_rule(vec![20], vec![], vec![(0, 0, 0)], 10, 0)];
    assert_eq!(ConflictGraph::check_composition(&a, &b), CompositionVerdict::Safe);
}

#[test]
fn test_composition_same_head() {
    let a = vec![make_rule(vec![10], vec![], vec![(0, 0, 5)], 10, 0)];
    let b = vec![make_rule(vec![10], vec![], vec![(0, 0, 6)], 10, 0)];
    assert_eq!(ConflictGraph::check_composition(&a, &b), CompositionVerdict::Unsafe(vec![(0, 0)]));
}

#[test]
fn test_composition_min_age() {
    let a = vec![make_rule(vec![10], vec![], vec![(0, 0, 5)], 10, 0)];
    let b = vec![make_rule(vec![10], vec![], vec![(0, 0, 6)], 10, 10)];
    assert_eq!(ConflictGraph::check_composition(&a, &b), CompositionVerdict::Unsafe(vec![(0, 0)]));
}

#[test]
fn test_composition_spatial() {
    let a = vec![make_rule(vec![1], vec![], vec![(0, 0, 0)], 10, 0)];
    let b = vec![make_rule(vec![2], vec![], vec![(0, 0, 0)], 10, 0)];
    assert_eq!(ConflictGraph::check_composition(&a, &b), CompositionVerdict::Safe);
}

#[test]
fn test_composition_overlap() {
    let a = vec![make_rule(vec![1, 2], vec![vec![(Direction::Right, 1)]], vec![(0, 0, 5)], 10, 0)];
    let b = vec![make_rule(vec![2, 3], vec![vec![(Direction::Left, 1)]], vec![(0, 0, 6)], 10, 0)];
    let verdict = ConflictGraph::check_composition(&a, &b);
    if verdict == CompositionVerdict::Safe {
        println!("composition_overlap: Safe");
    } else {
        assert_eq!(verdict, CompositionVerdict::Unsafe(vec![(0, 0)]));
    }
}

#[test]
fn test_composition_tm_cleanup() {
    let mut rules = composition_rules();
    let r2 = rules.remove(2);
    let r0 = rules.remove(0);
    let verdict = ConflictGraph::check_composition(&[r0], &[r2]);
    if verdict == CompositionVerdict::Safe {
        println!("composition_tm_cleanup: Safe");
    } else {
        println!("composition_tm_cleanup: {:?}", verdict);
    }
}

#[test]
fn min_age_leaves_the_conflict_edges_unchanged() {
    let mut rules = conflict_rules();
    let before = ConflictGraph::build(&rules).potential_conflicts().to_vec();
    rules[0].min_age = 7;
    let after = ConflictGraph::build(&rules).potential_conflicts().to_vec();
    assert_eq!(before, after);
}

#[test]
fn grid_edges_are_among_plain_edges() {
    let rules = overflow_rules();
    let plain = ConflictGraph::build(&rules).potential_conflicts().to_vec();
    let grid = cellaria::conflict_analyzer::GridContext { width: 4, height: 1, boundaries: vec![(3, 0), (0, 0)] };
    let with_grid = ConflictGraph::build_with_grid(&rules, &grid).potential_conflicts().to_vec();
    assert!(with_grid.iter().all(|e| plain.contains(e)));
    assert!(with_grid.len() <= plain.len());
}
