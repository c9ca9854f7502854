use plant_lsystem::{
    scan_sequence, Behaviour, BranchDot, LsystemBuilder, LsystemConfig, LsystemError, LsystemTree,
    Rule, Rules, Step, Turn,
};

fn plant_rules() -> Rules {
    Rules::new(vec![
        Rule::new('X', "F[+X][-X]", Behaviour::DrawForward),
        Rule::new('F', "F", Behaviour::DrawForward),
        Rule::new('+', "+", Behaviour::RotateLeft),
        Rule::new('-', "-", Behaviour::RotateRight),
        Rule::new('[', "[", Behaviour::Branch),
        Rule::new(']', "]", Behaviour::BranchStop),
    ])
}

fn scan(sequence: &str) -> Result<LsystemTree, LsystemError> {
    scan_sequence(&plant_rules(), sequence)
}

fn points(dots: &Vec<BranchDot>) -> Vec<usize> {
    dots.iter().map(|d| d.pos).collect()
}

fn links(dots: &Vec<BranchDot>) -> Vec<Vec<usize>> {
    dots.iter().map(|d| d.connected_branches_id.clone()).collect()
}

fn count(sequence: &str, symbol: char) -> usize {
    sequence.chars().filter(|c| *c == symbol).count()
}

#[test]
fn plant_of_depth_one() {
    let config = LsystemConfig { start: "X".to_string(), rules: plant_rules() };
    let tree = LsystemBuilder::new(&config).build_tree(&1).unwrap();
    assert_eq!(tree.branch_count(), 3);
    let root = tree.branch(0).unwrap();
    assert_eq!(points(root), vec![0, 1]);
    assert_eq!(links(root), vec![vec![], vec![1, 2]]);
    let first = tree.branch(1).unwrap();
    let second = tree.branch(2).unwrap();
    assert_eq!(first[0].pos, root[1].pos);
    assert_eq!(second[0].pos, root[1].pos);
    assert_eq!(points(first), vec![1, 2]);
    assert_eq!(points(second), vec![1, 3]);
    assert_eq!(links(first), vec![vec![], vec![]]);
    assert_eq!(links(second), vec![vec![], vec![]]);
    assert!(tree.branch(3).is_none());
}

#[test]
fn plant_of_depth_one_tables() {
    let tree = scan("F[+X][-X]").unwrap();
    assert_eq!(
        tree.steps,
        vec![
            Step { from: 0, heading: 0 },
            Step { from: 1, heading: 1 },
            Step { from: 1, heading: 2 },
        ]
    );
    assert_eq!(
        tree.turns,
        vec![Turn { from: 0, left: true }, Turn { from: 0, left: false }]
    );
}

#[test]
fn lone_branch_end_is_unbalanced() {
    assert_eq!(scan("]").err(), Some(LsystemError::UnbalancedBranch));
}

#[test]
fn one_close_too_many_is_unbalanced() {
    assert_eq!(scan("F[F]]F").err(), Some(LsystemError::UnbalancedBranch));
}

#[test]
fn symbol_without_rule_is_undefined() {
    assert_eq!(scan("F?F").err(), Some(LsystemError::UndefinedSymbol));
}

#[test]
fn the_first_fault_decides_the_error() {
    assert_eq!(scan("F]?").err(), Some(LsystemError::UnbalancedBranch));
    assert_eq!(scan("F?]").err(), Some(LsystemError::UndefinedSymbol));
}

#[test]
fn empty_sequence_is_the_origin_alone() {
    let tree = scan("").unwrap();
    assert_eq!(tree.branch_count(), 1);
    assert_eq!(points(tree.branch(0).unwrap()), vec![0]);
    assert!(tree.steps.is_empty());
    assert!(tree.turns.is_empty());
}

#[test]
fn sequence_without_forks_is_one_branch() {
    let sequence = "F+F-FXF";
    let tree = scan(sequence).unwrap();
    assert_eq!(tree.branch_count(), 1);
    let root = tree.branch(0).unwrap();
    assert_eq!(root.len(), count(sequence, 'F') + count(sequence, 'X') + 1);
    assert_eq!(points(root), vec![0, 1, 2, 3, 4, 5]);
    assert!(root.iter().all(|d| d.connected_branches_id.is_empty()));
}

#[test]
fn trailing_step_is_not_appended_twice() {
    let tree = scan("FF").unwrap();
    assert_eq!(points(tree.branch(0).unwrap()), vec![0, 1, 2]);
    assert_eq!(tree.steps.len(), 2);
}

#[test]
fn one_branch_for_the_root_and_one_for_each_fork() {
    for sequence in ["F[F]F", "F[+F[-F]F][F]", "[[F]]", "F[F][F][F]", "F[+X][-X]", "[][]"] {
        let tree = scan(sequence).unwrap();
        assert_eq!(tree.branch_count(), 1 + count(sequence, '['));
        assert_eq!(count(sequence, '['), count(sequence, ']'));
    }
}

#[test]
fn identifiers_follow_the_order_of_the_forks() {
    let tree = scan("F[F[F]F]F[F]").unwrap();
    assert_eq!(tree.branch_count(), 4);
    assert_eq!(links(tree.branch(0).unwrap()), vec![vec![], vec![1], vec![3]]);
    assert_eq!(links(tree.branch(1).unwrap()), vec![vec![], vec![2], vec![]]);
    assert_eq!(points(tree.branch(0).unwrap()), vec![0, 1, 5]);
    assert_eq!(points(tree.branch(1).unwrap()), vec![1, 2, 4]);
    assert_eq!(points(tree.branch(2).unwrap()), vec![2, 3]);
    assert_eq!(points(tree.branch(3).unwrap()), vec![5, 6]);
}

#[test]
fn branch_end_restores_point_and_heading() {
    let tree = scan("F[+F]F").unwrap();
    assert_eq!(
        tree.steps,
        vec![
            Step { from: 0, heading: 0 },
            Step { from: 1, heading: 1 },
            Step { from: 1, heading: 0 },
        ]
    );
    assert_eq!(tree.turns, vec![Turn { from: 0, left: true }]);
    assert_eq!(points(tree.branch(0).unwrap()), vec![0, 1, 3]);
}

#[test]
fn fork_right_after_fork_links_to_the_nearest_branch_that_has_drawn() {
    let tree = scan("F[[F]F]").unwrap();
    assert_eq!(tree.branch_count(), 3);
    assert_eq!(links(tree.branch(0).unwrap()), vec![vec![], vec![1, 2]]);
    assert_eq!(links(tree.branch(1).unwrap()), vec![vec![], vec![]]);
    assert_eq!(points(tree.branch(1).unwrap()), vec![1, 3]);
    assert_eq!(points(tree.branch(2).unwrap()), vec![1, 2]);
}

#[test]
fn forks_before_any_step_link_to_the_origin() {
    let tree = scan("[[F]]").unwrap();
    assert_eq!(tree.branch_count(), 3);
    assert_eq!(links(tree.branch(0).unwrap()), vec![vec![1, 2]]);
    assert_eq!(points(tree.branch(1).unwrap()), vec![0]);
    assert_eq!(points(tree.branch(2).unwrap()), vec![0, 1]);
}

#[test]
fn fork_after_a_step_on_the_branch_links_to_that_branch() {
    let tree = scan("F[F[F]]").unwrap();
    assert_eq!(links(tree.branch(0).unwrap()), vec![vec![], vec![1]]);
    assert_eq!(links(tree.branch(1).unwrap()), vec![vec![], vec![2]]);
}

#[test]
fn fork_left_open_keeps_every_branch() {
    let tree = scan("F[F").unwrap();
    assert_eq!(tree.branch_count(), 2);
    assert_eq!(points(tree.branch(0).unwrap()), vec![0, 1]);
    assert_eq!(links(tree.branch(0).unwrap()), vec![vec![], vec![1]]);
    assert_eq!(points(tree.branch(1).unwrap()), vec![1, 2]);
}

#[test]
fn every_branch_but_the_root_is_linked_once() {
    let config = LsystemConfig {
        start: "X".to_string(),
        rules: Rules::new(vec![
            Rule::new('X', "F+[[X]-X]-F[-FX]+X", Behaviour::DrawForward),
            Rule::new('F', "FF", Behaviour::DrawForward),
            Rule::new('+', "+", Behaviour::RotateLeft),
            Rule::new('-', "-", Behaviour::RotateRight),
            Rule::new('[', "[", Behaviour::Branch),
            Rule::new(']', "]", Behaviour::BranchStop),
        ]),
    };
    let tree = LsystemBuilder::new(&config).build_tree(&4).unwrap();
    let n = tree.branch_count();
    let mut seen = vec![0usize; n];
    for id in 0..n {
        let dots = tree.branch(id).unwrap();
        assert!(!dots.is_empty());
        for dot in dots.iter() {
            assert!(dot.pos <= tree.steps.len());
            for child in dot.connected_branches_id.iter() {
                assert!(*child > id && *child < n);
                seen[*child] += 1;
            }
        }
    }
    assert_eq!(seen[0], 0);
    assert!(seen[1..].iter().all(|c| *c == 1));
    for (k, step) in tree.steps.iter().enumerate() {
        assert!(step.from <= k && step.heading <= tree.turns.len());
    }
    for (k, turn) in tree.turns.iter().enumerate() {
        assert!(turn.from <= k);
    }
}

#[test]
fn build_tree_reports_undefined_symbol() {
    let config = LsystemConfig {
        start: "A".to_string(),
        rules: Rules::new(vec![Rule::new('A', "AZ", Behaviour::DrawForward)]),
    };
    let builder = LsystemBuilder::new(&config);
    assert!(builder.build_tree(&0).is_ok());
    assert_eq!(builder.build_tree(&1).err(), Some(LsystemError::UndefinedSymbol));
    assert_eq!(builder.build_tree(&2).err(), Some(LsystemError::UndefinedSymbol));
}

#[test]
fn build_tree_reports_unbalanced_branch() {
    let config = LsystemConfig {
        start: "A".to_string(),
        rules: Rules::new(vec![
            Rule::new('A', "A]", Behaviour::DrawForward),
            Rule::new(']', "]", Behaviour::BranchStop),
        ]),
    };
    let builder = LsystemBuilder::new(&config);
    assert!(builder.build_tree(&0).is_ok());
    assert_eq!(builder.build_tree(&1).err(), Some(LsystemError::UnbalancedBranch));
}

#[test]
fn lsystem_to_tree_scans_with_the_builders_rules() {
    let config = LsystemConfig { start: "X".to_string(), rules: plant_rules() };
    let tree = LsystemBuilder::new(&config).lsystem_to_tree(&"F[F]".to_string()).unwrap();
    assert_eq!(tree.branch_count(), 2);
}

#[test]
fn build_tree_within_a_limit() {
    let config = LsystemConfig { start: "X".to_string(), rules: plant_rules() };
    let builder = LsystemBuilder::new(&config);
    let tree = builder.build_tree_within(&1, 9).unwrap();
    assert_eq!(tree.branch_count(), 3);
    assert_eq!(
        builder.build_tree_within(&1, 8).err(),
        Some(LsystemError::SequenceTooLong)
    );
    assert_eq!(
        builder.build_tree_within(&40, 100_000).err(),
        Some(LsystemError::SequenceTooLong)
    );
}

#[test]
fn dots_are_the_points_in_the_order_of_the_steps() {
    assert_eq!(scan("").unwrap().dots(), vec![0]);
    assert_eq!(scan("F[+F]F").unwrap().dots(), vec![0, 1, 2, 3]);
    assert_eq!(scan("+-[]").unwrap().dots(), vec![0]);
}

fn drain(mut cursor: plant_lsystem::LsystemDots) -> Vec<usize> {
    let mut all = vec![];
    while let Some(dot) = cursor.next_dot() {
        all.push(dot);
    }
    assert_eq!(cursor.next_dot(), None);
    all
}

#[test]
fn lsystem_dots_hands_out_each_dot_once() {
    let mut cursor = plant_lsystem::LsystemDots::new(vec![4, 2, 9]);
    assert_eq!(cursor.next_dot(), Some(4));
    assert_eq!(cursor.next_dot(), Some(2));
    let mut copy = cursor.clone();
    assert_eq!(cursor.next_dot(), Some(9));
    assert_eq!(cursor.next_dot(), None);
    assert_eq!(cursor.next_dot(), None);
    assert_eq!(copy.next_dot(), Some(9));
    assert_eq!(plant_lsystem::LsystemDots::new(vec![]).next_dot(), None);
}

#[test]
fn lsystems_to_dots_one_list_for_each_sequence() {
    let rules = plant_rules();
    let all = plant_lsystem::lsystems_to_dots(
        &vec!["F".to_string(), "".to_string(), "F[F]F".to_string()],
        &rules,
    )
    .unwrap();
    let all: Vec<Vec<usize>> = all.into_iter().map(drain).collect();
    assert_eq!(all, vec![vec![0, 1], vec![0], vec![0, 1, 2, 3]]);
    assert!(plant_lsystem::lsystems_to_dots(&vec![], &rules).unwrap().is_empty());
}

#[test]
fn lsystems_to_dots_fails_with_the_first_failing_sequence() {
    let rules = plant_rules();
    let all = plant_lsystem::lsystems_to_dots(
        &vec!["F".to_string(), "F]".to_string(), "?".to_string()],
        &rules,
    );
    assert_eq!(all.err(), Some(LsystemError::UnbalancedBranch));
    let all = plant_lsystem::lsystems_to_dots(&vec!["?".to_string(), "]".to_string()], &rules);
    assert_eq!(all.err(), Some(LsystemError::UndefinedSymbol));
}
