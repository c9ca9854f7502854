use plant_lsystem::{
    discovered_children, revealed_count, scan_sequence, AnimationState, Behaviour, BranchDot,
    BranchInfo, LsystemTree, Rule, Rules,
};
use std::collections::HashSet;

fn plant_rules() -> Rules {
    Rules::new(vec![
        Rule::new('X', "F+[[X]-X]-F[-FX]+X", Behaviour::DrawForward),
        Rule::new('F', "FF", Behaviour::DrawForward),
        Rule::new('+', "+", Behaviour::RotateLeft),
        Rule::new('-', "-", Behaviour::RotateRight),
        Rule::new('[', "[", Behaviour::Branch),
        Rule::new(']', "]", Behaviour::BranchStop),
    ])
}

fn tree_of(sequence: &str) -> LsystemTree {
    scan_sequence(&plant_rules(), sequence).unwrap()
}

fn queue_of(state: &AnimationState) -> Vec<BranchInfo> {
    state.queue.iter().copied().collect()
}

#[test]
fn branch_info_constructors() {
    assert_eq!(BranchInfo::new(3, 7), BranchInfo { id: 3, tick_started: 7 });
    assert_eq!(BranchInfo::main_branch(), BranchInfo { id: 0, tick_started: 0 });
}

#[test]
fn revealed_count_is_elapsed_progress_capped_by_length() {
    assert_eq!(revealed_count(10, 4, 100), 6);
    assert_eq!(revealed_count(10, 4, 5), 5);
    assert_eq!(revealed_count(10, 4, 6), 6);
    assert_eq!(revealed_count(4, 4, 5), 0);
    assert_eq!(revealed_count(3, 4, 5), 0);
    assert_eq!(revealed_count(10, 0, 0), 0);
}

#[test]
fn discovered_children_of_a_slice() {
    let dots = vec![
        BranchDot { pos: 0, connected_branches_id: vec![1] },
        BranchDot { pos: 1, connected_branches_id: vec![] },
        BranchDot { pos: 2, connected_branches_id: vec![2, 5] },
        BranchDot { pos: 3, connected_branches_id: vec![6] },
    ];
    assert_eq!(discovered_children(&dots, 0, 4), vec![1, 2, 5, 6]);
    assert_eq!(discovered_children(&dots, 1, 3), vec![2, 5]);
    assert_eq!(discovered_children(&dots, 0, 1), vec![1]);
    assert_eq!(discovered_children(&dots, 2, 2), Vec::<usize>::new());
    assert_eq!(discovered_children(&dots, 3, 4), vec![6]);
}

#[test]
fn new_state_lets_the_root_grow() {
    let state = AnimationState::new(2, 5);
    assert_eq!(state.previous, 0);
    assert_eq!(state.progress, 0);
    assert_eq!(state.growth_rate, 2);
    assert_eq!(state.cap, 5);
    assert_eq!(state.active, vec![BranchInfo::main_branch()]);
    assert!(state.queue.is_empty());
}

#[test]
fn new_state_with_no_room_lets_the_root_wait() {
    let tree = tree_of("F");
    let mut state = AnimationState::new(1, 0);
    assert!(state.active.is_empty());
    assert_eq!(queue_of(&state), vec![BranchInfo::main_branch()]);
    state.tick(&tree);
    assert!(state.active.is_empty());
    assert_eq!(queue_of(&state), vec![BranchInfo::main_branch()]);
}

#[test]
fn cap_of_one_lets_the_second_child_wait() {
    let tree = tree_of("F[F][F]");
    let mut state = AnimationState::new(1, 1);

    state.tick(&tree);
    assert_eq!(state.progress, 1);
    assert_eq!(state.previous, 0);
    assert_eq!(state.active, vec![BranchInfo::new(0, 0)]);
    assert!(state.queue.is_empty());

    state.tick(&tree);
    assert_eq!(state.active, vec![BranchInfo::new(1, 2)]);
    assert_eq!(queue_of(&state), vec![BranchInfo::new(2, 2)]);

    state.tick(&tree);
    assert_eq!(state.active, vec![BranchInfo::new(1, 2)]);
    assert_eq!(queue_of(&state), vec![BranchInfo::new(2, 2)]);

    state.tick(&tree);
    assert_eq!(state.progress, 4);
    assert_eq!(state.active, vec![BranchInfo::new(2, 4)]);
    assert!(state.queue.is_empty());

    state.tick(&tree);
    assert_eq!(state.active, vec![BranchInfo::new(2, 4)]);

    state.tick(&tree);
    assert!(state.active.is_empty());
    assert!(state.queue.is_empty());
}

#[test]
fn children_start_together_where_the_cap_allows() {
    let tree = tree_of("F[F][F]");
    let mut state = AnimationState::new(1, 4);
    state.tick(&tree);
    state.tick(&tree);
    assert_eq!(state.active, vec![BranchInfo::new(1, 2), BranchInfo::new(2, 2)]);
    assert!(state.queue.is_empty());
}

#[test]
fn links_of_the_last_dot_are_found_when_the_branch_retires() {
    let tree = tree_of("F[F]");
    let mut state = AnimationState::new(5, 3);
    state.tick(&tree);
    assert_eq!(state.active, vec![BranchInfo::new(1, 5)]);
}

#[test]
fn queue_is_served_before_what_the_tick_finds() {
    let tree = tree_of("F[FF][F]F[F]");
    let mut state = AnimationState::new(1, 1);
    state.tick(&tree);
    state.tick(&tree);
    assert_eq!(state.active, vec![BranchInfo::new(0, 0)]);
    assert_eq!(queue_of(&state), vec![BranchInfo::new(1, 2), BranchInfo::new(2, 2)]);
    state.tick(&tree);
    assert_eq!(state.active, vec![BranchInfo::new(1, 3)]);
    assert_eq!(queue_of(&state), vec![BranchInfo::new(2, 2), BranchInfo::new(3, 3)]);
}

#[test]
fn branch_that_the_graph_lacks_is_dropped() {
    let tree = tree_of("FF");
    let mut state = AnimationState::new(1, 3);
    state.active.push(BranchInfo::new(9, 0));
    state.tick(&tree);
    assert_eq!(state.active, vec![BranchInfo::new(0, 0)]);
    assert!(state.queue.is_empty());
}

#[test]
fn growth_rate_zero_changes_nothing() {
    let tree = tree_of("F[F]");
    let mut state = AnimationState::new(0, 3);
    state.tick(&tree);
    state.tick(&tree);
    assert_eq!(state.progress, 0);
    assert_eq!(state.active, vec![BranchInfo::main_branch()]);
    assert!(state.queue.is_empty());
}

#[test]
fn never_more_grow_than_the_cap_and_none_grows_and_waits() {
    let sequence = plant_lsystem::LsystemBuilder::new(&plant_lsystem::LsystemConfig {
        start: "X".to_string(),
        rules: plant_rules(),
    })
    .generate_sequence(&4)
    .unwrap();
    let tree = tree_of(&sequence);
    for cap in [1usize, 2, 3, 7] {
        let mut state = AnimationState::new(1, cap);
        let mut ever: HashSet<usize> = HashSet::new();
        ever.insert(0);
        for _ in 0..2000 {
            state.tick(&tree);
            assert!(state.active.len() <= cap);
            let mut ids: HashSet<usize> = HashSet::new();
            for info in state.active.iter().chain(state.queue.iter()) {
                assert!(ids.insert(info.id));
                ever.insert(info.id);
            }
        }
        assert!(state.active.is_empty());
        assert!(state.queue.is_empty());
        assert_eq!(ever.len(), tree.branch_count());
    }
}

#[test]
fn same_ticks_from_the_same_state_give_the_same_state() {
    let tree = tree_of("F[+F[F]F][-FF[F]]F[F]");
    let mut one = AnimationState::new(1, 2);
    let mut two = AnimationState::new(1, 2);
    for _ in 0..12 {
        one.tick(&tree);
        two.tick(&tree);
        assert_eq!(one.progress, two.progress);
        assert_eq!(one.active, two.active);
        assert_eq!(queue_of(&one), queue_of(&two));
    }
}

#[test]
fn visible_prefixes_follow_the_growth_front() {
    let tree = tree_of("FF[FF]F");
    let mut state = AnimationState::new(1, 4);
    assert_eq!(state.visible_prefixes(&tree), Vec::<(usize, usize)>::new());
    state.tick(&tree);
    assert_eq!(state.visible_prefixes(&tree), vec![(0, 1)]);
    state.tick(&tree);
    state.tick(&tree);
    assert_eq!(state.active, vec![BranchInfo::new(0, 0), BranchInfo::new(1, 3)]);
    assert_eq!(state.visible_prefixes(&tree), vec![(0, 3)]);
    state.tick(&tree);
    assert_eq!(state.active, vec![BranchInfo::new(1, 3)]);
    assert_eq!(state.visible_prefixes(&tree), vec![(1, 1)]);
}

#[test]
fn visible_prefixes_skip_what_the_graph_lacks() {
    let tree = tree_of("FF");
    let mut state = AnimationState::new(2, 4);
    state.active.push(BranchInfo::new(5, 0));
    state.progress = 2;
    assert_eq!(state.visible_prefixes(&tree), vec![(0, 2)]);
}
