use plant_lsystem::{rewrite_once, Behaviour, LsystemBuilder, LsystemConfig, LsystemError, Rule, Rules};

fn plant_rules() -> Rules {
    Rules::new(vec![
        Rule::new('X', "F[+X][-X]", Behaviour::DrawForward),
        Rule::new('F', "F", Behaviour::DrawForward),
        Rule::new('+', "+", Behaviour::RotateLeft),
        Rule::new('-', "-", Behaviour::RotateRight),
        Rule::new('[', "[", Behaviour::Branch),
        Rule::new(']', "]", Behaviour::BranchStop),
    ])
}

fn builder(start: &str, rules: Rules) -> LsystemBuilder {
    LsystemBuilder::new(&LsystemConfig { start: start.to_string(), rules })
}

#[test]
fn rule_new_keeps_its_parts() {
    let rule = Rule::new('F', "FF", Behaviour::DrawForward);
    assert_eq!(rule.0, 'F');
    assert_eq!(rule.1, "FF");
    assert_eq!(rule.2, Behaviour::DrawForward);
}

#[test]
fn rules_look_up_text_and_behaviour() {
    let rules = plant_rules();
    assert_eq!(rules.get_text(&'X').map(|s| s.as_str()), Some("F[+X][-X]"));
    assert_eq!(rules.get_behaviour(&'+'), Some(&Behaviour::RotateLeft));
    assert_eq!(rules.get_behaviour(&']'), Some(&Behaviour::BranchStop));
    assert_eq!(rules.get_text(&'Q'), None);
    assert_eq!(rules.get_behaviour(&'Q'), None);
}

#[test]
fn later_rule_for_a_symbol_wins() {
    let rules = Rules::new(vec![
        Rule::new('A', "AB", Behaviour::DrawForward),
        Rule::new('B', "A", Behaviour::RotateLeft),
        Rule::new('A', "B", Behaviour::RotateRight),
    ]);
    assert_eq!(rules.get_text(&'A').map(|s| s.as_str()), Some("B"));
    assert_eq!(rules.get_behaviour(&'A'), Some(&Behaviour::RotateRight));
    assert_eq!(rules.get_text(&'B').map(|s| s.as_str()), Some("A"));
}

#[test]
fn rules_clone_answers_alike() {
    let rules = plant_rules();
    let copy = rules.clone();
    assert_eq!(copy.get_text(&'X'), rules.get_text(&'X'));
    assert_eq!(copy.get_behaviour(&'['), Some(&Behaviour::Branch));
}

#[test]
fn non_ascii_symbols_are_keys_too() {
    let rules = Rules::new(vec![Rule::new('é', "éé", Behaviour::DrawForward)]);
    assert_eq!(rules.get_text(&'é').map(|s| s.as_str()), Some("éé"));
    assert_eq!(rewrite_once(&rules, "éé"), Ok("éééé".to_string()));
}

#[test]
fn behaviour_labels() {
    assert_eq!(Behaviour::DrawForward.label(), "Create");
    assert_eq!(Behaviour::RotateLeft.label(), "RotateLeft");
    assert_eq!(Behaviour::RotateRight.label(), "RotateRight");
    assert_eq!(Behaviour::Branch.label(), "Branch");
    assert_eq!(Behaviour::BranchStop.label(), "BranchStop");
}

#[test]
fn depth_zero_returns_the_start() {
    let b = builder("X", plant_rules());
    assert_eq!(b.generate_sequence(&0), Ok("X".to_string()));
}

#[test]
fn depth_zero_asks_for_no_rule() {
    let b = builder("?", plant_rules());
    assert_eq!(b.generate_sequence(&0), Ok("?".to_string()));
    assert_eq!(b.generate_sequence(&1), Err(LsystemError::UndefinedSymbol));
}

#[test]
fn depth_one_of_the_plant() {
    let b = builder("X", plant_rules());
    assert_eq!(b.generate_sequence(&1), Ok("F[+X][-X]".to_string()));
}

#[test]
fn depth_two_rewrites_only_what_the_first_pass_left() {
    let b = builder("X", plant_rules());
    assert_eq!(
        b.generate_sequence(&2),
        Ok("F[+F[+X][-X]][-F[+X][-X]]".to_string())
    );
}

#[test]
fn a_pass_rebuilds_the_whole_sequence() {
    let rules = Rules::new(vec![
        Rule::new('A', "AB", Behaviour::DrawForward),
        Rule::new('B', "A", Behaviour::DrawForward),
    ]);
    let b = builder("A", rules);
    assert_eq!(b.generate_sequence(&1), Ok("AB".to_string()));
    assert_eq!(b.generate_sequence(&2), Ok("ABA".to_string()));
    assert_eq!(b.generate_sequence(&3), Ok("ABAAB".to_string()));
    assert_eq!(b.generate_sequence(&4), Ok("ABAABABA".to_string()));
}

#[test]
fn length_of_next_depth_is_sum_of_replacement_lengths() {
    let rules = plant_rules();
    let b = builder("X", plant_rules());
    for depth in 0..5usize {
        let here = b.generate_sequence(&depth).unwrap();
        let next = b.generate_sequence(&(depth + 1)).unwrap();
        let sum: usize = here
            .chars()
            .map(|c| rules.get_text(&c).unwrap().chars().count())
            .sum();
        assert_eq!(next.chars().count(), sum);
    }
}

#[test]
fn undefined_symbol_in_a_replacement_fails_on_the_next_pass() {
    let rules = Rules::new(vec![Rule::new('A', "AZ", Behaviour::DrawForward)]);
    let b = builder("A", rules);
    assert_eq!(b.generate_sequence(&1), Ok("AZ".to_string()));
    assert_eq!(b.generate_sequence(&2), Err(LsystemError::UndefinedSymbol));
    assert_eq!(b.generate_sequence(&7), Err(LsystemError::UndefinedSymbol));
}

#[test]
fn rewrite_once_of_empty_is_empty() {
    assert_eq!(rewrite_once(&plant_rules(), ""), Ok(String::new()));
}

#[test]
fn rewrite_once_reports_a_symbol_without_rule() {
    assert_eq!(rewrite_once(&plant_rules(), "F?F"), Err(LsystemError::UndefinedSymbol));
}

#[test]
fn outgrows_tells_without_building() {
    let rules = plant_rules();
    assert_eq!(plant_lsystem::outgrows(&rules, "X", 9), Ok(false));
    assert_eq!(plant_lsystem::outgrows(&rules, "X", 8), Ok(true));
    assert_eq!(plant_lsystem::outgrows(&rules, "XX", 17), Ok(true));
    assert_eq!(plant_lsystem::outgrows(&rules, "XX", 18), Ok(false));
    assert_eq!(plant_lsystem::outgrows(&rules, "", 0), Ok(false));
    assert_eq!(plant_lsystem::outgrows(&rules, "X?", 0), Err(LsystemError::UndefinedSymbol));
    assert_eq!(plant_lsystem::outgrows(&rules, "XXX", usize::MAX), Ok(false));
}

#[test]
fn rewrite_within_gives_up_past_the_limit() {
    let rules = plant_rules();
    assert_eq!(plant_lsystem::rewrite_within(&rules, "X", 9), Ok("F[+X][-X]".to_string()));
    assert_eq!(
        plant_lsystem::rewrite_within(&rules, "X", 8),
        Err(LsystemError::SequenceTooLong)
    );
    assert_eq!(
        plant_lsystem::rewrite_within(&rules, "?X", 0),
        Err(LsystemError::UndefinedSymbol)
    );
}

#[test]
fn generate_sequence_within_a_limit() {
    let b = builder("X", plant_rules());
    assert_eq!(b.generate_sequence_within(&0, 0), Ok("X".to_string()));
    assert_eq!(b.generate_sequence_within(&1, 9), Ok("F[+X][-X]".to_string()));
    assert_eq!(
        b.generate_sequence_within(&2, 25),
        Ok("F[+F[+X][-X]][-F[+X][-X]]".to_string())
    );
    assert_eq!(b.generate_sequence_within(&2, 24), Err(LsystemError::SequenceTooLong));
    assert_eq!(b.generate_sequence_within(&60, 1000), Err(LsystemError::SequenceTooLong));
    assert_eq!(b.generate_sequence_within(&3, 1000), b.generate_sequence(&3));
}
