use amata::lsystem::{expand_lsystem, turtle_ops, LSystemPreset, TurtleOp};

#[test]
fn zero_iterations_is_the_start_string() {
    assert_eq!(expand_lsystem(LSystemPreset::Tree, 0), "X");
    assert_eq!(expand_lsystem(LSystemPreset::Dragon, 0), "FX");
    assert_eq!(expand_lsystem(LSystemPreset::Snowflake, 0), "F--F--F");
    assert_eq!(expand_lsystem(LSystemPreset::Hilbert, 0), "A");
}

#[test]
fn one_and_two_rounds() {
    assert_eq!(expand_lsystem(LSystemPreset::Tree, 1), "F+[[X]-X]-F[-FX]+X");
    assert_eq!(expand_lsystem(LSystemPreset::Dragon, 1), "FX+YF+");
    assert_eq!(expand_lsystem(LSystemPreset::Dragon, 2), "FX+YF++-FX-YF+");
    assert_eq!(expand_lsystem(LSystemPreset::Snowflake, 1), "F+F--F+F--F+F--F+F--F+F--F+F");
    assert_eq!(expand_lsystem(LSystemPreset::Hilbert, 1), "-BF+AFA+FB-");
}

#[test]
fn iterations_are_capped_at_six() {
    let six = expand_lsystem(LSystemPreset::Dragon, 6);
    assert_eq!(expand_lsystem(LSystemPreset::Dragon, 50), six);
    assert_eq!(expand_lsystem(LSystemPreset::Dragon, usize::MAX), six);
    assert!(expand_lsystem(LSystemPreset::Dragon, 5).len() < six.len());
}

#[test]
fn turtle_commands_follow_turns_and_brackets() {
    let cs: Vec<char> = "F+F[-G]F]x".chars().collect();
    assert_eq!(
        turtle_ops(&cs),
        vec![TurtleOp::Line(0), TurtleOp::Line(1), TurtleOp::Line(0), TurtleOp::Jump(2), TurtleOp::Line(1)]
    );
    let empty: Vec<char> = Vec::new();
    assert!(turtle_ops(&empty).is_empty());
}
