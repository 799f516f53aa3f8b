use edgy::actions::parse_action;
use edgy::actions::Action;
use edgy::actions::Effect;
use edgy::config::Config;
use edgy::gesture_detector::Direction;
use edgy::gesture_detector::GestureDetector;
use edgy::gesture_detector::Side;

fn command_of(a: &Action) -> &[u8] {
    match &a.effect {
        Effect::RunCommand(cmd) => cmd.as_slice(),
        _ => panic!("expected a run-command effect"),
    }
}

#[test]
fn round_trip_same_descriptor() {
    let a = parse_action(b"from bottom to up with 3 fingers run command 'notify-send hi'")
        .expect("must parse");
    let b = parse_action(b"with 3 fingers to up from bottom run cmd 'notify-send hi'")
        .expect("must parse");
    assert_eq!(a.side, Side::Bottom);
    assert_eq!(a.direction, Direction::Up);
    assert_eq!(a.num_fingers, 3);
    assert_eq!(command_of(&a), b"notify-send hi");
    assert_eq!(a.side, b.side);
    assert_eq!(a.direction, b.direction);
    assert_eq!(a.num_fingers, b.num_fingers);
    assert_eq!(command_of(&a), command_of(&b));
}

#[test]
fn malformed_direction_fails() {
    assert!(parse_action(b"from bottom to sideways with 3 fingers run 'x'").is_none());
}

#[test]
fn effect_clause_may_come_first() {
    let a = parse_action(b"run 'xterm' from left to right with 2 fingers").expect("must parse");
    assert_eq!(a.side, Side::Left);
    assert_eq!(a.direction, Direction::Right);
    assert_eq!(a.num_fingers, 2);
    assert_eq!(command_of(&a), b"xterm");
}

#[test]
fn passthrough_effects() {
    let a = parse_action(b"disable touch screen from top to down with 2 fingers")
        .expect("must parse");
    assert!(matches!(a.effect, Effect::PassthroughOn));
    let a = parse_action(b"turn off touch from top to down with 2 fingers").expect("must parse");
    assert!(matches!(a.effect, Effect::PassthroughOn));
    let a = parse_action(b"stop touch screen from top to down with 2 fingers")
        .expect("must parse");
    assert!(matches!(a.effect, Effect::PassthroughOn));
    let a = parse_action(b"enable touch screen from top to down with 2 fingers")
        .expect("must parse");
    assert!(matches!(a.effect, Effect::PassthroughOff));
    let a = parse_action(b"turn on touch from top to down with 2 fingers").expect("must parse");
    assert!(matches!(a.effect, Effect::PassthroughOff));
    let a = parse_action(b"start touch from top to down with 2 fingers").expect("must parse");
    assert!(matches!(a.effect, Effect::PassthroughOff));
    let a = parse_action(b"toggle touch screen from top to down with 2 fingers")
        .expect("must parse");
    assert!(matches!(a.effect, Effect::PassthroughToggle));
}

#[test]
fn number_words_and_digits() {
    let a = parse_action(b"with ten fingers from top to down run 'x'").expect("must parse");
    assert_eq!(a.num_fingers, 10);
    let a = parse_action(b"with seven touches from top to down run 'x'").expect("must parse");
    assert_eq!(a.num_fingers, 7);
    let a = parse_action(b"with 12 fingers from top to down run 'x'").expect("must parse");
    assert_eq!(a.num_fingers, 12);
    let a = parse_action(b"with one finger from top to down run 'x'").expect("must parse");
    assert_eq!(a.num_fingers, 1);
    let a = parse_action(b"with 1 touch from top to down run 'x'").expect("must parse");
    assert_eq!(a.num_fingers, 1);
    // A count too wide for the language is no count at all.
    assert!(parse_action(b"with 99999999999 fingers from top to down run 'x'").is_none());
}

#[test]
fn clause_order_and_optional_words() {
    // The "with" is optional, and the finger clause may follow the from-to
    // clause.
    let a = parse_action(b"3 fingers from bottom to up run 'x'").expect("must parse");
    assert_eq!(a.num_fingers, 3);
    let a = parse_action(b"from bottom to up 3 fingers run 'x'").expect("must parse");
    assert_eq!(a.num_fingers, 3);
    // The "from" is optional; direction-first order works too.
    let a = parse_action(b"bottom to up 3 fingers run 'x'").expect("must parse");
    assert_eq!(a.side, Side::Bottom);
    let a = parse_action(b"to up from bottom 3 fingers run 'x'").expect("must parse");
    assert_eq!(a.side, Side::Bottom);
    assert_eq!(a.direction, Direction::Up);
}

#[test]
fn edge_and_direction_synonyms() {
    // In an edge position, "up" and "down" name the top and bottom borders.
    let a = parse_action(b"from down to up with 2 fingers run 'x'").expect("must parse");
    assert_eq!(a.side, Side::Bottom);
    let a = parse_action(b"from up to down with 2 fingers run 'x'").expect("must parse");
    assert_eq!(a.side, Side::Top);
    // In a direction position, "top" and "bottom" name up and down.
    let a = parse_action(b"from left to left with 2 fingers run 'x'").expect("must parse");
    assert_eq!(a.direction, Direction::Left);
    let a = parse_action(b"from bottom to top with 2 fingers run 'x'").expect("must parse");
    assert_eq!(a.direction, Direction::Up);
}

#[test]
fn case_insensitive_keywords() {
    let a = parse_action(b"FROM Bottom TO Up WITH 3 Fingers RUN Command 'Notify-Send HI'")
        .expect("must parse");
    assert_eq!(a.side, Side::Bottom);
    assert_eq!(a.direction, Direction::Up);
    // The quoted command keeps its case.
    assert_eq!(command_of(&a), b"Notify-Send HI");
}

#[test]
fn quote_kinds() {
    let a = parse_action(b"run \"echo 'hi'\" from left to right with 2 fingers")
        .expect("must parse");
    assert_eq!(command_of(&a), b"echo 'hi'");
    // Unterminated, empty, or undelimited quotes fail.
    assert!(parse_action(b"run 'x from left to right with 2 fingers").is_none());
    assert!(parse_action(b"run '' from left to right with 2 fingers").is_none());
    assert!(parse_action(b"run 'x'y from left to right with 2 fingers").is_none());
}

#[test]
fn incomplete_descriptors_fail() {
    assert!(parse_action(b"").is_none());
    assert!(parse_action(b"from bottom to up with 3 fingers").is_none());
    assert!(parse_action(b"run 'x'").is_none());
    assert!(parse_action(b"from bottom to up run 'x'").is_none());
    assert!(parse_action(b"with 3 fingers run 'x'").is_none());
    // Trailing words beyond the two clauses are a parse failure.
    assert!(parse_action(b"from bottom to up with 3 fingers run 'x' extra").is_none());
    // An invalid pairing is not the grammar's concern: it still parses.
    assert!(parse_action(b"from bottom to left with 3 fingers run 'x'").is_some());
}

#[test]
fn whitespace_kinds_separate_tokens() {
    let a = parse_action(b"from\tbottom\nto up\r\nwith  3 fingers run 'x'").expect("must parse");
    assert_eq!(a.side, Side::Bottom);
    assert_eq!(a.direction, Direction::Up);
    assert_eq!(a.num_fingers, 3);
}

#[test]
fn touch_screen_is_two_words() {
    assert!(parse_action(b"toggle touchscreen from left to right with 2 fingers").is_none());
    assert!(parse_action(b"toggle touch from left to right with 2 fingers").is_some());
}

#[test]
fn run_synonyms_and_leading_zeros() {
    let a = parse_action(b"execute 'x' from left to right with 03 fingers").expect("must parse");
    assert_eq!(a.num_fingers, 3);
    assert_eq!(command_of(&a), b"x");
    let a = parse_action(b"exec cmd 'x' from left to right with 2 fingers").expect("must parse");
    assert_eq!(command_of(&a), b"x");
}

#[test]
fn registry_fires_every_match_in_order() {
    let config = Config {
        screen_width: 1000,
        screen_height: 1000,
        zone_width: 50,
        detection_threshold: 24,
    };
    let mut d = GestureDetector::new(config);
    let actions = vec![
        parse_action(b"from bottom to up with 2 fingers run 'first'").unwrap(),
        parse_action(b"from bottom to up with 3 fingers run 'other-count'").unwrap(),
        parse_action(b"from bottom to up with 2 fingers run 'second'").unwrap(),
        parse_action(b"from left to right with 2 fingers run 'other-edge'").unwrap(),
    ];
    let commands = d.on_gesture(&actions, Side::Bottom, Direction::Up, 2);
    assert_eq!(commands.len(), 2);
    assert_eq!(commands[0].as_slice(), b"first");
    assert_eq!(commands[1].as_slice(), b"second");
}

#[test]
fn registry_switches_passthrough() {
    let config = Config {
        screen_width: 1000,
        screen_height: 1000,
        zone_width: 50,
        detection_threshold: 24,
    };
    let mut d = GestureDetector::new(config);
    let actions = vec![
        parse_action(b"disable touch screen from bottom to up with 2 fingers").unwrap(),
        parse_action(b"toggle touch from left to right with 2 fingers").unwrap(),
    ];
    assert!(!d.get_accept_all());
    let commands = d.on_gesture(&actions, Side::Bottom, Direction::Up, 2);
    assert!(commands.is_empty());
    assert!(d.get_accept_all());
    let _ = d.on_gesture(&actions, Side::Left, Direction::Right, 2);
    assert!(!d.get_accept_all());
    // A gesture matching nothing changes nothing.
    let _ = d.on_gesture(&actions, Side::Top, Direction::Down, 5);
    assert!(!d.get_accept_all());
}
