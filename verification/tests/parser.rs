use swim_parser::ast::{DistanceUnit, Interval, SetNode};
use swim_parser::parser::Parser;

#[test]
fn test_simple_statement() {
    let input = "100m fly @ 1:30";
    let mut parser = Parser::new(input);
    let workout = parser.parse().unwrap();

    assert_eq!(workout.sets.len(), 1);
    match &workout.sets[0] {
        SetNode::Statement(stmt) => {
            assert_eq!(stmt.distance.value, 100);
            assert_eq!(stmt.distance.unit, DistanceUnit::Meters);
            assert_eq!(stmt.stroke.name, "fly");
            assert!(stmt.stroke.modifiers.is_empty());
            assert_eq!(
                stmt.interval,
                Some(Interval::MinutesSeconds {
                    minutes: 1,
                    seconds: 30
                })
            );
        }
        _ => panic!("Expected Statement"),
    }
}

#[test]
fn test_simple_repetition() {
    let input = "4x50m free @ 60s";
    let mut parser = Parser::new(input);
    let workout = parser.parse().unwrap();

    assert_eq!(workout.sets.len(), 1);
    match &workout.sets[0] {
        SetNode::Repetition { count, set } => {
            assert_eq!(*count, 4);
            match &**set {
                SetNode::Statement(stmt) => {
                    assert_eq!(stmt.distance.value, 50);
                    assert_eq!(stmt.stroke.name, "free");
                    assert_eq!(stmt.interval, Some(Interval::Seconds(60)));
                }
                _ => panic!("Expected Statement inside Repetition"),
            }
        }
        _ => panic!("Expected Repetition"),
    }
}

#[test]
fn test_stroke_with_modifiers() {
    let input = "100m butterfly(drill, kick) @ 30s";
    let mut parser = Parser::new(input);
    let workout = parser.parse().unwrap();

    match &workout.sets[0] {
        SetNode::Statement(stmt) => {
            assert_eq!(stmt.stroke.name, "butterfly");
            assert_eq!(stmt.stroke.modifiers, vec!["drill", "kick"]);
        }
        _ => panic!("Expected Statement"),
    }
}

#[test]
fn test_simple_block() {
    let input = "{\n  25m choice (easy) @ 60s\n  50m free @ 60s\n}";
    let mut parser = Parser::new(input);
    let workout = parser.parse().unwrap();

    match &workout.sets[0] {
        SetNode::Block { sets } => {
            assert_eq!(sets.len(), 2);
            match &sets[0] {
                SetNode::Statement(stmt) => {
                    assert_eq!(stmt.distance.value, 25);
                    assert_eq!(stmt.stroke.name, "choice");
                    assert_eq!(stmt.stroke.modifiers, vec!["easy"]);
                }
                _ => panic!("Expected Statement"),
            }
        }
        _ => panic!("Expected Block"),
    }
}

#[test]
fn test_complex_workout() {
    let input = "\
        1x100m fly @ 1:30\n\
        50m fly @ 60s\n\
        4x {\n\
          25m choice (easy) @ 60s\n\
          12x50m free @ 60s\n\
        }\n\
        12x {\n\
          75m free (easy) @ 60s\n\
          12x50m free (descend) @ 60s\n\
        }";

    let mut parser = Parser::new(input);
    let workout = parser.parse().unwrap();

    assert_eq!(workout.sets.len(), 4);

    // Test first set: 1x100m fly @ 1:30
    match &workout.sets[0] {
        SetNode::Repetition { count, set } => {
            assert_eq!(*count, 1);
            match &**set {
                SetNode::Statement(stmt) => {
                    assert_eq!(stmt.distance.value, 100);
                    assert_eq!(stmt.stroke.name, "fly");
                    assert_eq!(
                        stmt.interval,
                        Some(Interval::MinutesSeconds {
                            minutes: 1,
                            seconds: 30
                        })
                    );
                }
                _ => panic!("Expected Statement"),
            }
        }
        _ => panic!("Expected Repetition"),
    }

    // Test fourth set: complex nested block
    match &workout.sets[3] {
        SetNode::Repetition { count, set } => {
            assert_eq!(*count, 12);
            match &**set {
                SetNode::Block { sets } => {
                    assert_eq!(sets.len(), 2);
                    // Test nested repetition
                    match &sets[1] {
                        SetNode::Repetition { count, set } => {
                            assert_eq!(*count, 12);
                            match &**set {
                                SetNode::Statement(stmt) => {
                                    assert_eq!(stmt.stroke.modifiers, vec!["descend"]);
                                }
                                _ => panic!("Expected Statement"),
                            }
                        }
                        _ => panic!("Expected Repetition"),
                    }
                }
                _ => panic!("Expected Block"),
            }
        }
        _ => panic!("Expected Repetition"),
    }
}

#[test]
fn test_error_handling() {
    // Test missing distance unit
    let input = "100 fly @ 30s";
    let mut parser = Parser::new(input);
    assert!(parser.parse().is_err());

    // Test invalid interval format
    let input = "100m fly @ 1:xyz";
    let mut parser = Parser::new(input);
    assert!(parser.parse().is_err());

    // Test unclosed block
    let input = "4x {\n  50m free @ 30s\n";
    let mut parser = Parser::new(input);
    assert!(parser.parse().is_err());

    // Test invalid repetition format
    let input = "4 50m free @ 30s";
    let mut parser = Parser::new(input);
    assert!(parser.parse().is_err());
}

#[test]
fn test_interval_formats() {
    // Test seconds format
    let input = "100m free @ 45s";
    let mut parser = Parser::new(input);
    let workout = parser.parse().unwrap();
    match &workout.sets[0] {
        SetNode::Statement(stmt) => {
            assert_eq!(stmt.interval, Some(Interval::Seconds(45)));
        }
        _ => panic!("Expected Statement"),
    }

    // Test minutes:seconds format
    let input = "100m free @ 1:30";
    let mut parser = Parser::new(input);
    let workout = parser.parse().unwrap();
    match &workout.sets[0] {
        SetNode::Statement(stmt) => {
            assert_eq!(
                stmt.interval,
                Some(Interval::MinutesSeconds {
                    minutes: 1,
                    seconds: 30
                })
            );
        }
        _ => panic!("Expected Statement"),
    }
}

#[test]
fn test_distance_units() {
    // Test meters
    let input = "100m free @ 30s";
    let mut parser = Parser::new(input);
    let workout = parser.parse().unwrap();
    match &workout.sets[0] {
        SetNode::Statement(stmt) => {
            assert_eq!(stmt.distance.unit, DistanceUnit::Meters);
        }
        _ => panic!("Expected Statement"),
    }

    // Test kilometers
    let input = "1km free @ 30s";
    let mut parser = Parser::new(input);
    let workout = parser.parse().unwrap();
    match &workout.sets[0] {
        SetNode::Statement(stmt) => {
            assert_eq!(stmt.distance.unit, DistanceUnit::Kilometers);
        }
        _ => panic!("Expected Statement"),
    }
}

#[test]
fn test_bare_seconds_interval() {
    // The `s` suffix is cosmetic: `@45` means 45 seconds too.
    let mut parser = Parser::new("100m free @ 45");
    let workout = parser.parse().unwrap();
    match &workout.sets[0] {
        SetNode::Statement(stmt) => {
            assert_eq!(stmt.interval, Some(Interval::Seconds(45)));
        }
        _ => panic!("Expected Statement"),
    }
}

#[test]
fn test_statement_without_interval() {
    let mut parser = Parser::new("100m free");
    let workout = parser.parse().unwrap();
    match &workout.sets[0] {
        SetNode::Statement(stmt) => {
            assert_eq!(stmt.interval, None);
        }
        _ => panic!("Expected Statement"),
    }
}

#[test]
fn test_error_leading_word() {
    let mut parser = Parser::new("free 100m");
    assert!(parser.parse().is_err());
}

#[test]
fn test_error_missing_stroke() {
    let mut parser = Parser::new("100m 200m");
    assert!(parser.parse().is_err());
}

#[test]
fn test_error_empty_modifier_list() {
    let mut parser = Parser::new("100m free() @ 30s");
    assert!(parser.parse().is_err());
}

#[test]
fn test_error_modifier_continuation() {
    let mut parser = Parser::new("100m free(easy hard) @ 30s");
    assert!(parser.parse().is_err());
}

#[test]
fn test_error_interval_token() {
    let mut parser = Parser::new("100m free @ x");
    assert!(parser.parse().is_err());
}

#[test]
fn test_error_seconds_overflow_in_time() {
    let mut parser = Parser::new("100m free @ 1:99999999999999");
    assert!(parser.parse().is_err());
}

#[test]
fn test_error_lexing_failure() {
    // An unrecognized character fails the parse, never a partial result.
    let mut parser = Parser::new("100m free $ 50m fly");
    assert!(parser.parse().is_err());
}

#[test]
fn test_empty_block() {
    let mut parser = Parser::new("{ }");
    let workout = parser.parse().unwrap();
    match &workout.sets[0] {
        SetNode::Block { sets } => assert!(sets.is_empty()),
        _ => panic!("Expected Block"),
    }
}
