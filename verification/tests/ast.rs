use swim_parser::ast::{
    Distance, DistanceUnit, Interval, SetNode, Statement, Stroke, Workout,
};
use swim_parser::parser::Parser;

#[test]
fn test_ast_construction() {
    // Create a sample workout: 4x { 100m freestyle @1:30, 50m butterfly (drill) @45s }
    let workout = Workout {
        sets: vec![SetNode::Repetition {
            count: 4,
            set: Box::new(SetNode::Block {
                sets: vec![
                    SetNode::Statement(Statement {
                        distance: Distance {
                            value: 100,
                            unit: DistanceUnit::Meters,
                        },
                        stroke: Stroke {
                            name: "freestyle".to_string(),
                            modifiers: vec![],
                        },
                        interval: Some(Interval::MinutesSeconds {
                            minutes: 1,
                            seconds: 30,
                        }),
                    }),
                    SetNode::Statement(Statement {
                        distance: Distance {
                            value: 50,
                            unit: DistanceUnit::Meters,
                        },
                        stroke: Stroke {
                            name: "butterfly".to_string(),
                            modifiers: vec!["drill".to_string()],
                        },
                        interval: Some(Interval::Seconds(45)),
                    }),
                ],
            }),
        }],
    };

    // Test the text rendering
    let output = workout.to_text();
    assert!(output.contains("4x"));
    assert!(output.contains("100m"));
    assert!(output.contains("freestyle"));
    assert!(output.contains("@1:30"));
    assert!(output.contains("50m"));
    assert!(output.contains("butterfly(drill)"));
    assert!(output.contains("@45s"));
}

#[test]
fn test_render_exact_text() {
    let mut parser = Parser::new("4x50m free @ 60s");
    let workout = parser.parse().unwrap();

    assert_eq!(workout.to_text(), "4x 50m free @60s\n");
}

#[test]
fn test_render_zero_padded_seconds() {
    let mut parser = Parser::new("100m fly @ 2:05");
    let workout = parser.parse().unwrap();

    assert_eq!(workout.to_text(), "100m fly @2:05\n");
}
