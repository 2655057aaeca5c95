use swim_parser::analyse::Analyse;
use swim_parser::parser::Parser;

#[test]
fn test_simple_distance() {
    let input = "100m fly @ 1:30\n200m free @ 2:00";
    let mut parser = Parser::new(input);
    let workout = parser.parse().unwrap();

    assert_eq!(workout.total_distance(), 300);
}

#[test]
fn test_repetition_distance() {
    let input = "4x50m free @ 60s";
    let mut parser = Parser::new(input);
    let workout = parser.parse().unwrap();

    assert_eq!(workout.total_distance(), 200); // 4 * 50m = 200m
}

#[test]
fn test_complex_distance() {
    let input = "\
        1x100m fly @ 1:30\n\
        50m fly @ 60s\n\
        4x {\n\
          25m choice (easy) @ 60s\n\
          12x50m free @ 60s\n\
        }";

    let mut parser = Parser::new(input);
    let workout = parser.parse().unwrap();

    // 100m + 50m + 4 * (25m + 12 * 50m)
    // = 150m + 4 * (25m + 600m)
    // = 150m + 4 * 625m
    // = 150m + 2500m
    // = 2650m
    assert_eq!(workout.total_distance(), 2650);
}

#[test]
fn test_kilometer_distance() {
    let input = "1km free @ 15:00\n500m fly @ 8:00";
    let mut parser = Parser::new(input);
    let workout = parser.parse().unwrap();

    assert_eq!(workout.total_distance(), 1500); // 1km + 500m = 1500m
}

#[test]
fn test_nested_repetition_distance() {
    let input = "3x { 2x100m free @ 1:30 }";
    let mut parser = Parser::new(input);
    let workout = parser.parse().unwrap();

    assert_eq!(workout.total_distance(), 600); // 3 * (2 * 100m) = 600m
}

#[test]
fn test_mixed_units_distance() {
    let input = "2x { 1km free @ 8:00\n100m fly @ 2:00 }";
    let mut parser = Parser::new(input);
    let workout = parser.parse().unwrap();

    // 2 * (1000m + 100m) = 2 * 1100m = 2200m
    assert_eq!(workout.total_distance(), 2200);
}

#[test]
fn test_simple_stroke_distribution() {
    let input = "100m fly @ 1:30\n200m free @ 2:00";
    let mut parser = Parser::new(input);
    let workout = parser.parse().unwrap();

    let distribution = workout.stroke_distribution();
    assert_eq!(distribution.get("fly"), Some(100));
    assert_eq!(distribution.get("free"), Some(200));
}

#[test]
fn test_repetition_stroke_distribution() {
    let input = "4x50m free @ 60s";
    let mut parser = Parser::new(input);
    let workout = parser.parse().unwrap();

    let distribution = workout.stroke_distribution();
    assert_eq!(distribution.get("free"), Some(200)); // 4 * 50m = 200m
}

#[test]
fn test_complex_stroke_distribution() {
    let input = "\
        1x100m fly @ 1:30\n\
        50m fly @ 60s\n\
        4x {\n\
          25m choice (easy) @ 60s\n\
          12x50m free @ 60s\n\
        }";

    let mut parser = Parser::new(input);
    let workout = parser.parse().unwrap();

    let distribution = workout.stroke_distribution();
    assert_eq!(distribution.get("fly"), Some(150)); // 100m + 50m
    assert_eq!(distribution.get("choice"), Some(100)); // 4 * 25m
    assert_eq!(distribution.get("free"), Some(2400)); // 4 * 12 * 50m
}

#[test]
fn test_kilometer_stroke_distribution() {
    let input = "1km free @ 15:00\n500m fly @ 8:00";
    let mut parser = Parser::new(input);
    let workout = parser.parse().unwrap();

    let distribution = workout.stroke_distribution();
    assert_eq!(distribution.get("free"), Some(1000)); // 1km = 1000m
    assert_eq!(distribution.get("fly"), Some(500)); // 500m
}

#[test]
fn test_nested_scenario() {
    // 4 * (25 + 12 * 50) = 2500 meters in all.
    let input = "4x {\n  25m choice (easy) @ 60s\n  12x50m free @ 60s\n}";
    let mut parser = Parser::new(input);
    let workout = parser.parse().unwrap();

    assert_eq!(workout.total_distance(), 2500);
    let distribution = workout.stroke_distribution();
    assert_eq!(distribution.get("choice"), Some(100));
    assert_eq!(distribution.get("free"), Some(2400));
}

#[test]
fn test_zero_repetition() {
    // A zero-count repetition contributes nothing; the stroke name stays,
    // with value zero.
    let input = "0x50m free @ 30s";
    let mut parser = Parser::new(input);
    let workout = parser.parse().unwrap();

    assert_eq!(workout.total_distance(), 0);
    let distribution = workout.stroke_distribution();
    assert_eq!(distribution.get("free"), Some(0));
}

#[test]
fn test_kilometer_unit_conversion() {
    // One kilometer contributes exactly 1000 to the total and to its
    // stroke's entry.
    let input = "1km free";
    let mut parser = Parser::new(input);
    let workout = parser.parse().unwrap();

    assert_eq!(workout.total_distance(), 1000);
    assert_eq!(workout.stroke_distribution().get("free"), Some(1000));
}

#[test]
fn test_distribution_sums_to_total() {
    // The distribution's values sum to exactly the total distance.
    let input = "1x100m fly @ 1:30\n50m fly @ 60s\n4x {\n  25m choice @ 60s\n  12x50m free @ 60s\n}";
    let mut parser = Parser::new(input);
    let workout = parser.parse().unwrap();

    let total = workout.total_distance();
    let distribution = workout.stroke_distribution();
    let mut sum: u32 = 0;
    for pair in distribution.pairs() {
        sum += pair.1;
    }
    assert_eq!(sum, total);
}

#[test]
fn test_total_multiplicative_over_repetition() {
    // The repeated form totals the count times the plain form's total.
    let plain = Parser::new("100m free @ 1:30").parse().unwrap();
    let repeated = Parser::new("3x100m free @ 1:30").parse().unwrap();

    assert_eq!(repeated.total_distance(), 3 * plain.total_distance());
}

#[test]
fn test_total_additive_over_block() {
    // A block's total is the sum of its children's totals.
    let first = Parser::new("{ 100m free }").parse().unwrap();
    let second = Parser::new("{ 200m fly\n50m back }").parse().unwrap();
    let joined = Parser::new("{ 100m free\n200m fly\n50m back }").parse().unwrap();

    assert_eq!(
        joined.total_distance(),
        first.total_distance() + second.total_distance()
    );
}

#[test]
fn test_empty_input() {
    let mut parser = Parser::new("");
    let workout = parser.parse().unwrap();

    assert_eq!(workout.total_distance(), 0);
    assert_eq!(workout.stroke_distribution().get("free"), None);
    assert!(workout.sets.is_empty());
}
