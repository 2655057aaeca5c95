//! The abstract syntax tree of a workout, together with its mathematical
//! model: each node type has a view built from `Seq` and plain values, which
//! the contracts of the lexer, parser and analyzer speak about.

use vstd::prelude::*;

verus! {

/// A parsed workout: an ordered sequence of top-level sets.
#[derive(Debug, PartialEq)]
pub struct Workout {
    pub sets: Vec<SetNode>,
}

/// A single set in a workout: a repetition, a braced block, or one statement.
#[derive(Debug, PartialEq)]
pub enum SetNode {
    /// A repeated set, e.g. `4x 50m free`. A count of zero is legal and
    /// contributes nothing.
    Repetition { count: u32, set: Box<SetNode> },
    /// A braced group of zero or more sets.
    Block { sets: Vec<SetNode> },
    /// A single swim statement.
    Statement(Statement),
}

/// A swim statement: a distance, a stroke, and an optional interval.
#[derive(Debug, PartialEq)]
pub struct Statement {
    pub distance: Distance,
    pub stroke: Stroke,
    pub interval: Option<Interval>,
}

/// A distance as written in the source: a value and its unit. The value is
/// kept in the stated unit; conversion to meters (1 km = 1000 m) happens only
/// when a total is computed, never at construction.
#[derive(Debug, Clone, Copy, PartialEq)]
pub struct Distance {
    pub value: u32,
    pub unit: DistanceUnit,
}

/// The two distance units of the notation.
#[derive(Debug, Clone, Copy, PartialEq)]
pub enum DistanceUnit {
    Meters,
    Kilometers,
}

/// A stroke name with optional modifiers, e.g. `butterfly(drill, kick)`.
/// The name is an unconstrained identifier; no fixed vocabulary is enforced.
#[derive(Debug, PartialEq)]
pub struct Stroke {
    pub name: String,
    pub modifiers: Vec<String>,
}

/// Rest or pace timing attached to a statement. Nothing constrains
/// `seconds < 60`; values are stored as written in the source.
#[derive(Debug, Clone, Copy, PartialEq)]
pub enum Interval {
    /// A plain number of seconds, e.g. `@30s` or `@30`.
    Seconds(u32),
    /// A minutes:seconds pair, e.g. `@1:30`.
    MinutesSeconds { minutes: u32, seconds: u32 },
}

/// The model of a stroke: its name and modifiers as character sequences.
pub struct StrokeV {
    pub name: Seq<char>,
    pub modifiers: Seq<Seq<char>>,
}

/// The model of a statement.
pub struct StatementV {
    pub distance: Distance,
    pub stroke: StrokeV,
    pub interval: Option<Interval>,
}

/// The model of a set node.
pub enum SetNodeV {
    Repetition { count: u32, set: Box<SetNodeV> },
    Block { sets: Seq<SetNodeV> },
    Statement(StatementV),
}

/// The model of a workout.
pub struct WorkoutV {
    pub sets: Seq<SetNodeV>,
}

impl View for Stroke {
    type V = StrokeV;

    open spec fn view(&self) -> StrokeV {
        StrokeV { name: self.name@, modifiers: self.modifiers.deep_view() }
    }
}

impl View for Statement {
    type V = StatementV;

    open spec fn view(&self) -> StatementV {
        StatementV {
            distance: self.distance,
            stroke: self.stroke@,
            interval: self.interval,
        }
    }
}

/// The model of one set node, recursively.
pub open spec fn set_node_view(s: SetNode) -> SetNodeV
    decreases s,
{
    match s {
        SetNode::Repetition { count, set } => SetNodeV::Repetition {
            count,
            set: Box::new(set_node_view(*set)),
        },
        SetNode::Block { sets } => SetNodeV::Block { sets: set_seq_view(sets@) },
        SetNode::Statement(st) => SetNodeV::Statement(st@),
    }
}

/// The models of a sequence of set nodes, element by element.
pub open spec fn set_seq_view(s: Seq<SetNode>) -> Seq<SetNodeV>
    decreases s,
{
    if s.len() == 0 {
        Seq::empty()
    } else {
        set_seq_view(s.drop_last()).push(set_node_view(s.last()))
    }
}

impl View for SetNode {
    type V = SetNodeV;

    open spec fn view(&self) -> SetNodeV {
        set_node_view(*self)
    }
}

impl View for Workout {
    type V = WorkoutV;

    open spec fn view(&self) -> WorkoutV {
        WorkoutV { sets: set_seq_view(self.sets@) }
    }
}

/// `set_seq_view` maps the view over the sequence: same length, and the
/// element at each position is the element's view.
pub proof fn lemma_set_seq_view(s: Seq<SetNode>)
    ensures
        set_seq_view(s).len() == s.len(),
        forall|i: int| 0 <= i < s.len() ==> set_seq_view(s)[i] == set_node_view(s[i]),
    decreases s,
{
    if s.len() > 0 {
        lemma_set_seq_view(s.drop_last());
    }
}

} // verus!
