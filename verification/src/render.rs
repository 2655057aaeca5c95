//! Rendering of the abstract syntax tree back to workout notation. Each node
//! type has a mathematical text, and the executable renderers produce exactly
//! it.

use vstd::prelude::*;
use vstd::string::StrSliceExecFns;
use vstd::string::StringExecFns;

use crate::ast::{
    lemma_set_seq_view, set_node_view, set_seq_view, Distance, DistanceUnit, Interval, SetNode,
    SetNodeV, Statement, StatementV, Stroke, StrokeV, Workout, WorkoutV,
};

verus! {

/// The decimal digit character for one digit value.
pub open spec fn dec_char(d: nat) -> char {
    if d == 0 {
        '0'
    } else if d == 1 {
        '1'
    } else if d == 2 {
        '2'
    } else if d == 3 {
        '3'
    } else if d == 4 {
        '4'
    } else if d == 5 {
        '5'
    } else if d == 6 {
        '6'
    } else if d == 7 {
        '7'
    } else if d == 8 {
        '8'
    } else {
        '9'
    }
}

/// The decimal digits of a number, most significant first.
pub open spec fn dec_digits(n: nat) -> Seq<char>
    decreases n,
{
    if n < 10 {
        Seq::empty().push(dec_char(n))
    } else {
        dec_digits(n / 10).push(dec_char(n % 10))
    }
}

/// The text of a distance unit: `m` or `km`.
pub open spec fn text_of_unit(u: DistanceUnit) -> Seq<char> {
    match u {
        DistanceUnit::Meters => seq!['m'],
        DistanceUnit::Kilometers => seq!['k', 'm'],
    }
}

/// The text of a distance: the value and its unit, e.g. `100m`.
pub open spec fn text_of_distance(d: Distance) -> Seq<char> {
    dec_digits(d.value as nat) + text_of_unit(d.unit)
}

/// The text of an interval: `@30s`, or `@1:05` with the seconds zero-padded
/// to two digits.
pub open spec fn text_of_interval(iv: Interval) -> Seq<char> {
    match iv {
        Interval::Seconds(secs) => seq!['@'] + dec_digits(secs as nat) + seq!['s'],
        Interval::MinutesSeconds { minutes, seconds } => seq!['@'] + dec_digits(minutes as nat)
            + seq![':'] + (if seconds < 10 {
            seq!['0'] + dec_digits(seconds as nat)
        } else {
            dec_digits(seconds as nat)
        }),
    }
}

/// The comma-separated modifier texts from index `i` on, each but the first
/// preceded by `, `.
pub open spec fn text_of_modifiers(mods: Seq<Seq<char>>, i: int) -> Seq<char>
    decreases mods.len() - i,
{
    if 0 <= i < mods.len() {
        (if i > 0 {
            seq![',', ' ']
        } else {
            Seq::empty()
        }) + mods[i] + text_of_modifiers(mods, i + 1)
    } else {
        Seq::empty()
    }
}

/// The text of a stroke: its name, with the modifiers parenthesized when
/// there are any, e.g. `butterfly(drill, kick)`.
pub open spec fn text_of_stroke(st: StrokeV) -> Seq<char> {
    if st.modifiers.len() == 0 {
        st.name
    } else {
        st.name + seq!['('] + text_of_modifiers(st.modifiers, 0) + seq![')']
    }
}

/// The text of a statement: distance, stroke, and the interval if present.
pub open spec fn text_of_statement(st: StatementV) -> Seq<char> {
    text_of_distance(st.distance) + seq![' '] + text_of_stroke(st.stroke) + (match st.interval {
        Some(iv) => seq![' '] + text_of_interval(iv),
        None => Seq::empty(),
    })
}

/// The text of one set: `4x <set>` for a repetition, a braced and indented
/// line per child for a block, the statement's text for a statement.
pub open spec fn text_of_set(s: SetNodeV) -> Seq<char>
    decreases s, 0int,
{
    match s {
        SetNodeV::Repetition { count, set } => dec_digits(count as nat) + seq!['x', ' ']
            + text_of_set(*set),
        SetNodeV::Block { sets } => seq!['{', '\n'] + text_of_block_lines(sets, 0) + seq!['}'],
        SetNodeV::Statement(st) => text_of_statement(st),
    }
}

/// The block member lines from index `i` on: four spaces, the member's text,
/// a line break.
pub open spec fn text_of_block_lines(sets: Seq<SetNodeV>, i: int) -> Seq<char>
    decreases sets, sets.len() - i,
{
    if 0 <= i < sets.len() {
        seq![' ', ' ', ' ', ' '] + text_of_set(sets[i]) + seq!['\n'] + text_of_block_lines(
            sets,
            i + 1,
        )
    } else {
        Seq::empty()
    }
}

/// The workout lines from index `i` on: each top-level set's text followed by
/// a line break.
pub open spec fn text_of_workout_lines(sets: Seq<SetNodeV>, i: int) -> Seq<char>
    decreases sets.len() - i,
{
    if 0 <= i < sets.len() {
        text_of_set(sets[i]) + seq!['\n'] + text_of_workout_lines(sets, i + 1)
    } else {
        Seq::empty()
    }
}

/// The text of a whole workout: one line per top-level set.
pub open spec fn text_of_workout(w: WorkoutV) -> Seq<char> {
    text_of_workout_lines(w.sets, 0)
}

/// The decimal text of a number.
fn u32_to_text(n: u32) -> (r: String)
    ensures
        r@ == dec_digits(n as nat),
    decreases n,
{
    let digits = "0123456789";
    proof {
        reveal_strlit("0123456789");
    }
    let d = n % 10;
    let ds: &str = digits.substring_char(d as usize, d as usize + 1);
    proof {
        assert(ds@ =~= Seq::empty().push(dec_char((n % 10) as nat)));
    }
    if n < 10 {
        ds.to_owned()
    } else {
        proof {
            assert(n / 10 < n) by (nonlinear_arith)
                requires
                    n >= 10,
            ;
            assert((n / 10) as nat == n as nat / 10);
            assert((n % 10) as nat == n as nat % 10);
        }
        let mut s = u32_to_text(n / 10);
        s.append(ds);
        s
    }
}

impl DistanceUnit {
    /// The unit's text: `m` or `km`.
    pub fn to_text(&self) -> (r: String)
        ensures
            r@ == text_of_unit(*self),
    {
        match self {
            DistanceUnit::Meters => {
                let r = "m".to_owned();
                proof {
                    reveal_strlit("m");
                    assert(r@ =~= text_of_unit(DistanceUnit::Meters));
                }
                r
            },
            DistanceUnit::Kilometers => {
                let r = "km".to_owned();
                proof {
                    reveal_strlit("km");
                    assert(r@ =~= text_of_unit(DistanceUnit::Kilometers));
                }
                r
            },
        }
    }
}

impl Distance {
    /// The distance's text, e.g. `100m`.
    pub fn to_text(&self) -> (r: String)
        ensures
            r@ == text_of_distance(*self),
    {
        let mut s = u32_to_text(self.value);
        let unit = self.unit.to_text();
        s.append(unit.as_str());
        s
    }
}

impl Interval {
    /// The interval's text, e.g. `@30s` or `@1:05`.
    pub fn to_text(&self) -> (r: String)
        ensures
            r@ == text_of_interval(*self),
    {
        match self {
            Interval::Seconds(secs) => {
                let mut s = "@".to_owned();
                proof {
                    reveal_strlit("@");
                    reveal_strlit("s");
                }
                let digits = u32_to_text(*secs);
                s.append(digits.as_str());
                s.append("s");
                proof {
                    assert(s@ =~= text_of_interval(Interval::Seconds(*secs)));
                }
                s
            },
            Interval::MinutesSeconds { minutes, seconds } => {
                let mut s = "@".to_owned();
                proof {
                    reveal_strlit("@");
                    reveal_strlit(":");
                    reveal_strlit("0");
                }
                let m = u32_to_text(*minutes);
                s.append(m.as_str());
                s.append(":");
                if *seconds < 10 {
                    s.append("0");
                }
                let sec = u32_to_text(*seconds);
                s.append(sec.as_str());
                proof {
                    assert(s@ =~= text_of_interval(
                        Interval::MinutesSeconds { minutes: *minutes, seconds: *seconds },
                    ));
                }
                s
            },
        }
    }
}

impl Stroke {
    /// The stroke's text, e.g. `butterfly(drill, kick)`.
    #[verifier::loop_isolation(false)]
    pub fn to_text(&self) -> (r: String)
        ensures
            r@ == text_of_stroke(self@),
    {
        let mut s = self.name.clone();
        if self.modifiers.len() == 0 {
            proof {
                assert(s@ =~= text_of_stroke(self@));
            }
            return s;
        }
        proof {
            reveal_strlit("(");
            reveal_strlit(")");
            reveal_strlit(", ");
        }
        s.append("(");
        let ghost mods = self@.modifiers;
        let n = self.modifiers.len();
        let mut i: usize = 0;
        proof {
            assert(s@ + text_of_modifiers(mods, 0) =~= self@.name + seq!['('] + text_of_modifiers(
                mods,
                0,
            ));
        }
        while i < n
            invariant
                n == self.modifiers@.len(),
                mods == self@.modifiers,
                mods.len() == n,
                0 <= i <= n,
                s@ + text_of_modifiers(mods, i as int) == self@.name + seq!['(']
                    + text_of_modifiers(mods, 0),
            decreases n - i,
        {
            let ghost prev = s@;
            if i > 0 {
                s.append(", ");
            }
            s.append(self.modifiers[i].as_str());
            proof {
                assert(self.modifiers@[i as int]@ == mods[i as int]);
                assert(s@ =~= prev + (if i > 0 {
                    seq![',', ' ']
                } else {
                    Seq::<char>::empty()
                }) + mods[i as int]);
                assert(s@ + text_of_modifiers(mods, i + 1) =~= prev + text_of_modifiers(
                    mods,
                    i as int,
                ));
            }
            i = i + 1;
        }
        s.append(")");
        proof {
            assert(text_of_modifiers(mods, n as int) =~= Seq::<char>::empty());
            assert(s@ =~= text_of_stroke(self@));
        }
        s
    }
}

impl Statement {
    /// The statement's text: distance, stroke, and the interval if present.
    pub fn to_text(&self) -> (r: String)
        ensures
            r@ == text_of_statement(self@),
    {
        let mut s = self.distance.to_text();
        proof {
            reveal_strlit(" ");
        }
        s.append(" ");
        let stroke = self.stroke.to_text();
        s.append(stroke.as_str());
        match &self.interval {
            Some(iv) => {
                s.append(" ");
                let t = iv.to_text();
                s.append(t.as_str());
            },
            None => {},
        }
        proof {
            assert(s@ =~= text_of_statement(self@));
        }
        s
    }
}

impl SetNode {
    /// The set's text: `4x <set>`, a braced block with one indented line per
    /// child, or the statement's text.
    #[verifier::loop_isolation(false)]
    pub fn to_text(&self) -> (r: String)
        ensures
            r@ == text_of_set(self@),
        decreases *self,
    {
        match self {
            SetNode::Repetition { count, set } => {
                let mut s = u32_to_text(*count);
                proof {
                    reveal_strlit("x ");
                }
                s.append("x ");
                let child = set.to_text();
                s.append(child.as_str());
                proof {
                    assert(s@ =~= text_of_set(self@));
                }
                s
            },
            SetNode::Block { sets } => {
                let mut s = "{\n".to_owned();
                proof {
                    reveal_strlit("{\n");
                    reveal_strlit("    ");
                    reveal_strlit("\n");
                    reveal_strlit("}");
                    lemma_set_seq_view(sets@);
                }
                let ghost vs = set_seq_view(sets@);
                let n = sets.len();
                let mut i: usize = 0;
                proof {
                    assert(s@ + text_of_block_lines(vs, 0) =~= seq!['{', '\n']
                        + text_of_block_lines(vs, 0));
                }
                while i < n
                    invariant
                        n == sets@.len(),
                        vs == set_seq_view(sets@),
                        vs.len() == n,
                        forall|j: int| 0 <= j < n ==> vs[j] == set_node_view(sets@[j]),
                        0 <= i <= n,
                        s@ + text_of_block_lines(vs, i as int) == seq!['{', '\n']
                            + text_of_block_lines(vs, 0),
                    decreases n - i,
                {
                    let ghost prev = s@;
                    s.append("    ");
                    let child = sets[i].to_text();
                    s.append(child.as_str());
                    s.append("\n");
                    proof {
                        assert(s@ =~= prev + seq![' ', ' ', ' ', ' '] + text_of_set(
                            vs[i as int],
                        ) + seq!['\n']);
                        assert(s@ + text_of_block_lines(vs, i + 1) =~= prev + text_of_block_lines(
                            vs,
                            i as int,
                        ));
                    }
                    i = i + 1;
                }
                s.append("}");
                proof {
                    assert(text_of_block_lines(vs, n as int) =~= Seq::<char>::empty());
                    assert(s@ =~= text_of_set(self@));
                }
                s
            },
            SetNode::Statement(st) => {
                let s = st.to_text();
                proof {
                    assert(s@ =~= text_of_set(self@));
                }
                s
            },
        }
    }
}

impl Workout {
    /// The workout's text: one line per top-level set.
    #[verifier::loop_isolation(false)]
    pub fn to_text(&self) -> (r: String)
        ensures
            r@ == text_of_workout(self@),
    {
        let mut s = String::new();
        proof {
            reveal_strlit("\n");
            lemma_set_seq_view(self.sets@);
        }
        let ghost vs = set_seq_view(self.sets@);
        let n = self.sets.len();
        let mut i: usize = 0;
        proof {
            assert(s@ + text_of_workout_lines(vs, 0) =~= text_of_workout_lines(vs, 0));
        }
        while i < n
            invariant
                n == self.sets@.len(),
                vs == set_seq_view(self.sets@),
                vs.len() == n,
                forall|j: int| 0 <= j < n ==> vs[j] == set_node_view(self.sets@[j]),
                0 <= i <= n,
                s@ + text_of_workout_lines(vs, i as int) == text_of_workout_lines(vs, 0),
            decreases n - i,
        {
            let ghost prev = s@;
            let line = self.sets[i].to_text();
            s.append(line.as_str());
            s.append("\n");
            proof {
                assert(s@ =~= prev + text_of_set(vs[i as int]) + seq!['\n']);
                assert(s@ + text_of_workout_lines(vs, i + 1) =~= prev + text_of_workout_lines(
                    vs,
                    i as int,
                ));
            }
            i = i + 1;
        }
        proof {
            assert(text_of_workout_lines(vs, n as int) =~= Seq::<char>::empty());
            assert(s@ =~= text_of_workout(self@));
        }
        s
    }
}

} // verus!
