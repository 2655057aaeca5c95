//! The analyzer: two pure recursive folds over the abstract syntax tree,
//! computing the total distance in meters and the distribution of meters per
//! stroke name, scaling by repetition counts at every nesting level.

use vstd::prelude::*;

use crate::ast::{
    lemma_set_seq_view, set_node_view, set_seq_view, DistanceUnit, SetNode, SetNodeV, Statement,
    StatementV, Workout, WorkoutV,
};
use crate::distribution::StrokeDistribution;

verus! {

broadcast use vstd::set::group_set_axioms, vstd::map::group_map_axioms;

/// Meters of one statement: kilometers scale by 1000, meters are unchanged.
pub open spec fn statement_meters(st: StatementV) -> nat {
    match st.distance.unit {
        DistanceUnit::Meters => st.distance.value as nat,
        DistanceUnit::Kilometers => st.distance.value as nat * 1000,
    }
}

/// Total distance of one set in meters: a statement converts to meters, a
/// block sums its children, and a repetition multiplies the child's total by
/// its count.
pub open spec fn set_total(s: SetNodeV) -> nat
    decreases s,
{
    match s {
        SetNodeV::Repetition { count, set } => count as nat * set_total(*set),
        SetNodeV::Block { sets } => seq_total(sets),
        SetNodeV::Statement(st) => statement_meters(st),
    }
}

/// Sum of the totals of a sequence of sets.
pub open spec fn seq_total(sets: Seq<SetNodeV>) -> nat
    decreases sets,
{
    if sets.len() == 0 {
        0
    } else {
        seq_total(sets.drop_last()) + set_total(sets.last())
    }
}

/// Total distance of a workout: the sum over its top-level sets.
pub open spec fn workout_total(w: WorkoutV) -> nat {
    seq_total(w.sets)
}

/// Pointwise sum of two distributions: the domain is the union, and a value
/// is the sum of the values present (an absent key counts as zero).
pub open spec fn merge_dist(a: Map<Seq<char>, nat>, b: Map<Seq<char>, nat>) -> Map<
    Seq<char>,
    nat,
> {
    Map::new(
        |k: Seq<char>| a.dom().contains(k) || b.dom().contains(k),
        |k: Seq<char>|
            (if a.dom().contains(k) {
                a[k]
            } else {
                0
            }) + (if b.dom().contains(k) {
                b[k]
            } else {
                0
            }),
    )
}

/// Every value multiplied by `c`; the domain is unchanged, so a zero count
/// keeps every stroke name, each with value zero.
pub open spec fn scale_dist(c: nat, m: Map<Seq<char>, nat>) -> Map<Seq<char>, nat> {
    m.map_values(|v: nat| c * v)
}

/// Stroke distribution of one set: a statement yields a singleton, a block
/// merges its children, and a repetition scales the child's distribution by
/// its count.
pub open spec fn set_dist(s: SetNodeV) -> Map<Seq<char>, nat>
    decreases s,
{
    match s {
        SetNodeV::Repetition { count, set } => scale_dist(count as nat, set_dist(*set)),
        SetNodeV::Block { sets } => seq_dist(sets),
        SetNodeV::Statement(st) => Map::empty().insert(st.stroke.name, statement_meters(st)),
    }
}

/// Merged stroke distributions of a sequence of sets.
pub open spec fn seq_dist(sets: Seq<SetNodeV>) -> Map<Seq<char>, nat>
    decreases sets,
{
    if sets.len() == 0 {
        Map::<Seq<char>, nat>::empty()
    } else {
        merge_dist(seq_dist(sets.drop_last()), set_dist(sets.last()))
    }
}

/// Stroke distribution of a workout: its top-level sets merged.
pub open spec fn workout_dist(w: WorkoutV) -> Map<Seq<char>, nat> {
    seq_dist(w.sets)
}

/// Every total in the subtree fits a `u32`, so the executable folds cannot
/// overflow. This is the machine-limit precondition of the analyzer.
pub open spec fn total_fits(s: SetNodeV) -> bool
    decreases s,
{
    match s {
        SetNodeV::Repetition { count, set } => total_fits(*set) && count as nat * set_total(*set)
            <= u32::MAX,
        SetNodeV::Block { sets } => seq_fits(sets) && seq_total(sets) <= u32::MAX,
        SetNodeV::Statement(st) => statement_meters(st) <= u32::MAX,
    }
}

/// Every total in every subtree of the sequence fits a `u32`.
pub open spec fn seq_fits(sets: Seq<SetNodeV>) -> bool
    decreases sets,
{
    if sets.len() == 0 {
        true
    } else {
        seq_fits(sets.drop_last()) && total_fits(sets.last())
    }
}

/// Sum of the values of a finite map.
pub open spec fn map_sum<K>(m: Map<K, nat>) -> nat
    decreases m.dom().len() when m.dom().finite()
{
    if m.dom().finite() && m.dom().len() > 0 {
        let k = m.dom().choose();
        m[k] + map_sum(m.remove(k))
    } else {
        0
    }
}

/// Splitting off any one key: the sum is the key's value plus the sum of the
/// rest.
pub proof fn lemma_map_sum_remove<K>(m: Map<K, nat>, k: K)
    requires
        m.dom().finite(),
        m.dom().contains(k),
    ensures
        map_sum(m) == m[k] + map_sum(m.remove(k)),
    decreases m.dom().len(),
{
    let c = m.dom().choose();
    if c == k {
    } else {
        let m1 = m.remove(c);
        let m2 = m.remove(k);
        lemma_map_sum_remove(m1, k);
        lemma_map_sum_remove(m2, c);
        assert(m1.remove(k) =~= m2.remove(c));
    }
}

/// Inserting a fresh key adds its value to the sum.
pub proof fn lemma_map_sum_insert<K>(m: Map<K, nat>, k: K, v: nat)
    requires
        m.dom().finite(),
        !m.dom().contains(k),
    ensures
        map_sum(m.insert(k, v)) == map_sum(m) + v,
{
    let mi = m.insert(k, v);
    lemma_map_sum_remove(mi, k);
    assert(mi.remove(k) =~= m);
}

/// No single value exceeds the sum.
pub proof fn lemma_map_sum_bound<K>(m: Map<K, nat>, k: K)
    requires
        m.dom().finite(),
        m.dom().contains(k),
    ensures
        m[k] <= map_sum(m),
{
    lemma_map_sum_remove(m, k);
}

/// The sum of a pointwise merge is the sum of the two sums.
pub proof fn lemma_map_sum_merge(a: Map<Seq<char>, nat>, b: Map<Seq<char>, nat>)
    requires
        a.dom().finite(),
        b.dom().finite(),
    ensures
        map_sum(merge_dist(a, b)) == map_sum(a) + map_sum(b),
    decreases b.dom().len(),
{
    if b.dom().len() == 0 {
        assert(b.dom() =~= Set::empty());
        assert(merge_dist(a, b) =~= a);
    } else {
        let k = b.dom().choose();
        let bv = b[k];
        let b1 = b.remove(k);
        let av: nat = if a.dom().contains(k) {
            a[k]
        } else {
            0
        };
        let a2 = a.insert(k, av + bv);
        assert(merge_dist(a, b) =~= merge_dist(a2, b1));
        lemma_map_sum_merge(a2, b1);
        if a.dom().contains(k) {
            lemma_map_sum_remove(a, k);
            lemma_map_sum_insert(a.remove(k), k, av + bv);
            assert(a.remove(k).insert(k, av + bv) =~= a2);
        } else {
            lemma_map_sum_insert(a, k, av + bv);
        }
        lemma_map_sum_remove(b, k);
    }
}

/// The sum of a scaled distribution is the scaled sum.
pub proof fn lemma_map_sum_scale(c: nat, m: Map<Seq<char>, nat>)
    requires
        m.dom().finite(),
    ensures
        map_sum(scale_dist(c, m)) == c * map_sum(m),
    decreases m.dom().len(),
{
    let sm = scale_dist(c, m);
    assert(sm.dom() =~= m.dom());
    if m.dom().len() == 0 {
        assert(m.dom() =~= Set::empty());
        assert(map_sum(sm) == 0);
        assert(map_sum(m) == 0);
    } else {
        let k = m.dom().choose();
        lemma_map_sum_remove(m, k);
        lemma_map_sum_remove(sm, k);
        assert(sm[k] == c * m[k]);
        assert(sm.remove(k) =~= scale_dist(c, m.remove(k)));
        assert(m.remove(k).dom().finite());
        lemma_map_sum_scale(c, m.remove(k));
        assert(map_sum(sm.remove(k)) == c * map_sum(m.remove(k)));
        assert(map_sum(sm) == c * m[k] + c * map_sum(m.remove(k)));
        assert(map_sum(m) == m[k] + map_sum(m.remove(k)));
        assert(c * m[k] + c * map_sum(m.remove(k)) == c * (m[k] + map_sum(m.remove(k))))
            by (nonlinear_arith);
        assert(map_sum(sm) == c * map_sum(m));
    }
}

/// The domain of a set's distribution is finite.
pub proof fn lemma_set_dist_finite(s: SetNodeV)
    ensures
        set_dist(s).dom().finite(),
    decreases s,
{
    match s {
        SetNodeV::Repetition { count, set } => {
            lemma_set_dist_finite(*set);
            assert(set_dist(s).dom() =~= set_dist(*set).dom());
        },
        SetNodeV::Block { sets } => {
            lemma_seq_dist_finite(sets);
        },
        SetNodeV::Statement(st) => {
        },
    }
}

/// The domain of a sequence's merged distribution is finite.
pub proof fn lemma_seq_dist_finite(sets: Seq<SetNodeV>)
    ensures
        seq_dist(sets).dom().finite(),
    decreases sets,
{
    if sets.len() > 0 {
        lemma_seq_dist_finite(sets.drop_last());
        lemma_set_dist_finite(sets.last());
        assert(seq_dist(sets).dom() =~= seq_dist(sets.drop_last()).dom() + set_dist(
            sets.last(),
        ).dom());
    }
}

/// Total distance is additive over concatenation of set sequences.
pub proof fn lemma_seq_total_concat(a: Seq<SetNodeV>, b: Seq<SetNodeV>)
    ensures
        seq_total(a + b) == seq_total(a) + seq_total(b),
    decreases b,
{
    if b.len() == 0 {
        assert(a + b =~= a);
    } else {
        assert((a + b).drop_last() =~= a + b.drop_last());
        assert((a + b).last() == b.last());
        lemma_seq_total_concat(a, b.drop_last());
    }
}

/// Extending a prefix by one element adds that element's total.
pub proof fn lemma_seq_total_prefix_step(s: Seq<SetNodeV>, i: int)
    requires
        0 <= i < s.len(),
    ensures
        seq_total(s.subrange(0, i + 1)) == seq_total(s.subrange(0, i)) + set_total(s[i]),
{
    assert(s.subrange(0, i + 1).drop_last() =~= s.subrange(0, i));
    assert(s.subrange(0, i + 1).last() == s[i]);
}

/// A prefix's total never exceeds the whole sequence's total.
pub proof fn lemma_seq_total_prefix_bound(s: Seq<SetNodeV>, i: int)
    requires
        0 <= i <= s.len(),
    ensures
        seq_total(s.subrange(0, i)) <= seq_total(s),
{
    assert(s =~= s.subrange(0, i) + s.subrange(i, s.len() as int));
    lemma_seq_total_concat(s.subrange(0, i), s.subrange(i, s.len() as int));
}

/// Extending a prefix by one element merges that element's distribution.
pub proof fn lemma_seq_dist_prefix_step(s: Seq<SetNodeV>, i: int)
    requires
        0 <= i < s.len(),
    ensures
        seq_dist(s.subrange(0, i + 1)) == merge_dist(seq_dist(s.subrange(0, i)), set_dist(s[i])),
{
    assert(s.subrange(0, i + 1).drop_last() =~= s.subrange(0, i));
    assert(s.subrange(0, i + 1).last() == s[i]);
}

/// Every element of a fitting sequence fits.
pub proof fn lemma_seq_fits_index(s: Seq<SetNodeV>, i: int)
    requires
        seq_fits(s),
        0 <= i < s.len(),
    ensures
        total_fits(s[i]),
    decreases s,
{
    if i < s.len() - 1 {
        lemma_seq_fits_index(s.drop_last(), i);
        assert(s.drop_last()[i] == s[i]);
    }
}

/// The values of a set's stroke distribution sum to exactly the set's total
/// distance.
pub proof fn law_distribution_sums_to_total(s: SetNodeV)
    ensures
        map_sum(set_dist(s)) == set_total(s),
    decreases s,
{
    match s {
        SetNodeV::Repetition { count, set } => {
            law_distribution_sums_to_total(*set);
            lemma_set_dist_finite(*set);
            lemma_map_sum_scale(count as nat, set_dist(*set));
        },
        SetNodeV::Block { sets } => {
            lemma_seq_distribution_sums_to_total(sets);
        },
        SetNodeV::Statement(st) => {
            lemma_map_sum_insert(
                Map::<Seq<char>, nat>::empty(),
                st.stroke.name,
                statement_meters(st),
            );
        },
    }
}

/// The values of a sequence's merged distribution sum to the sequence's
/// total distance.
pub proof fn lemma_seq_distribution_sums_to_total(sets: Seq<SetNodeV>)
    ensures
        map_sum(seq_dist(sets)) == seq_total(sets),
    decreases sets,
{
    if sets.len() > 0 {
        lemma_seq_distribution_sums_to_total(sets.drop_last());
        law_distribution_sums_to_total(sets.last());
        lemma_seq_dist_finite(sets.drop_last());
        lemma_set_dist_finite(sets.last());
        lemma_map_sum_merge(seq_dist(sets.drop_last()), set_dist(sets.last()));
    }
}

/// The values of a workout's stroke distribution sum to exactly its total
/// distance.
pub proof fn law_workout_distribution_sums_to_total(w: WorkoutV)
    ensures
        map_sum(workout_dist(w)) == workout_total(w),
{
    lemma_seq_distribution_sums_to_total(w.sets);
}

/// Total distance is multiplicative over a repetition, for every count,
/// including zero.
pub proof fn law_repetition_multiplies_total(count: u32, s: SetNodeV)
    ensures
        set_total(SetNodeV::Repetition { count, set: Box::new(s) }) == count as nat * set_total(s),
{
}

/// Total distance is additive over a block's children: splitting the
/// children anywhere splits the total.
pub proof fn law_block_total_additive(a: Seq<SetNodeV>, b: Seq<SetNodeV>)
    ensures
        set_total(SetNodeV::Block { sets: a + b }) == set_total(SetNodeV::Block { sets: a })
            + set_total(SetNodeV::Block { sets: b }),
{
    lemma_seq_total_concat(a, b);
}

/// A statement in kilometers contributes exactly a thousandfold of its value
/// to the total distance and to its stroke's distribution entry.
pub proof fn law_kilometers_scale(st: StatementV)
    requires
        st.distance.unit is Kilometers,
    ensures
        set_total(SetNodeV::Statement(st)) == 1000 * st.distance.value,
        set_dist(SetNodeV::Statement(st))[st.stroke.name] == 1000 * st.distance.value,
        set_dist(SetNodeV::Statement(st)).dom() =~= Set::empty().insert(st.stroke.name),
{
    assert(st.distance.value as nat * 1000 == 1000 * st.distance.value);
}

/// A zero-count repetition contributes no distance, and its distribution
/// keeps every stroke name of the child, each with value zero.
pub proof fn law_zero_repetition(s: SetNodeV)
    ensures
        set_total(SetNodeV::Repetition { count: 0, set: Box::new(s) }) == 0,
        set_dist(SetNodeV::Repetition { count: 0, set: Box::new(s) }).dom() == set_dist(s).dom(),
        forall|k: Seq<char>|
            set_dist(s).dom().contains(k) ==> set_dist(
                SetNodeV::Repetition { count: 0, set: Box::new(s) },
            )[k] == 0,
{
    let r = SetNodeV::Repetition { count: 0, set: Box::new(s) };
    assert(set_dist(r).dom() =~= set_dist(s).dom());
}

/// The analyzer: pure read-only folds over a node.
pub trait Analyse {
    /// The node's total distance in meters, mathematically.
    spec fn spec_total_distance(&self) -> nat;

    /// The node's stroke distribution, mathematically.
    spec fn spec_stroke_distribution(&self) -> Map<Seq<char>, nat>;

    /// Every total in the node fits a `u32`, so the folds cannot overflow.
    spec fn distances_fit(&self) -> bool;

    /// The total distance in meters.
    fn total_distance(&self) -> (r: u32)
        requires
            self.distances_fit(),
        ensures
            r as nat == self.spec_total_distance(),
    ;

    /// The distribution of meters per stroke name.
    fn stroke_distribution(&self) -> (r: StrokeDistribution)
        requires
            self.distances_fit(),
        ensures
            r.wf(),
            r@ == self.spec_stroke_distribution(),
    ;
}

/// Meters of one statement.
fn statement_total_exec(st: &Statement) -> (r: u32)
    requires
        statement_meters(st@) <= u32::MAX,
    ensures
        r as nat == statement_meters(st@),
{
    match st.distance.unit {
        DistanceUnit::Meters => st.distance.value,
        DistanceUnit::Kilometers => st.distance.value * 1000,
    }
}

/// Total distance of one set node, recursively.
fn set_total_exec(s: &SetNode) -> (r: u32)
    requires
        total_fits(s@),
    ensures
        r as nat == set_total(s@),
    decreases *s, 0int,
{
    match s {
        SetNode::Repetition { count, set } => {
            let inner = set_total_exec(&**set);
            *count * inner
        },
        SetNode::Block { sets } => seq_total_exec(sets),
        SetNode::Statement(st) => statement_total_exec(st),
    }
}

/// Summed total distance of a vector of set nodes.
#[verifier::loop_isolation(false)]
fn seq_total_exec(sets: &Vec<SetNode>) -> (r: u32)
    requires
        seq_fits(set_seq_view(sets@)),
        seq_total(set_seq_view(sets@)) <= u32::MAX,
    ensures
        r as nat == seq_total(set_seq_view(sets@)),
    decreases sets@, 1int,
{
    let ghost vs = set_seq_view(sets@);
    proof {
        lemma_set_seq_view(sets@);
    }
    let n = sets.len();
    let mut total: u32 = 0;
    let mut i: usize = 0;
    while i < n
        invariant
            n == sets@.len(),
            vs == set_seq_view(sets@),
            vs.len() == sets@.len(),
            forall|j: int| 0 <= j < sets@.len() ==> vs[j] == set_node_view(sets@[j]),
            seq_fits(vs),
            seq_total(vs) <= u32::MAX,
            0 <= i <= n,
            total as nat == seq_total(vs.subrange(0, i as int)),
        decreases n - i,
    {
        proof {
            lemma_seq_fits_index(vs, i as int);
            lemma_seq_total_prefix_step(vs, i as int);
            lemma_seq_total_prefix_bound(vs, i as int + 1);
        }
        let v = set_total_exec(&sets[i]);
        total = total + v;
        i = i + 1;
    }
    proof {
        assert(vs.subrange(0, n as int) =~= vs);
    }
    total
}

impl Analyse for Statement {
    open spec fn spec_total_distance(&self) -> nat {
        statement_meters(self@)
    }

    open spec fn spec_stroke_distribution(&self) -> Map<Seq<char>, nat> {
        set_dist(SetNodeV::Statement(self@))
    }

    open spec fn distances_fit(&self) -> bool {
        statement_meters(self@) <= u32::MAX
    }

    fn total_distance(&self) -> (r: u32) {
        statement_total_exec(self)
    }

    fn stroke_distribution(&self) -> (r: StrokeDistribution) {
        let meters = statement_total_exec(self);
        let mut d = StrokeDistribution::new();
        d.insert_add(&self.stroke.name, meters);
        proof {
            assert(d@ =~= set_dist(SetNodeV::Statement(self@)));
        }
        d
    }
}

impl Analyse for SetNode {
    open spec fn spec_total_distance(&self) -> nat {
        set_total(self@)
    }

    open spec fn spec_stroke_distribution(&self) -> Map<Seq<char>, nat> {
        set_dist(self@)
    }

    open spec fn distances_fit(&self) -> bool {
        total_fits(self@)
    }

    fn total_distance(&self) -> (r: u32) {
        set_total_exec(self)
    }

    fn stroke_distribution(&self) -> (r: StrokeDistribution) {
        set_dist_exec(self)
    }
}

impl Analyse for Workout {
    open spec fn spec_total_distance(&self) -> nat {
        workout_total(self@)
    }

    open spec fn spec_stroke_distribution(&self) -> Map<Seq<char>, nat> {
        workout_dist(self@)
    }

    open spec fn distances_fit(&self) -> bool {
        seq_fits(set_seq_view(self.sets@)) && seq_total(set_seq_view(self.sets@)) <= u32::MAX
    }

    fn total_distance(&self) -> (r: u32) {
        seq_total_exec(&self.sets)
    }

    fn stroke_distribution(&self) -> (r: StrokeDistribution) {
        seq_dist_exec(&self.sets)
    }
}

/// Total distance of one set node with checked arithmetic: nothing exactly
/// when some total in the subtree does not fit a `u32`.
fn set_total_checked(s: &SetNode) -> (r: Option<u32>)
    ensures
        match r {
            Some(v) => total_fits(s@) && v as nat == set_total(s@),
            None => !total_fits(s@),
        },
    decreases *s, 0int,
{
    match s {
        SetNode::Repetition { count, set } => {
            match set_total_checked(&**set) {
                Some(inner) => count.checked_mul(inner),
                None => None,
            }
        },
        SetNode::Block { sets } => seq_total_checked(sets),
        SetNode::Statement(st) => {
            match st.distance.unit {
                DistanceUnit::Meters => Some(st.distance.value),
                DistanceUnit::Kilometers => st.distance.value.checked_mul(1000),
            }
        },
    }
}

/// Summed total distance of a vector of set nodes with checked arithmetic.
#[verifier::loop_isolation(false)]
fn seq_total_checked(sets: &Vec<SetNode>) -> (r: Option<u32>)
    ensures
        match r {
            Some(v) => seq_fits(set_seq_view(sets@)) && seq_total(set_seq_view(sets@)) <= u32::MAX
                && v as nat == seq_total(set_seq_view(sets@)),
            None => !(seq_fits(set_seq_view(sets@)) && seq_total(set_seq_view(sets@))
                <= u32::MAX),
        },
    decreases sets@, 1int,
{
    let ghost vs = set_seq_view(sets@);
    proof {
        lemma_set_seq_view(sets@);
    }
    let n = sets.len();
    let mut total: u32 = 0;
    let mut i: usize = 0;
    while i < n
        invariant
            n == sets@.len(),
            vs == set_seq_view(sets@),
            vs.len() == sets@.len(),
            forall|j: int| 0 <= j < sets@.len() ==> vs[j] == set_node_view(sets@[j]),
            0 <= i <= n,
            seq_fits(vs.subrange(0, i as int)),
            total as nat == seq_total(vs.subrange(0, i as int)),
        decreases n - i,
    {
        let v = match set_total_checked(&sets[i]) {
            Some(v) => v,
            None => {
                proof {
                    lemma_seq_fits_all(vs, i as int);
                }
                return None;
            },
        };
        proof {
            lemma_seq_total_prefix_step(vs, i as int);
            lemma_seq_fits_prefix_step(vs, i as int);
        }
        total = match total.checked_add(v) {
            Some(t) => t,
            None => {
                proof {
                    lemma_seq_total_prefix_bound(vs, i as int + 1);
                }
                return None;
            },
        };
        i = i + 1;
    }
    proof {
        assert(vs.subrange(0, n as int) =~= vs);
    }
    Some(total)
}

/// A sequence with an unfitting element does not fit.
proof fn lemma_seq_fits_all(s: Seq<SetNodeV>, i: int)
    requires
        0 <= i < s.len(),
        !total_fits(s[i]),
    ensures
        !seq_fits(s),
    decreases s,
{
    if seq_fits(s) {
        lemma_seq_fits_index(s, i);
    }
}

/// Extending a fitting prefix by a fitting element keeps it fitting.
proof fn lemma_seq_fits_prefix_step(s: Seq<SetNodeV>, i: int)
    requires
        0 <= i < s.len(),
        seq_fits(s.subrange(0, i)),
        total_fits(s[i]),
    ensures
        seq_fits(s.subrange(0, i + 1)),
{
    assert(s.subrange(0, i + 1).drop_last() =~= s.subrange(0, i));
    assert(s.subrange(0, i + 1).last() == s[i]);
}

impl Workout {
    /// The total distance in meters, or nothing when some total in the
    /// workout does not fit a `u32`.
    pub fn try_total_distance(&self) -> (r: Option<u32>)
        ensures
            match r {
                Some(v) => self.distances_fit() && v as nat == self.spec_total_distance(),
                None => !self.distances_fit(),
            },
    {
        seq_total_checked(&self.sets)
    }

    /// The stroke distribution, or nothing when some total in the workout
    /// does not fit a `u32`.
    pub fn try_stroke_distribution(&self) -> (r: Option<StrokeDistribution>)
        ensures
            match r {
                Some(d) => self.distances_fit() && d.wf() && d@ == self.spec_stroke_distribution(),
                None => !self.distances_fit(),
            },
    {
        match self.try_total_distance() {
            Some(_) => Some(self.stroke_distribution()),
            None => None,
        }
    }
}

/// Stroke distribution of one set node, recursively.
fn set_dist_exec(s: &SetNode) -> (r: StrokeDistribution)
    requires
        total_fits(s@),
    ensures
        r.wf(),
        r@ == set_dist(s@),
    decreases *s, 0int,
{
    match s {
        SetNode::Repetition { count, set } => {
            let mut d = set_dist_exec(&**set);
            let ghost child = set_node_view(**set);
            proof {
                lemma_set_dist_finite(child);
                law_distribution_sums_to_total(child);
                assert forall|k: Seq<char>| d@.dom().contains(k) implies (*count) as nat * d@[k]
                    <= u32::MAX by {
                    lemma_map_sum_bound(set_dist(child), k);
                    assert((*count) as nat * set_dist(child)[k] <= (*count) as nat * set_total(
                        child,
                    )) by (nonlinear_arith)
                        requires
                            set_dist(child)[k] <= set_total(child),
                    ;
                }
            }
            d.scale_all(*count);
            proof {
                assert(d@ =~= scale_dist((*count) as nat, set_dist(child)));
            }
            d
        },
        SetNode::Block { sets } => seq_dist_exec(sets),
        SetNode::Statement(st) => st.stroke_distribution(),
    }
}

/// Merged stroke distribution of a vector of set nodes.
#[verifier::loop_isolation(false)]
fn seq_dist_exec(sets: &Vec<SetNode>) -> (r: StrokeDistribution)
    requires
        seq_fits(set_seq_view(sets@)),
        seq_total(set_seq_view(sets@)) <= u32::MAX,
    ensures
        r.wf(),
        r@ == seq_dist(set_seq_view(sets@)),
    decreases sets@, 1int,
{
    let ghost vs = set_seq_view(sets@);
    proof {
        lemma_set_seq_view(sets@);
    }
    let n = sets.len();
    let mut d = StrokeDistribution::new();
    let mut i: usize = 0;
    while i < n
        invariant
            n == sets@.len(),
            vs == set_seq_view(sets@),
            vs.len() == sets@.len(),
            forall|j: int| 0 <= j < sets@.len() ==> vs[j] == set_node_view(sets@[j]),
            seq_fits(vs),
            seq_total(vs) <= u32::MAX,
            0 <= i <= n,
            d.wf(),
            d@ == seq_dist(vs.subrange(0, i as int)),
        decreases n - i,
    {
        proof {
            lemma_seq_fits_index(vs, i as int);
        }
        let c = set_dist_exec(&sets[i]);
        proof {
            let pre = seq_dist(vs.subrange(0, i as int));
            let cur = set_dist(vs[i as int]);
            lemma_seq_dist_prefix_step(vs, i as int);
            lemma_seq_dist_finite(vs.subrange(0, i as int));
            lemma_seq_dist_finite(vs.subrange(0, i as int + 1));
            lemma_set_dist_finite(vs[i as int]);
            lemma_map_sum_merge(pre, cur);
            lemma_seq_distribution_sums_to_total(vs.subrange(0, i as int + 1));
            lemma_seq_total_prefix_bound(vs, i as int + 1);
            assert forall|k: Seq<char>| #[trigger] cur.dom().contains(k) implies (if d@
                .dom().contains(k) {
                d@[k]
            } else {
                0
            }) + cur[k] <= u32::MAX by {
                let merged = merge_dist(pre, cur);
                assert(merged.dom().contains(k));
                lemma_map_sum_bound(merged, k);
            }
        }
        d.merge_from(&c);
        proof {
            assert(d@ =~= merge_dist(seq_dist(vs.subrange(0, i as int)), set_dist(
                vs[i as int],
            )));
        }
        i = i + 1;
    }
    proof {
        assert(vs.subrange(0, n as int) =~= vs);
    }
    d
}

} // verus!
