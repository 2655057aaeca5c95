//! A finite mapping from stroke name to accumulated meters, kept as a vector
//! of entries with pairwise distinct keys. Its model is a `Map` from the
//! stroke name's characters to a mathematical number of meters.

use vstd::prelude::*;

verus! {

broadcast use vstd::set::group_set_axioms, vstd::map::group_map_axioms;

/// The map that a sequence of entries stands for; a later entry overrides an
/// earlier one with the same key (with distinct keys, each entry is final).
pub open spec fn entries_map(s: Seq<(String, u32)>) -> Map<Seq<char>, nat>
    decreases s,
{
    if s.len() == 0 {
        Map::empty()
    } else {
        entries_map(s.drop_last()).insert(s.last().0@, s.last().1 as nat)
    }
}

/// The entry keys are pairwise distinct.
pub open spec fn entries_unique(s: Seq<(String, u32)>) -> bool {
    forall|i: int, j: int| 0 <= i < j < s.len() ==> s[i].0@ != s[j].0@
}

/// The effect on the model of adding `v` meters under key `k`: the key's
/// value grows by `v`, an absent key starts at zero.
pub open spec fn add_entry(m: Map<Seq<char>, nat>, k: Seq<char>, v: nat) -> Map<Seq<char>, nat> {
    m.insert(k, (if m.dom().contains(k) { m[k] } else { 0 }) + v)
}

/// A mapping from stroke name to accumulated meters.
#[derive(Debug)]
pub struct StrokeDistribution {
    entries: Vec<(String, u32)>,
}

impl View for StrokeDistribution {
    type V = Map<Seq<char>, nat>;

    closed spec fn view(&self) -> Map<Seq<char>, nat> {
        entries_map(self.entries@)
    }
}

/// With distinct keys, the model's domain is exactly the set of keys, and the
/// model's value at each key is that entry's value.
proof fn lemma_entries_map_props(s: Seq<(String, u32)>)
    requires
        entries_unique(s),
    ensures
        entries_map(s).dom().finite(),
        forall|k: Seq<char>|
            entries_map(s).dom().contains(k) <==> (exists|i: int|
                0 <= i < s.len() && #[trigger] s[i].0@ == k),
        forall|i: int|
            0 <= i < s.len() ==> entries_map(s)[#[trigger] s[i].0@] == s[i].1 as nat,
    decreases s,
{
    if s.len() > 0 {
        let d = s.drop_last();
        lemma_entries_map_props(d);
        assert forall|k: Seq<char>| entries_map(s).dom().contains(k) implies (exists|i: int|
            0 <= i < s.len() && #[trigger] s[i].0@ == k) by {
            if k == s.last().0@ {
                assert(s[s.len() - 1].0@ == k);
            } else {
                let i = choose|i: int| 0 <= i < d.len() && #[trigger] d[i].0@ == k;
                assert(s[i].0@ == k);
            }
        }
        assert forall|k: Seq<char>| (exists|i: int| 0 <= i < s.len() && #[trigger] s[i].0@ == k)
            implies entries_map(s).dom().contains(k) by {
            let i = choose|i: int| 0 <= i < s.len() && #[trigger] s[i].0@ == k;
            if i < s.len() - 1 {
                assert(d[i].0@ == k);
            }
        }
        assert forall|i: int|
            0 <= i < s.len() implies entries_map(s)[#[trigger] s[i].0@] == s[i].1 as nat by {
            if i < s.len() - 1 {
                assert(d[i].0@ == s[i].0@);
                assert(s[i].0@ != s.last().0@);
            }
        }
    }
}

/// Updating the entry at `i` with an equal key updates the model at that key.
proof fn lemma_entries_map_update(s: Seq<(String, u32)>, i: int, p: (String, u32))
    requires
        entries_unique(s),
        0 <= i < s.len(),
        p.0@ == s[i].0@,
    ensures
        entries_map(s.update(i, p)) == entries_map(s).insert(p.0@, p.1 as nat),
        entries_unique(s.update(i, p)),
    decreases s,
{
    let su = s.update(i, p);
    assert(entries_unique(su));
    if i == s.len() - 1 {
        assert(su.drop_last() =~= s.drop_last());
        assert(su.last() == p);
        assert(entries_map(s).insert(p.0@, p.1 as nat) =~= entries_map(s.drop_last()).insert(
            p.0@,
            p.1 as nat,
        ));
    } else {
        assert(su.drop_last() =~= s.drop_last().update(i, p));
        assert(su.last() == s.last());
        lemma_entries_map_update(s.drop_last(), i, p);
        // Inserting at two distinct keys commutes.
        assert(p.0@ != s.last().0@);
        assert(entries_map(s.drop_last()).insert(p.0@, p.1 as nat).insert(
            s.last().0@,
            s.last().1 as nat,
        ) =~= entries_map(s).insert(p.0@, p.1 as nat));
    }
}

/// Entries with equal keys and values scaled by `c` stand for the map with
/// the same domain and values scaled by `c`.
proof fn lemma_entries_map_scaled(s: Seq<(String, u32)>, t: Seq<(String, u32)>, c: nat)
    requires
        entries_unique(s),
        t.len() == s.len(),
        forall|j: int| 0 <= j < s.len() ==> #[trigger] t[j].0 == s[j].0,
        forall|j: int| 0 <= j < s.len() ==> #[trigger] t[j].1 as nat == c * (s[j].1 as nat),
    ensures
        entries_unique(t),
        entries_map(t).dom() == entries_map(s).dom(),
        forall|k: Seq<char>|
            entries_map(s).dom().contains(k) ==> #[trigger] entries_map(t)[k] == c * entries_map(
                s,
            )[k],
{
    assert forall|i: int, j: int| 0 <= i < j < t.len() implies t[i].0@ != t[j].0@ by {
        assert(t[i].0 == s[i].0);
        assert(t[j].0 == s[j].0);
    }
    assert(entries_unique(t));
    lemma_entries_map_props(s);
    lemma_entries_map_props(t);
    assert forall|k: Seq<char>| entries_map(t).dom().contains(k) implies entries_map(
        s,
    ).dom().contains(k) by {
        let i = choose|i: int| 0 <= i < t.len() && #[trigger] t[i].0@ == k;
        assert(t[i].0 == s[i].0);
        assert(s[i].0@ == k);
    }
    assert forall|k: Seq<char>| entries_map(s).dom().contains(k) implies entries_map(
        t,
    ).dom().contains(k) by {
        let i = choose|i: int| 0 <= i < s.len() && #[trigger] s[i].0@ == k;
        assert(t[i].0 == s[i].0);
        assert(t[i].0@ == k);
    }
    assert(entries_map(t).dom() =~= entries_map(s).dom());
    assert forall|k: Seq<char>| entries_map(s).dom().contains(k) implies #[trigger] entries_map(
        t,
    )[k] == c * entries_map(s)[k] by {
        let i = choose|i: int| 0 <= i < s.len() && #[trigger] s[i].0@ == k;
        assert(t[i].0@ == k);
        assert(entries_map(t)[k] == t[i].1 as nat);
        assert(entries_map(s)[k] == s[i].1 as nat);
    }
}

impl StrokeDistribution {
    /// The keys of the stored entries are pairwise distinct.
    pub closed spec fn wf(&self) -> bool {
        entries_unique(self.entries@)
    }

    /// An empty distribution.
    pub fn new() -> (r: Self)
        ensures
            r.wf(),
            r@ == Map::<Seq<char>, nat>::empty(),
    {
        StrokeDistribution { entries: Vec::new() }
    }

    /// The meters accumulated for the given stroke name, if the name is
    /// present.
    #[verifier::loop_isolation(false)]
    pub fn get(&self, name: &str) -> (r: Option<u32>)
        requires
            self.wf(),
        ensures
            match r {
                Some(v) => self@.dom().contains(name@) && v as nat == self@[name@],
                None => !self@.dom().contains(name@),
            },
    {
        proof {
            lemma_entries_map_props(self.entries@);
        }
        let key: String = name.to_owned();
        let n = self.entries.len();
        let mut i: usize = 0;
        while i < n
            invariant
                n == self.entries@.len(),
                0 <= i <= n,
                key@ == name@,
                forall|j: int| 0 <= j < i ==> self.entries@[j].0@ != name@,
            decreases n - i,
        {
            if self.entries[i].0 == key {
                proof {
                    lemma_entries_map_props(self.entries@);
                }
                return Some(self.entries[i].1);
            }
            i = i + 1;
        }
        None
    }

    /// Adds `amount` meters under `name`: an existing entry grows, a new name
    /// is appended with `amount`.
    #[verifier::loop_isolation(false)]
    pub fn insert_add(&mut self, name: &String, amount: u32)
        requires
            old(self).wf(),
            (if old(self)@.dom().contains(name@) {
                old(self)@[name@]
            } else {
                0
            }) + amount <= u32::MAX,
        ensures
            final(self).wf(),
            final(self)@ == add_entry(old(self)@, name@, amount as nat),
    {
        proof {
            lemma_entries_map_props(self.entries@);
        }
        let n = self.entries.len();
        let mut i: usize = 0;
        while i < n
            invariant
                self.entries@ == old(self).entries@,
                n == self.entries@.len(),
                0 <= i <= n,
                forall|j: int| 0 <= j < i ==> self.entries@[j].0@ != name@,
            decreases n - i,
        {
            if self.entries[i].0 == *name {
                let cur = self.entries[i].1;
                let ghost olds = self.entries@;
                self.entries[i] = (name.clone(), cur + amount);
                proof {
                    lemma_entries_map_update(olds, i as int, self.entries@[i as int]);
                }
                return ;
            }
            i = i + 1;
        }
        self.entries.push((name.clone(), amount));
        proof {
            assert(self.entries@.drop_last() =~= old(self).entries@);
            assert(!old(self)@.dom().contains(name@));
        }
    }

    /// Multiplies every value by `factor`; the set of names is unchanged.
    #[verifier::loop_isolation(false)]
    pub fn scale_all(&mut self, factor: u32)
        requires
            old(self).wf(),
            forall|k: Seq<char>|
                old(self)@.dom().contains(k) ==> factor as nat * old(self)@[k] <= u32::MAX,
        ensures
            final(self).wf(),
            final(self)@.dom() == old(self)@.dom(),
            forall|k: Seq<char>|
                old(self)@.dom().contains(k) ==> final(self)@[k] == factor as nat * old(self)@[k],
    {
        proof {
            lemma_entries_map_props(self.entries@);
        }
        let n = self.entries.len();
        let mut out: Vec<(String, u32)> = Vec::new();
        let mut i: usize = 0;
        while i < n
            invariant
                n == self.entries@.len(),
                self.entries@ == old(self).entries@,
                entries_unique(self.entries@),
                forall|k: Seq<char>|
                    old(self)@.dom().contains(k) ==> factor as nat * old(self)@[k] <= u32::MAX,
                0 <= i <= n,
                out@.len() == i,
                forall|j: int| 0 <= j < i ==> #[trigger] out@[j].0 == self.entries@[j].0,
                forall|j: int|
                    0 <= j < i ==> #[trigger] out@[j].1 as nat == factor as nat * (
                    self.entries@[j].1 as nat),
            decreases n - i,
        {
            let name_c = self.entries[i].0.clone();
            let v = self.entries[i].1;
            proof {
                lemma_entries_map_props(self.entries@);
                let k = self.entries@[i as int].0@;
                assert(self.entries@[i as int].0@ == k);
                assert(old(self)@.dom().contains(k));
                assert(old(self)@[k] == v as nat);
                assert(factor as nat * old(self)@[k] <= u32::MAX);
            }
            out.push((name_c, factor * v));
            i = i + 1;
        }
        proof {
            lemma_entries_map_scaled(self.entries@, out@, factor as nat);
        }
        self.entries = out;
    }

    /// Adds every entry of `other` into `self`, summing values on shared
    /// names and keeping every name seen in either.
    #[verifier::loop_isolation(false)]
    pub fn merge_from(&mut self, other: &StrokeDistribution)
        requires
            old(self).wf(),
            other.wf(),
            forall|k: Seq<char>|
                #[trigger] other@.dom().contains(k) ==> (if old(self)@.dom().contains(k) {
                    old(self)@[k]
                } else {
                    0
                }) + other@[k] <= u32::MAX,
        ensures
            final(self).wf(),
            forall|k: Seq<char>|
                #[trigger] final(self)@.dom().contains(k) <==> (old(self)@.dom().contains(k)
                    || other@.dom().contains(k)),
            forall|k: Seq<char>|
                final(self)@.dom().contains(k) ==> #[trigger] final(self)@[k] == (if old(self)@.dom().contains(k) {
                    old(self)@[k]
                } else {
                    0
                }) + (if other@.dom().contains(k) {
                    other@[k]
                } else {
                    0
                }),
    {
        proof {
            lemma_entries_map_props(other.entries@);
        }
        let n = other.entries.len();
        let mut i: usize = 0;
        while i < n
            invariant
                n == other.entries@.len(),
                other.wf(),
                self.wf(),
                0 <= i <= n,
                forall|k: Seq<char>|
                    #[trigger] other@.dom().contains(k) ==> (if old(self)@.dom().contains(k) {
                        old(self)@[k]
                    } else {
                        0
                    }) + other@[k] <= u32::MAX,
                forall|k: Seq<char>|
                    #[trigger] self@.dom().contains(k) <==> (old(self)@.dom().contains(k) || (
                    exists|j: int| 0 <= j < i && #[trigger] other.entries@[j].0@ == k)),
                forall|j: int|
                    0 <= j < i ==> self@[#[trigger] other.entries@[j].0@] == (if old(self)@.dom().contains(other.entries@[j].0@) {
                        old(self)@[other.entries@[j].0@]
                    } else {
                        0
                    }) + other.entries@[j].1 as nat,
                forall|k: Seq<char>|
                    old(self)@.dom().contains(k) && !(exists|j: int|
                        0 <= j < i && #[trigger] other.entries@[j].0@ == k) ==> #[trigger] self@[k]
                        == old(self)@[k],
            decreases n - i,
        {
            let ghost k = other.entries@[i as int].0@;
            proof {
                lemma_entries_map_props(other.entries@);
                assert(other@.dom().contains(k));
                assert(other@[k] == other.entries@[i as int].1 as nat);
                // The key is new to the prefix, so its current value is
                // still the one from before the loop.
                assert(!(exists|j: int| 0 <= j < i && #[trigger] other.entries@[j].0@ == k));
            }
            let amount = other.entries[i].1;
            self.insert_add(&other.entries[i].0, amount);
            i = i + 1;
        }
        proof {
            lemma_entries_map_props(other.entries@);
        }
    }

    /// The entries as name/meters pairs, in insertion order: each pair is in
    /// the model, and every name of the model appears.
    pub fn pairs(&self) -> (r: &Vec<(String, u32)>)
        requires
            self.wf(),
        ensures
            entries_unique(r@),
            forall|i: int|
                0 <= i < r@.len() ==> self@.dom().contains(#[trigger] r@[i].0@) && self@[r@[i].0@]
                    == r@[i].1 as nat,
            forall|k: Seq<char>|
                self@.dom().contains(k) ==> (exists|i: int|
                    0 <= i < r@.len() && #[trigger] r@[i].0@ == k),
    {
        proof {
            lemma_entries_map_props(self.entries@);
        }
        &self.entries
    }
}

} // verus!
