use vstd::prelude::*;
use std::collections::HashSet;
use crate::regions::RegionMap;
use crate::types::{location_key, location_key_of, Location, RegionId};

verus! {

/// What a sequence without repetition becomes when a value is inserted:
/// unchanged if the value is there, else longer by that value.
pub open spec fn inserted(s: Seq<Location>, value: Location) -> Seq<Location> {
    if s.contains(value) {
        s
    } else {
        s.push(value)
    }
}

/// What a sequence becomes when position `index` is vacated and the last
/// element moves into it.
pub open spec fn removed_at(s: Seq<Location>, index: int) -> Seq<Location> {
    s.update(index, s.last()).drop_last()
}

/// A cell may move on to another set: it is a cell of the grid, still
/// unassigned, and not yet in `s`.
pub open spec fn is_carried_over(
    s: Seq<Location>,
    regions: Map<Location, Option<RegionId>>,
    l: Location,
) -> bool {
    regions.dom().contains(l) && regions[l] is None && !s.contains(l)
}

/// What a sequence becomes when it takes over the cells of `other` that are
/// still unassigned and new to it, in the order `other` holds them.
pub open spec fn consumed(
    s: Seq<Location>,
    other: Seq<Location>,
    regions: Map<Location, Option<RegionId>>,
) -> Seq<Location> {
    s + other.filter(|l: Location| is_carried_over(s, regions, l))
}

/// Removing a position from a sequence without repetition leaves one
/// without repetition that holds the same elements but the removed one.
pub proof fn lemma_removed_at_contains(s: Seq<Location>, index: int, l: Location)
    requires
        0 <= index < s.len(),
        s.no_duplicates(),
    ensures
        removed_at(s, index).no_duplicates(),
        removed_at(s, index).len() == s.len() - 1,
        removed_at(s, index).contains(l) <==> (s.contains(l) && l != s[index]),
{
    let t = removed_at(s, index);
    let last = s.len() - 1;
    assert forall|i: int, j: int| 0 <= i < t.len() && 0 <= j < t.len() && i != j implies t[i]
        != t[j] by {
        let si = if i == index { last } else { i };
        let sj = if j == index { last } else { j };
        assert(t[i] == s[si]);
        assert(t[j] == s[sj]);
    }
    if t.contains(l) {
        let i = choose|i: int| 0 <= i < t.len() && t[i] == l;
        let si = if i == index { last } else { i };
        assert(s[si] == l);
    }
    if s.contains(l) && l != s[index] {
        let i = choose|i: int| 0 <= i < s.len() && s[i] == l;
        if i == last {
            assert(t[index] == l);
        } else {
            assert(t[i] == l);
        }
    }
}

/// Filtering one element more keeps or drops that element.
pub proof fn lemma_filter_take_step(s: Seq<Location>, pred: spec_fn(Location) -> bool, i: int)
    requires
        0 <= i < s.len(),
    ensures
        s.take(i + 1).filter(pred) == (if pred(s[i]) {
            s.take(i).filter(pred).push(s[i])
        } else {
            s.take(i).filter(pred)
        }),
{
    reveal(Seq::filter);
    assert(s.take(i + 1).drop_last() =~= s.take(i));
    assert(s.take(i + 1).last() == s[i]);
}

/// Taking over another sequence without repetition leaves one without
/// repetition, which holds what this one held and the unassigned cells of
/// the other.
pub proof fn lemma_consumed_contains(
    s: Seq<Location>,
    other: Seq<Location>,
    regions: Map<Location, Option<RegionId>>,
    l: Location,
)
    requires
        s.no_duplicates(),
        other.no_duplicates(),
    ensures
        consumed(s, other, regions).no_duplicates(),
        consumed(s, other, regions).contains(l) <==> (s.contains(l) || (other.contains(l)
            && regions.dom().contains(l) && regions[l] is None)),
{
    let pred = |l: Location| is_carried_over(s, regions, l);
    let kept = other.filter(pred);
    let t = consumed(s, other, regions);
    assert forall|x: Location| kept.contains(x) <==> other.contains(x) && pred(x) by {
        lemma_filter_membership(other, pred, x);
    }
    assert(kept.no_duplicates()) by {
        lemma_filter_no_duplicates(other, pred);
    }
    assert forall|i: int, j: int| 0 <= i < t.len() && 0 <= j < t.len() && i != j implies t[i]
        != t[j] by {
        if i < s.len() && j < s.len() {
        } else if i >= s.len() && j >= s.len() {
            assert(t[i] == kept[i - s.len()]);
            assert(t[j] == kept[j - s.len()]);
        } else if i < s.len() {
            assert(t[j] == kept[j - s.len()]);
            assert(kept.contains(t[j]));
            assert(s.contains(t[i]));
        } else {
            assert(t[i] == kept[i - s.len()]);
            assert(kept.contains(t[i]));
            assert(s.contains(t[j]));
        }
    }
    if t.contains(l) {
        let i = choose|i: int| 0 <= i < t.len() && t[i] == l;
        if i < s.len() {
            assert(s[i] == l);
        } else {
            assert(kept[i - s.len()] == l);
            assert(kept.contains(l));
        }
    }
    if s.contains(l) {
        let i = choose|i: int| 0 <= i < s.len() && s[i] == l;
        assert(t[i] == l);
    } else if other.contains(l) && regions.dom().contains(l) && regions[l] is None {
        assert(pred(l));
        assert(kept.contains(l));
        let i = choose|i: int| 0 <= i < kept.len() && kept[i] == l;
        assert(t[s.len() + i] == l);
    }
}

/// Filtering keeps exactly the elements that meet the predicate.
pub proof fn lemma_filter_membership(
    s: Seq<Location>,
    pred: spec_fn(Location) -> bool,
    x: Location,
)
    ensures
        s.filter(pred).contains(x) <==> (s.contains(x) && pred(x)),
    decreases s.len(),
{
    reveal(Seq::filter);
    if s.len() > 0 {
        let sub = s.drop_last();
        let f = sub.filter(pred);
        lemma_filter_membership(sub, pred, x);
        if s.contains(x) {
            let i = choose|i: int| 0 <= i < s.len() && s[i] == x;
            if i < s.len() - 1 {
                assert(sub[i] == x);
            }
        }
        if sub.contains(x) {
            let i = choose|i: int| 0 <= i < sub.len() && sub[i] == x;
            assert(s[i] == x);
        }
        if pred(s.last()) {
            let g = f.push(s.last());
            if g.contains(x) {
                let i = choose|i: int| 0 <= i < g.len() && g[i] == x;
                if i < f.len() {
                    assert(f[i] == x);
                } else {
                    assert(s[s.len() - 1] == x);
                }
            }
            if f.contains(x) {
                let i = choose|i: int| 0 <= i < f.len() && f[i] == x;
                assert(g[i] == x);
            }
            assert(g[g.len() - 1] == s.last());
        }
    }
}

/// Filtering a sequence without repetition leaves none.
pub proof fn lemma_filter_no_duplicates(s: Seq<Location>, pred: spec_fn(Location) -> bool)
    requires
        s.no_duplicates(),
    ensures
        s.filter(pred).no_duplicates(),
    decreases s.len(),
{
    reveal(Seq::filter);
    if s.len() > 0 {
        let sub = s.drop_last();
        lemma_filter_no_duplicates(sub, pred);
        if pred(s.last()) {
            let f = sub.filter(pred);
            lemma_filter_membership(sub, pred, s.last());
            if sub.contains(s.last()) {
                let i = choose|i: int| 0 <= i < sub.len() && sub[i] == s.last();
                assert(s[i] == s[s.len() - 1]);
            }
            let g = f.push(s.last());
            assert forall|i: int, j: int| 0 <= i < g.len() && 0 <= j < g.len() && i != j implies g[i]
                != g[j] by {
                if i < f.len() {
                    assert(f.contains(f[i]));
                }
                if j < f.len() {
                    assert(f.contains(f[j]));
                }
            }
        }
    }
}

/// A set of cells that remembers the order in which they came, with
/// constant-time membership tests and removal by position.
pub struct VecSet {
    vec: Vec<Location>,
    set: HashSet<u32>,
}

impl VecSet {
    /// The cells in iteration order.
    pub closed spec fn view(&self) -> Seq<Location> {
        self.vec@
    }

    /// No cell occurs twice, and the hashed membership table holds exactly
    /// the cells of the sequence.
    pub closed spec fn wf(&self) -> bool {
        &&& self.vec@.no_duplicates()
        &&& forall|l: Location| #[trigger]
            self.set@.contains(location_key(l)) <==> self.vec@.contains(l)
    }

    /// A well-formed set holds no cell twice.
    pub proof fn lemma_no_duplicates(&self)
        requires
            self.wf(),
        ensures
            self@.no_duplicates(),
    {
    }

    /// A set without cells.
    pub fn new() -> (s: VecSet)
        ensures
            s.wf(),
            s@ == Seq::<Location>::empty(),
    {
        VecSet { vec: Vec::new(), set: HashSet::new() }
    }

    /// Adds a cell at the end unless the set holds it already.
    pub fn insert(&mut self, value: Location)
        requires
            old(self).wf(),
        ensures
            final(self).wf(),
            final(self)@ == inserted(old(self)@, value),
    {
        let was_not_present = self.set.insert(location_key_of(&value));
        if was_not_present {
            self.vec.push(value);
            proof {
                assert forall|l: Location| #[trigger]
                    self.set@.contains(location_key(l)) <==> self.vec@.contains(l) by {
                    if l == value {
                        assert(self.vec@[self.vec@.len() - 1] == value);
                    } else {
                        if old(self).vec@.contains(l) {
                            let i = choose|i: int|
                                0 <= i < old(self).vec@.len() && old(self).vec@[i] == l;
                            assert(self.vec@[i] == l);
                        }
                        if self.vec@.contains(l) {
                            let i = choose|i: int| 0 <= i < self.vec@.len() && self.vec@[i] == l;
                            assert(old(self).vec@[i] == l);
                        }
                    }
                }
                assert forall|i: int, j: int|
                    0 <= i < self.vec@.len() && 0 <= j < self.vec@.len() && i
                        != j implies self.vec@[i] != self.vec@[j] by {
                    if i < old(self).vec@.len() {
                        assert(old(self).vec@.contains(self.vec@[i]));
                    }
                    if j < old(self).vec@.len() {
                        assert(old(self).vec@.contains(self.vec@[j]));
                    }
                }
            }
        } else {
            proof {
                assert(self.set@ =~= old(self).set@);
            }
        }
    }

    /// Removes the cell at `index` and returns it; the last cell takes its
    /// place.
    pub fn remove(&mut self, index: usize) -> (value: Location)
        requires
            old(self).wf(),
            index < old(self)@.len(),
        ensures
            final(self).wf(),
            value == old(self)@[index as int],
            final(self)@ == removed_at(old(self)@, index as int),
    {
        let value = self.vec.swap_remove(index);
        let was_present = self.set.remove(&location_key_of(&value));
        proof {
            assert forall|l: Location| #[trigger]
                self.set@.contains(location_key(l)) <==> self.vec@.contains(l) by {
                lemma_removed_at_contains(old(self).vec@, index as int, l);
            }
            lemma_removed_at_contains(old(self).vec@, index as int, value);
        }
        value
    }

    /// Takes over the cells of `other` that are still unassigned on
    /// `ignore` and that this set does not hold yet, in the order in which
    /// `other` holds them.
    pub fn consume(&mut self, other: VecSet, ignore: &RegionMap)
        requires
            old(self).wf(),
            other.wf(),
            ignore.wf(),
        ensures
            final(self).wf(),
            final(self)@ == consumed(old(self)@, other@, ignore@),
    {
        let ghost pred = |l: Location| is_carried_over(old(self)@, ignore@, l);
        let n = other.vec.len();
        let mut i: usize = 0;
        proof {
            reveal(Seq::filter);
            assert(other.vec@.take(0).filter(pred) =~= Seq::<Location>::empty());
            assert(self.vec@ =~= old(self).vec@ + other.vec@.take(0).filter(pred));
        }
        while i < n
            invariant
                i <= n,
                n == other.vec@.len(),
                other.wf(),
                ignore.wf(),
                old(self).wf(),
                pred == (|l: Location| is_carried_over(old(self)@, ignore@, l)),
                self.vec@ == old(self).vec@ + other.vec@.take(i as int).filter(pred),
                forall|l: Location| #[trigger]
                    self.set@.contains(location_key(l)) <==> self.vec@.contains(l),
            decreases n - i,
        {
            let location = other.vec[i];
            let ghost before = self.vec@;
            proof {
                lemma_filter_take_step(other.vec@, pred, i as int);
                lemma_consumed_contains(
                    old(self).vec@,
                    other.vec@.take(i as int),
                    ignore@,
                    location,
                );
                assert(other.vec@.take(i as int).no_duplicates());
                if other.vec@.take(i as int).contains(location) {
                    let j = choose|j: int|
                        0 <= j < i && other.vec@.take(i as int)[j] == location;
                    assert(other.vec@[j] == other.vec@[i as int]);
                }
            }
            if ignore.is_unassigned(&location) && !self.set.contains(&location_key_of(&location)) {
                self.set.insert(location_key_of(&location));
                self.vec.push(location);
                proof {
                    assert(pred(location));
                    assert(self.vec@ =~= old(self).vec@ + other.vec@.take(i + 1).filter(pred));
                    assert forall|l: Location| #[trigger]
                        self.set@.contains(location_key(l)) <==> self.vec@.contains(l) by {
                        if l == location {
                            assert(self.vec@[self.vec@.len() - 1] == location);
                        } else {
                            if before.contains(l) {
                                let j = choose|j: int| 0 <= j < before.len() && before[j] == l;
                                assert(self.vec@[j] == l);
                            }
                            if self.vec@.contains(l) {
                                let j = choose|j: int|
                                    0 <= j < self.vec@.len() && self.vec@[j] == l;
                                assert(before[j] == l);
                            }
                        }
                    }
                }
            } else {
                proof {
                    assert(!pred(location));
                }
            }
            i += 1;
        }
        proof {
            assert(other.vec@.take(n as int) =~= other.vec@);
            lemma_consumed_contains(old(self).vec@, other.vec@, ignore@, other.vec@[0]);
        }
    }

    /// The cells in iteration order.
    pub fn iter(&self) -> (it: std::slice::Iter<'_, Location>)
        ensures
            vstd::std_specs::slice::into_iter_elts(it) == self@,
    {
        self.vec.iter()
    }

    /// The cell at a position of the iteration order.
    pub fn get(&self, index: usize) -> (value: Location)
        requires
            index < self@.len(),
        ensures
            value == self@[index as int],
    {
        self.vec[index]
    }

    /// Whether the set holds the cell.
    pub fn contains(&self, value: &Location) -> (r: bool)
        requires
            self.wf(),
        ensures
            r == self@.contains(*value),
    {
        self.set.contains(&location_key_of(value))
    }

    /// Whether the set holds no cell.
    pub fn is_empty(&self) -> (r: bool)
        ensures
            r == (self@.len() == 0),
    {
        self.vec.is_empty()
    }

    /// Number of cells in the set.
    pub fn len(&self) -> (n: usize)
        ensures
            n == self@.len(),
    {
        self.vec.len()
    }
}

} // verus!
