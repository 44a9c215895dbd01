use vstd::prelude::*;
use vstd::multiset::Multiset;
use vstd::relations::{sorted_by, total_ordering};
use vstd::seq_lib::{lemma_multiset_commutative, lemma_sorted_unique, to_multiset_build};

verus! {

/// An entry to be ordered: a rank, and a position that breaks ties.
pub type Ranked = (u64, usize);

/// `a` comes no later than `b`: by rank first, by position among equal
/// ranks.
pub open spec fn ranked_le(a: Ranked, b: Ranked) -> bool {
    a.0 < b.0 || (a.0 == b.0 && a.1 <= b.1)
}

/// The order of `ranked_le` as a relation.
pub open spec fn ranked_order() -> spec_fn(Ranked, Ranked) -> bool {
    |a: Ranked, b: Ranked| ranked_le(a, b)
}

/// The order is total.
pub proof fn lemma_ranked_order_total()
    ensures
        total_ordering(ranked_order()),
{
    let r = ranked_order();
    assert(vstd::relations::reflexive(r));
    assert(vstd::relations::antisymmetric(r)) by {
        assert forall|x: Ranked, y: Ranked| #[trigger] r(x, y) && #[trigger] r(y, x) implies x
            == y by {
            assert(x.0 == y.0 && x.1 == y.1);
        }
    }
    assert(vstd::relations::transitive(r));
    assert(vstd::relations::strongly_connected(r));
}

/// Whether `a` comes no later than `b`.
fn comes_first(a: &Ranked, b: &Ranked) -> (r: bool)
    ensures
        r == ranked_le(*a, *b),
{
    a.0 < b.0 || (a.0 == b.0 && a.1 <= b.1)
}

/// Merges two ordered lists into one.
fn merge(a: &Vec<Ranked>, b: &Vec<Ranked>) -> (r: Vec<Ranked>)
    requires
        sorted_by(a@, ranked_order()),
        sorted_by(b@, ranked_order()),
    ensures
        sorted_by(r@, ranked_order()),
        r@.to_multiset() == a@.to_multiset().add(b@.to_multiset()),
        r@.len() == a@.len() + b@.len(),
{
    let mut r: Vec<Ranked> = Vec::new();
    let mut i: usize = 0;
    let mut j: usize = 0;
    proof {
        assert(a@.take(0) =~= Seq::<Ranked>::empty());
        assert(b@.take(0) =~= Seq::<Ranked>::empty());
        assert(r@.to_multiset() =~= Multiset::<Ranked>::empty()) by {
            broadcast use vstd::seq_lib::group_to_multiset_ensures;
            broadcast use vstd::multiset::group_multiset_axioms;

        }
        assert(r@.to_multiset() =~= a@.take(0).to_multiset().add(b@.take(0).to_multiset())) by {
            broadcast use vstd::multiset::group_multiset_axioms;

        }
    }
    while i < a.len() || j < b.len()
        invariant
            i <= a@.len(),
            j <= b@.len(),
            r@.len() == i + j,
            sorted_by(a@, ranked_order()),
            sorted_by(b@, ranked_order()),
            sorted_by(r@, ranked_order()),
            r@.to_multiset() == a@.take(i as int).to_multiset().add(
                b@.take(j as int).to_multiset(),
            ),
            forall|x: int| 0 <= x < r@.len() && i < a@.len() ==> ranked_le(r@[x], a@[i as int]),
            forall|x: int| 0 <= x < r@.len() && j < b@.len() ==> ranked_le(r@[x], b@[j as int]),
        decreases a@.len() + b@.len() - i - j,
    {
        let ghost before = r@;
        let take_left = if i < a.len() && j < b.len() {
            comes_first(&a[i], &b[j])
        } else {
            i < a.len()
        };
        if take_left {
            let e = a[i];
            r.push(e);
            proof {
                to_multiset_build(before, e);
                to_multiset_build(a@.take(i as int), e);
                assert(a@.take(i + 1) =~= a@.take(i as int).push(e));
                assert(r@.to_multiset() =~= a@.take(i + 1).to_multiset().add(
                    b@.take(j as int).to_multiset(),
                )) by {
                    broadcast use vstd::multiset::group_multiset_axioms;

                }
                assert forall|x: int, y: int| 0 <= x < y < r@.len() implies #[trigger] ranked_order()(
                    r@[x],
                    r@[y],
                ) by {
                    if y < before.len() {
                        assert(ranked_order()(before[x], before[y]));
                    }
                }
                if i + 1 < a@.len() {
                    assert(ranked_order()(a@[i as int], a@[i + 1]));
                }
            }
            i += 1;
        } else {
            let e = b[j];
            r.push(e);
            proof {
                to_multiset_build(before, e);
                to_multiset_build(b@.take(j as int), e);
                assert(b@.take(j + 1) =~= b@.take(j as int).push(e));
                assert(r@.to_multiset() =~= a@.take(i as int).to_multiset().add(
                    b@.take(j + 1).to_multiset(),
                )) by {
                    broadcast use vstd::multiset::group_multiset_axioms;

                }
                assert forall|x: int, y: int| 0 <= x < y < r@.len() implies #[trigger] ranked_order()(
                    r@[x],
                    r@[y],
                ) by {
                    if y < before.len() {
                        assert(ranked_order()(before[x], before[y]));
                    }
                }
                if j + 1 < b@.len() {
                    assert(ranked_order()(b@[j as int], b@[j + 1]));
                }
            }
            j += 1;
        }
    }
    proof {
        assert(a@.take(i as int) =~= a@);
        assert(b@.take(j as int) =~= b@);
    }
    r
}

/// The entries of `v` from `lo` up to `hi`, ordered.
fn sort_range(v: &Vec<Ranked>, lo: usize, hi: usize) -> (r: Vec<Ranked>)
    requires
        lo <= hi <= v@.len(),
    ensures
        sorted_by(r@, ranked_order()),
        r@.to_multiset() == v@.subrange(lo as int, hi as int).to_multiset(),
        r@.len() == hi - lo,
    decreases hi - lo,
{
    if hi - lo <= 1 {
        let mut r: Vec<Ranked> = Vec::new();
        if hi - lo == 1 {
            r.push(v[lo]);
        }
        proof {
            assert(r@ =~= v@.subrange(lo as int, hi as int));
        }
        r
    } else {
        let mid = lo + (hi - lo) / 2;
        let left = sort_range(v, lo, mid);
        let right = sort_range(v, mid, hi);
        proof {
            lemma_multiset_commutative(
                v@.subrange(lo as int, mid as int),
                v@.subrange(mid as int, hi as int),
            );
            assert(v@.subrange(lo as int, mid as int) + v@.subrange(mid as int, hi as int)
                =~= v@.subrange(lo as int, hi as int));
        }
        merge(&left, &right)
    }
}

/// Orders the entries by rank, and by position among equal ranks.
pub fn sort_ranked(v: &Vec<Ranked>) -> (r: Vec<Ranked>)
    ensures
        r@ == v@.sort_by(ranked_order()),
        sorted_by(r@, ranked_order()),
        r@.to_multiset() == v@.to_multiset(),
        r@.len() == v@.len(),
{
    let r = sort_range(v, 0, v.len());
    proof {
        assert(v@.subrange(0, v@.len() as int) =~= v@);
        lemma_ranked_order_total();
        v@.lemma_sort_by_ensures(ranked_order());
        lemma_sorted_unique(r@, v@.sort_by(ranked_order()), ranked_order());
    }
    r
}

/// A sorted sequence holds what the unsorted one held, and nothing else.
pub proof fn lemma_sorted_same_elements(s: Seq<Ranked>, e: Ranked)
    ensures
        s.sort_by(ranked_order()).contains(e) <==> s.contains(e),
        s.sort_by(ranked_order()).len() == s.len(),
        sorted_by(s.sort_by(ranked_order()), ranked_order()),
{
    lemma_ranked_order_total();
    s.lemma_sort_by_ensures(ranked_order());
    let t = s.sort_by(ranked_order());
    vstd::seq_lib::to_multiset_contains(s, e);
    vstd::seq_lib::to_multiset_contains(t, e);
    vstd::seq_lib::to_multiset_len(s);
    vstd::seq_lib::to_multiset_len(t);
}

} // verus!
