use vstd::prelude::*;
use vstd::relations::sorted_by;
use crate::buckets::{
    bucket_index, buckets_valid, frontier_contains, is_candidate, is_vacant, lemma_lower_bound,
    lower_bound,
};
use crate::sorting::{ranked_le, ranked_order, Ranked};
use crate::types::{in_grid, squared_distance, Location};

verus! {

/// Candidate `a` is preferred to candidate `b`, or is `b`: it is nearer to
/// the target; at equal distance its bucket has the smaller lower bound;
/// then the earlier bucket wins, then the earlier position in the bucket.
pub open spec fn comes_before(
    v: Seq<Seq<Location>>,
    k: int,
    p: int,
    target: Location,
    a: (int, int),
    b: (int, int),
) -> bool {
    let da = squared_distance(target, v[a.0][a.1]);
    let db = squared_distance(target, v[b.0][b.1]);
    let la = lower_bound(target, a.0, k, p);
    let lb = lower_bound(target, b.0, k, p);
    da < db || (da == db && (la < lb || (la == lb && (a.0 < b.0 || (a.0 == b.0 && a.1
        <= b.1)))))
}

/// `a` is the candidate preferred to all others.
pub open spec fn is_nearest(
    v: Seq<Seq<Location>>,
    k: int,
    p: int,
    target: Location,
    a: (int, int),
) -> bool {
    is_candidate(v, a) && forall|b: (int, int)| #[trigger]
        is_candidate(v, b) ==> comes_before(v, k, p, target, a, b)
}

/// The candidate preferred to all others, where the index holds a cell.
pub open spec fn nearest(v: Seq<Seq<Location>>, k: int, p: int, target: Location) -> (int, int) {
    choose|a: (int, int)| is_nearest(v, k, p, target, a)
}

/// At most one candidate is preferred to all others.
pub proof fn lemma_nearest_unique(
    v: Seq<Seq<Location>>,
    k: int,
    p: int,
    target: Location,
    a: (int, int),
)
    requires
        is_nearest(v, k, p, target, a),
    ensures
        nearest(v, k, p, target) == a,
{
    let b = nearest(v, k, p, target);
    assert(is_nearest(v, k, p, target, b));
    assert(is_candidate(v, a));
    assert(is_candidate(v, b));
    assert(comes_before(v, k, p, target, a, b));
    assert(comes_before(v, k, p, target, b, a));
}

/// The preferred candidate is at least as near to the target as any cell
/// of the index.
pub proof fn lemma_nearest_is_closest(
    v: Seq<Seq<Location>>,
    k: int,
    p: int,
    target: Location,
    a: (int, int),
    l: Location,
)
    requires
        is_nearest(v, k, p, target, a),
        frontier_contains(v, l),
    ensures
        squared_distance(target, v[a.0][a.1]) <= squared_distance(target, l),
{
    let (i, j) = choose|i: int, j: int|
        0 <= i < v.len() && 0 <= j < v[i].len() && #[trigger] v[i][j] == l;
    assert(is_candidate(v, (i, j)));
}

/// Among the first `m` entries of the visiting order, one names bucket
/// `idx`.
pub open spec fn visited(order: Seq<Ranked>, m: int, idx: int) -> bool {
    exists|x: int| 0 <= x < m && (#[trigger] order[x]).1 == idx
}

/// The order in which the buckets are visited: every bucket with its lower
/// bound, by ascending lower bound, and by position among equal bounds.
pub open spec fn is_visiting_order(
    order: Seq<Ranked>,
    total: int,
    target: Location,
    k: int,
    p: int,
) -> bool {
    &&& sorted_by(order, ranked_order())
    &&& forall|x: int|
        0 <= x < order.len() ==> 0 <= (#[trigger] order[x]).1 < total && order[x].0
            == lower_bound(target, order[x].1 as int, k, p)
    &&& forall|i: int| 0 <= i < total ==> visited(order, order.len() as int, i)
}

/// A candidate has been looked at: its bucket is among the first `m` of
/// the visiting order, or it is in the bucket `cur` before position `j`.
pub open spec fn is_seen(order: Seq<Ranked>, m: int, cur: int, j: int, c: (int, int)) -> bool {
    visited(order, m, c.0) || (c.0 == cur && c.1 < j)
}

/// State of the search: `best` is the candidate preferred to all those
/// looked at so far, if there is any.
pub open spec fn scanned(
    v: Seq<Seq<Location>>,
    k: int,
    p: int,
    target: Location,
    order: Seq<Ranked>,
    m: int,
    cur: int,
    j: int,
    best: Option<(usize, usize)>,
    best_distance: u64,
    best_pos: int,
) -> bool {
    match best {
        None => forall|c: (int, int)| #[trigger] is_candidate(v, c) ==> !is_seen(order, m, cur, j, c),
        Some(a) => {
            let a = (a.0 as int, a.1 as int);
            &&& is_candidate(v, a)
            &&& best_distance == squared_distance(target, v[a.0][a.1])
            &&& 0 <= best_pos <= m
            &&& best_pos < order.len()
            &&& order[best_pos].1 == a.0
            &&& (best_pos == m ==> a.0 == cur && a.1 < j)
            &&& forall|c: (int, int)| #[trigger]
                is_candidate(v, c) && is_seen(order, m, cur, j, c) ==> comes_before(
                    v,
                    k,
                    p,
                    target,
                    a,
                    c,
                )
        },
    }
}

/// A candidate nearer than the best so far becomes the best.
pub proof fn lemma_scan_improves(
    v: Seq<Seq<Location>>,
    k: int,
    p: int,
    target: Location,
    order: Seq<Ranked>,
    m: int,
    j: int,
    best: Option<(usize, usize)>,
    best_distance: u64,
    best_pos: int,
)
    requires
        0 <= m < order.len(),
        0 <= j < v[order[m].1 as int].len(),
        0 <= order[m].1 < v.len(),
        j <= usize::MAX,
        scanned(v, k, p, target, order, m, order[m].1 as int, j, best, best_distance, best_pos),
        best is None || squared_distance(target, v[order[m].1 as int][j]) < best_distance,
    ensures
        scanned(
            v,
            k,
            p,
            target,
            order,
            m,
            order[m].1 as int,
            j + 1,
            Some((order[m].1, j as usize)),
            squared_distance(target, v[order[m].1 as int][j]) as u64,
            m,
        ),
{
    let cur = order[m].1 as int;
    let a = (cur, j);
    assert(is_candidate(v, a));
    crate::arith::lemma_square_bound(target.row - v[cur][j].row, 65535);
    crate::arith::lemma_square_bound(target.col - v[cur][j].col, 65535);
    assert forall|c: (int, int)| #[trigger]
        is_candidate(v, c) && is_seen(order, m, cur, j + 1, c) implies comes_before(
        v,
        k,
        p,
        target,
        a,
        c,
    ) by {
        if is_seen(order, m, cur, j, c) {
            match best {
                None => {},
                Some(o) => {
                    assert(comes_before(v, k, p, target, (o.0 as int, o.1 as int), c));
                },
            }
        } else {
            assert(c == a);
        }
    }
}

/// A candidate that is not nearer than the best so far leaves it the best.
pub proof fn lemma_scan_keeps(
    v: Seq<Seq<Location>>,
    k: int,
    p: int,
    target: Location,
    order: Seq<Ranked>,
    m: int,
    j: int,
    best: Option<(usize, usize)>,
    best_distance: u64,
    best_pos: int,
)
    requires
        0 <= m < order.len(),
        0 <= j < v[order[m].1 as int].len(),
        0 <= order[m].1 < v.len(),
        sorted_by(order, ranked_order()),
        forall|x: int|
            0 <= x < order.len() ==> (#[trigger] order[x]).0 == lower_bound(
                target,
                order[x].1 as int,
                k,
                p,
            ),
        scanned(v, k, p, target, order, m, order[m].1 as int, j, best, best_distance, best_pos),
        best is Some,
        squared_distance(target, v[order[m].1 as int][j]) >= best_distance,
    ensures
        scanned(v, k, p, target, order, m, order[m].1 as int, j + 1, best, best_distance, best_pos),
{
    let cur = order[m].1 as int;
    let o = best->0;
    let a = (o.0 as int, o.1 as int);
    let n = (cur, j);
    assert forall|c: (int, int)| #[trigger]
        is_candidate(v, c) && is_seen(order, m, cur, j + 1, c) implies comes_before(
        v,
        k,
        p,
        target,
        a,
        c,
    ) by {
        if is_seen(order, m, cur, j, c) {
        } else {
            assert(c == n);
            assert(!visited(order, m, cur));
            if best_pos < m {
                assert(order[best_pos].1 != cur);
                assert(ranked_order()(order[best_pos], order[m]));
                assert(ranked_le(order[best_pos], order[m]));
            }
        }
    }
}

/// A bucket looked at to its end counts as visited.
pub proof fn lemma_scan_bucket_done(
    v: Seq<Seq<Location>>,
    k: int,
    p: int,
    target: Location,
    order: Seq<Ranked>,
    m: int,
    best: Option<(usize, usize)>,
    best_distance: u64,
    best_pos: int,
)
    requires
        0 <= m < order.len(),
        0 <= order[m].1 < v.len(),
        scanned(
            v,
            k,
            p,
            target,
            order,
            m,
            order[m].1 as int,
            v[order[m].1 as int].len() as int,
            best,
            best_distance,
            best_pos,
        ),
    ensures
        scanned(v, k, p, target, order, m + 1, -1, 0, best, best_distance, best_pos),
{
    let cur = order[m].1 as int;
    let n = v[cur].len() as int;
    assert forall|c: (int, int)| #[trigger]
        is_candidate(v, c) && is_seen(order, m + 1, -1, 0, c) implies is_seen(
        order,
        m,
        cur,
        n,
        c,
    ) by {
        let x = choose|x: int| 0 <= x < m + 1 && (#[trigger] order[x]).1 == c.0;
        if x < m {
            assert(visited(order, m, c.0));
        }
    }
}

/// Once every bucket left has a lower bound that the best candidate
/// meets, the best candidate is preferred to all others.
pub proof fn lemma_scan_complete(
    v: Seq<Seq<Location>>,
    k: int,
    p: int,
    target: Location,
    order: Seq<Ranked>,
    m: int,
    best: Option<(usize, usize)>,
    best_distance: u64,
    best_pos: int,
)
    requires
        k >= 1,
        p >= 1,
        buckets_valid(v, k, p),
        is_visiting_order(order, v.len() as int, target, k, p),
        0 <= m <= order.len(),
        scanned(v, k, p, target, order, m, -1, 0, best, best_distance, best_pos),
        best is Some,
        m < order.len() ==> order[m].0 >= best_distance,
    ensures
        is_nearest(v, k, p, target, ((best->0).0 as int, (best->0).1 as int)),
{
    let o = best->0;
    let a = (o.0 as int, o.1 as int);
    assert forall|c: (int, int)| #[trigger] is_candidate(v, c) implies comes_before(
        v,
        k,
        p,
        target,
        a,
        c,
    ) by {
        if visited(order, m, c.0) {
            assert(is_seen(order, m, -1, 0, c));
        } else {
            assert(visited(order, order.len() as int, c.0));
            let x = choose|x: int| 0 <= x < order.len() && (#[trigger] order[x]).1 == c.0;
            assert(x >= m);
            assert(m < order.len());
            if x > m {
                assert(ranked_order()(order[m], order[x]));
            }
            assert(ranked_order()(order[best_pos], order[x]));
            assert(ranked_le(order[best_pos], order[x]));
            let l = v[c.0][c.1];
            assert(in_grid(l, p) && bucket_index(l, k, p) == c.0);
            lemma_lower_bound(target, l, k, p);
            assert(visited(order, m, a.0));
        }
    }
}

/// The preferred one of a candidate found earlier, if any, and another.
pub open spec fn better(
    v: Seq<Seq<Location>>,
    k: int,
    p: int,
    target: Location,
    x: Option<(int, int)>,
    y: (int, int),
) -> Option<(int, int)> {
    match x {
        None => Some(y),
        Some(a) => if comes_before(v, k, p, target, a, y) {
            Some(a)
        } else {
            Some(y)
        },
    }
}

/// The candidate preferred among those of the buckets before `i` and of
/// the first `j` positions of bucket `i`.
pub open spec fn best_below(
    v: Seq<Seq<Location>>,
    k: int,
    p: int,
    target: Location,
    i: nat,
    j: nat,
) -> Option<(int, int)>
    decreases i, j,
{
    if j > 0 {
        better(v, k, p, target, best_below(v, k, p, target, i, (j - 1) as nat), (i as int, j - 1))
    } else if i > 0 {
        best_below(v, k, p, target, (i - 1) as nat, v[i - 1].len())
    } else {
        None
    }
}

/// `best_below` is preferred to every candidate it ranges over, and is
/// `None` only where there is none.
pub proof fn lemma_best_below(v: Seq<Seq<Location>>, k: int, p: int, target: Location, i: nat, j: nat)
    requires
        i <= v.len(),
        i < v.len() ==> j <= v[i as int].len(),
        i == v.len() ==> j == 0,
    ensures
        match best_below(v, k, p, target, i, j) {
            None => forall|c: (int, int)| #[trigger]
                is_candidate(v, c) ==> !(c.0 < i || (c.0 == i && c.1 < j)),
            Some(a) => is_candidate(v, a) && (a.0 < i || (a.0 == i && a.1 < j)) && forall|
                c: (int, int),
            | #[trigger]
                is_candidate(v, c) && (c.0 < i || (c.0 == i && c.1 < j)) ==> comes_before(
                    v,
                    k,
                    p,
                    target,
                    a,
                    c,
                ),
        },
    decreases i, j,
{
    if j > 0 {
        lemma_best_below(v, k, p, target, i, (j - 1) as nat);
        let y = (i as int, j - 1);
        assert(is_candidate(v, y));
        match best_below(v, k, p, target, i, (j - 1) as nat) {
            None => {},
            Some(a) => {
                if !comes_before(v, k, p, target, a, y) {
                    assert forall|c: (int, int)| #[trigger]
                        is_candidate(v, c) && (c.0 < i || (c.0 == i && c.1 < j))
                        implies comes_before(v, k, p, target, y, c) by {
                        if c != y {
                            assert(comes_before(v, k, p, target, a, c));
                        }
                    }
                }
            },
        }
    } else if i > 0 {
        lemma_best_below(v, k, p, target, (i - 1) as nat, v[i - 1].len());
    }
}

/// An index that holds a cell has a candidate preferred to all others.
pub proof fn lemma_nearest_exists(v: Seq<Seq<Location>>, k: int, p: int, target: Location)
    requires
        !is_vacant(v),
    ensures
        is_nearest(v, k, p, target, nearest(v, k, p, target)),
        frontier_contains(
            v,
            v[nearest(v, k, p, target).0][nearest(v, k, p, target).1],
        ),
{
    lemma_best_below(v, k, p, target, v.len(), 0);
    let i = choose|i: int| 0 <= i < v.len() && (#[trigger] v[i]).len() != 0;
    assert(is_candidate(v, (i, 0int)));
    let a = best_below(v, k, p, target, v.len(), 0)->0;
    assert(is_nearest(v, k, p, target, a));
    let c = nearest(v, k, p, target);
    assert(is_candidate(v, c));
}

} // verus!
