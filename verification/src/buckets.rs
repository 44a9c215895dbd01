use vstd::prelude::*;
use crate::arith::lemma_div_at_least;
use crate::types::{in_grid, squared_distance, Location, RegionId};
use crate::vec_set::{
    consumed, inserted, lemma_consumed_contains, lemma_removed_at_contains, removed_at,
};

verus! {

/// Index, along one axis, of the bucket that covers coordinate `x` when a
/// stretch of `p` coordinates is cut into `k` buckets.
pub open spec fn bucket_of(x: int, k: int, p: int) -> int {
    x * k / p
}

/// The first coordinate that bucket `i` covers along one axis.
pub open spec fn bucket_start(i: int, k: int, p: int) -> int {
    (i * p + k - 1) / k
}

/// How far coordinate `t` lies outside bucket `i` along one axis: zero when
/// the bucket covers it, else the distance to the bucket's nearest edge.
pub open spec fn axis_gap(t: int, i: int, k: int, p: int) -> int {
    if t < bucket_start(i, k, p) {
        bucket_start(i, k, p) - t
    } else if t >= bucket_start(i + 1, k, p) {
        t - (bucket_start(i + 1, k, p) - 1)
    } else {
        0
    }
}

/// Position of the bucket that covers a cell, the buckets read row by row.
pub open spec fn bucket_index(loc: Location, k: int, p: int) -> int {
    bucket_of(loc.row as int, k, p) * k + bucket_of(loc.col as int, k, p)
}

/// A lower bound on the squared distance from `target` to any cell that
/// bucket `idx` may hold.
pub open spec fn lower_bound(target: Location, idx: int, k: int, p: int) -> int {
    let gr = axis_gap(target.row as int, idx / k, k, p);
    let gc = axis_gap(target.col as int, idx % k, k, p);
    gr * gr + gc * gc
}

/// The buckets are those of a `k` by `k` index over `p` by `p` cells: each
/// holds cells it covers, and none twice.
pub open spec fn buckets_valid(v: Seq<Seq<Location>>, k: int, p: int) -> bool {
    &&& v.len() == k * k
    &&& forall|i: int| 0 <= i < v.len() ==> (#[trigger] v[i]).no_duplicates()
    &&& forall|i: int, j: int|
        0 <= i < v.len() && 0 <= j < v[i].len() ==> in_grid(#[trigger] v[i][j], p)
            && bucket_index(v[i][j], k, p) == i
}

/// Some bucket holds the cell.
pub open spec fn frontier_contains(v: Seq<Seq<Location>>, l: Location) -> bool {
    exists|i: int, j: int| 0 <= i < v.len() && 0 <= j < v[i].len() && #[trigger] v[i][j] == l
}

/// No bucket holds anything.
pub open spec fn is_vacant(v: Seq<Seq<Location>>) -> bool {
    forall|i: int| 0 <= i < v.len() ==> (#[trigger] v[i]).len() == 0
}

/// The buckets of an index that holds nothing.
pub open spec fn vacant_buckets(k: int) -> Seq<Seq<Location>> {
    Seq::new((k * k) as nat, |i: int| Seq::<Location>::empty())
}

/// The buckets after a cell has been inserted.
pub open spec fn with_inserted(v: Seq<Seq<Location>>, k: int, p: int, loc: Location) -> Seq<
    Seq<Location>,
> {
    v.update(bucket_index(loc, k, p), inserted(v[bucket_index(loc, k, p)], loc))
}

/// The buckets after those of `other` have been taken over, bucket for
/// bucket, but for the cells that are assigned by now.
pub open spec fn with_consumed(
    v: Seq<Seq<Location>>,
    other: Seq<Seq<Location>>,
    regions: Map<Location, Option<RegionId>>,
) -> Seq<Seq<Location>> {
    Seq::new(v.len(), |i: int| consumed(v[i], other[i], regions))
}

/// `c` names a cell of the index: a bucket and a position in it.
pub open spec fn is_candidate(v: Seq<Seq<Location>>, c: (int, int)) -> bool {
    0 <= c.0 < v.len() && 0 <= c.1 < v[c.0].len()
}

/// The buckets after the candidate `c` has left: the last cell of its
/// bucket takes its place.
pub open spec fn with_removed(v: Seq<Seq<Location>>, c: (int, int)) -> Seq<Seq<Location>> {
    v.update(c.0, removed_at(v[c.0], c.1))
}

/// A coordinate falls in bucket `i` or a later one exactly when it is not
/// before the start of bucket `i`.
pub proof fn lemma_bucket_start(x: int, i: int, k: int, p: int)
    requires
        k >= 1,
        p >= 1,
    ensures
        bucket_of(x, k, p) >= i <==> x >= bucket_start(i, k, p),
{
    lemma_div_at_least(x * k, p, i);
    // x >= ceil(i*p/k)  <==>  x*k >= i*p
    lemma_div_at_least(i * p + k - 1, k, x + 1);
    assert((x + 1) * k == x * k + k) by (nonlinear_arith);
}

/// The buckets start within the covered stretch, each no earlier than the
/// one before.
pub proof fn lemma_bucket_start_bounds(i: int, k: int, p: int)
    requires
        k >= 1,
        p >= 1,
        0 <= i <= k,
    ensures
        0 <= bucket_start(i, k, p) <= p,
        i < k ==> bucket_start(i, k, p) <= bucket_start(i + 1, k, p),
{
    // bucket_start(i) >= 0  <==> not (bucket_start(i) <= -1)
    lemma_bucket_start(-1, i, k, p);
    lemma_div_at_least(-k, p, i);
    assert(-1 * k == -k);
    assert(i * p >= 0) by (nonlinear_arith)
        requires
            i >= 0,
            p >= 1,
    ;
    lemma_bucket_start(p, i, k, p);
    lemma_div_at_least(p * k, p, i);
    assert(p * k >= i * p) by (nonlinear_arith)
        requires
            i <= k,
            p >= 1,
    ;
    if i < k {
        let s = bucket_start(i + 1, k, p);
        lemma_bucket_start(s, i + 1, k, p);
        lemma_bucket_start(s, i, k, p);
    }
}

/// A covered coordinate falls in one of the `k` buckets.
pub proof fn lemma_bucket_of_bounds(x: int, k: int, p: int)
    requires
        k >= 1,
        p >= 1,
        0 <= x < p,
    ensures
        0 <= bucket_of(x, k, p) < k,
{
    lemma_div_at_least(x * k, p, 0);
    lemma_div_at_least(x * k, p, k);
    assert(x * k >= 0 && x * k < k * p) by (nonlinear_arith)
        requires
            0 <= x < p,
            k >= 1,
    ;
}

/// A covered cell has a bucket, and the bucket's position gives back the
/// bucket of the row and that of the column.
pub proof fn lemma_bucket_index_parts(loc: Location, k: int, p: int)
    requires
        k >= 1,
        p >= 1,
        in_grid(loc, p),
    ensures
        0 <= bucket_index(loc, k, p) < k * k,
        bucket_index(loc, k, p) / k == bucket_of(loc.row as int, k, p),
        bucket_index(loc, k, p) % k == bucket_of(loc.col as int, k, p),
{
    lemma_bucket_of_bounds(loc.row as int, k, p);
    lemma_bucket_of_bounds(loc.col as int, k, p);
    let a = bucket_of(loc.row as int, k, p);
    let b = bucket_of(loc.col as int, k, p);
    vstd::arithmetic::div_mod::lemma_fundamental_div_mod_converse(a * k + b, k, a, b);
    assert(k * a == a * k) by (nonlinear_arith);
    assert(a * k + b < k * k) by (nonlinear_arith)
        requires
            0 <= a < k,
            0 <= b < k,
    ;
    assert(a * k >= 0) by (nonlinear_arith)
        requires
            0 <= a,
            k >= 1,
    ;
}

/// A coordinate inside a bucket is at least the gap away from the target.
pub proof fn lemma_axis_gap(t: int, x: int, i: int, k: int, p: int)
    requires
        k >= 1,
        p >= 1,
        bucket_of(x, k, p) == i,
    ensures
        0 <= axis_gap(t, i, k, p),
        axis_gap(t, i, k, p) * axis_gap(t, i, k, p) <= (t - x) * (t - x),
{
    lemma_bucket_start(x, i, k, p);
    lemma_bucket_start(x, i + 1, k, p);
    let g = axis_gap(t, i, k, p);
    let d = t - x;
    assert(0 <= g);
    assert(g <= d || g <= -d);
    assert(g * g <= d * d) by (nonlinear_arith)
        requires
            0 <= g,
            g <= d || g <= -d,
    ;
}

/// No cell of a bucket is nearer to the target than the bucket's lower
/// bound.
pub proof fn lemma_lower_bound(target: Location, loc: Location, k: int, p: int)
    requires
        k >= 1,
        p >= 1,
        in_grid(loc, p),
    ensures
        lower_bound(target, bucket_index(loc, k, p), k, p) <= squared_distance(target, loc),
{
    lemma_bucket_index_parts(loc, k, p);
    let idx = bucket_index(loc, k, p);
    lemma_axis_gap(target.row as int, loc.row as int, idx / k, k, p);
    lemma_axis_gap(target.col as int, loc.col as int, idx % k, k, p);
}

/// In a valid index a cell can only be in the bucket that covers it.
pub proof fn lemma_contains_in_bucket(v: Seq<Seq<Location>>, k: int, p: int, l: Location)
    requires
        k >= 1,
        p >= 1,
        buckets_valid(v, k, p),
    ensures
        frontier_contains(v, l) <==> (in_grid(l, p) && v[bucket_index(l, k, p)].contains(l)),
{
    if frontier_contains(v, l) {
        let (i, j) = choose|i: int, j: int|
            0 <= i < v.len() && 0 <= j < v[i].len() && #[trigger] v[i][j] == l;
        assert(v[i].contains(l));
    }
    if in_grid(l, p) && v[bucket_index(l, k, p)].contains(l) {
        lemma_bucket_index_parts(l, k, p);
        let i = bucket_index(l, k, p);
        let j = choose|j: int| 0 <= j < v[i].len() && v[i][j] == l;
        assert(v[i][j] == l);
    }
}

/// Inserting a cell keeps the index valid and adds that cell to what it
/// holds, and nothing else.
pub proof fn lemma_with_inserted(v: Seq<Seq<Location>>, k: int, p: int, loc: Location, l: Location)
    requires
        k >= 1,
        p >= 1,
        buckets_valid(v, k, p),
        in_grid(loc, p),
    ensures
        buckets_valid(with_inserted(v, k, p, loc), k, p),
        frontier_contains(with_inserted(v, k, p, loc), l) <==> (frontier_contains(v, l) || l
            == loc),
{
    let w = with_inserted(v, k, p, loc);
    let b = bucket_index(loc, k, p);
    lemma_bucket_index_parts(loc, k, p);
    assert forall|i: int| 0 <= i < w.len() implies (#[trigger] w[i]).no_duplicates() by {
        if i == b {
            assert(v[i].no_duplicates());
            if !v[b].contains(loc) {
                assert forall|x: int, y: int|
                    0 <= x < w[b].len() && 0 <= y < w[b].len() && x != y implies w[b][x]
                    != w[b][y] by {
                    if x < v[b].len() {
                        assert(v[b].contains(v[b][x]));
                    }
                    if y < v[b].len() {
                        assert(v[b].contains(v[b][y]));
                    }
                }
            }
        } else {
            assert(v[i].no_duplicates());
        }
    }
    assert forall|i: int, j: int| 0 <= i < w.len() && 0 <= j < w[i].len() implies in_grid(
        #[trigger] w[i][j],
        p,
    ) && bucket_index(w[i][j], k, p) == i by {
        if i == b && j >= v[b].len() {
        } else {
            assert(w[i][j] == v[i][j]);
        }
    }
    lemma_contains_in_bucket(v, k, p, l);
    lemma_contains_in_bucket(w, k, p, l);
    if in_grid(l, p) {
        lemma_bucket_index_parts(l, k, p);
        let bl = bucket_index(l, k, p);
        if bl == b {
            if v[b].contains(l) {
                let j = choose|j: int| 0 <= j < v[b].len() && v[b][j] == l;
                assert(w[b][j] == l);
            }
            if w[b].contains(l) && l != loc {
                let j = choose|j: int| 0 <= j < w[b].len() && w[b][j] == l;
                assert(v[b][j] == l);
            }
            if l == loc {
                if v[b].contains(loc) {
                } else {
                    assert(w[b][v[b].len() as int] == loc);
                }
            }
        }
    }
}

/// Taking over another index keeps this one valid; it then holds what it
/// held, and of the other's cells those that are still unassigned.
pub proof fn lemma_with_consumed(
    v: Seq<Seq<Location>>,
    other: Seq<Seq<Location>>,
    regions: Map<Location, Option<RegionId>>,
    k: int,
    p: int,
    l: Location,
)
    requires
        k >= 1,
        p >= 1,
        buckets_valid(v, k, p),
        buckets_valid(other, k, p),
    ensures
        buckets_valid(with_consumed(v, other, regions), k, p),
        frontier_contains(with_consumed(v, other, regions), l) <==> (frontier_contains(v, l) || (
        frontier_contains(other, l) && regions.dom().contains(l) && regions[l] is None)),
{
    let w = with_consumed(v, other, regions);
    assert forall|i: int| 0 <= i < w.len() implies (#[trigger] w[i]).no_duplicates() by {
        assert(v[i].no_duplicates());
        assert(other[i].no_duplicates());
        lemma_consumed_contains(v[i], other[i], regions, l);
    }
    assert forall|i: int, j: int| 0 <= i < w.len() && 0 <= j < w[i].len() implies in_grid(
        #[trigger] w[i][j],
        p,
    ) && bucket_index(w[i][j], k, p) == i by {
        assert(v[i].no_duplicates());
        assert(other[i].no_duplicates());
        let x = w[i][j];
        lemma_consumed_contains(v[i], other[i], regions, x);
        assert(w[i].contains(x));
        if v[i].contains(x) {
            let y = choose|y: int| 0 <= y < v[i].len() && v[i][y] == x;
            assert(in_grid(v[i][y], p));
        } else {
            let y = choose|y: int| 0 <= y < other[i].len() && other[i][y] == x;
            assert(in_grid(other[i][y], p));
        }
    }
    lemma_contains_in_bucket(v, k, p, l);
    lemma_contains_in_bucket(other, k, p, l);
    lemma_contains_in_bucket(w, k, p, l);
    if in_grid(l, p) {
        lemma_bucket_index_parts(l, k, p);
        let i = bucket_index(l, k, p);
        assert(v[i].no_duplicates());
        assert(other[i].no_duplicates());
        lemma_consumed_contains(v[i], other[i], regions, l);
    }
}

/// When a candidate leaves, the index stays valid and holds what it held
/// but for that cell.
pub proof fn lemma_with_removed(v: Seq<Seq<Location>>, k: int, p: int, c: (int, int), l: Location)
    requires
        k >= 1,
        p >= 1,
        buckets_valid(v, k, p),
        is_candidate(v, c),
    ensures
        buckets_valid(with_removed(v, c), k, p),
        frontier_contains(with_removed(v, c), l) <==> (frontier_contains(v, l) && l
            != v[c.0][c.1]),
{
    let w = with_removed(v, c);
    assert(v[c.0].no_duplicates());
    assert forall|i: int| 0 <= i < w.len() implies (#[trigger] w[i]).no_duplicates() by {
        if i == c.0 {
            lemma_removed_at_contains(v[c.0], c.1, l);
        } else {
            assert(v[i].no_duplicates());
        }
    }
    assert forall|i: int, j: int| 0 <= i < w.len() && 0 <= j < w[i].len() implies in_grid(
        #[trigger] w[i][j],
        p,
    ) && bucket_index(w[i][j], k, p) == i by {
        if i == c.0 {
            lemma_removed_at_contains(v[c.0], c.1, l);
            let y = if j == c.1 {
                v[i].len() - 1
            } else {
                j
            };
            assert(w[i][j] == v[i][y]);
        } else {
            assert(w[i][j] == v[i][j]);
        }
    }
    lemma_contains_in_bucket(v, k, p, l);
    lemma_contains_in_bucket(w, k, p, l);
    let removed = v[c.0][c.1];
    assert(in_grid(removed, p) && bucket_index(removed, k, p) == c.0);
    if in_grid(l, p) {
        lemma_bucket_index_parts(l, k, p);
        if bucket_index(l, k, p) == c.0 {
            lemma_removed_at_contains(v[c.0], c.1, l);
        }
    }
}

/// The cells of the first `n` buckets, one bucket after the other.
pub open spec fn cells_below(v: Seq<Seq<Location>>, n: nat) -> Seq<Location>
    decreases n,
{
    if n == 0 {
        Seq::empty()
    } else {
        cells_below(v, (n - 1) as nat) + v[n - 1]
    }
}

/// Number of cells in all buckets.
pub open spec fn cell_total(v: Seq<Seq<Location>>) -> nat {
    cells_below(v, v.len()).len()
}

/// Cells of a grid, none twice, are no more than the grid has.
pub proof fn lemma_no_more_than_grid(s: Seq<Location>, p: int)
    requires
        1 <= p <= 65536,
        s.no_duplicates(),
        forall|i: int| 0 <= i < s.len() ==> in_grid(#[trigger] s[i], p),
    ensures
        s.len() <= p * p,
{
    let keys = s.map_values(|l: Location| crate::types::flat_index(l, p));
    assert forall|i: int, j: int| 0 <= i < keys.len() && 0 <= j < keys.len() && i != j implies keys[i]
        != keys[j] by {
        assert(in_grid(s[i], p) && in_grid(s[j], p));
        if keys[i] == keys[j] {
            crate::regions::lemma_flat_index_injective(s[i], s[j], p);
        }
    }
    keys.unique_seq_to_set();
    assert(p * p >= 0) by (nonlinear_arith);
    vstd::set_lib::lemma_int_range(0, p * p);
    assert(keys.to_set().subset_of(vstd::set_lib::set_int_range(0, p * p))) by {
        assert forall|x: int| keys.to_set().contains(x) implies vstd::set_lib::set_int_range(
            0,
            p * p,
        ).contains(x) by {
            let i = choose|i: int| 0 <= i < keys.len() && keys[i] == x;
            assert(in_grid(s[i], p));
            crate::regions::lemma_flat_index_bound(s[i], p);
        }
    }
    vstd::set_lib::lemma_len_subset(keys.to_set(), vstd::set_lib::set_int_range(0, p * p));
}

/// The cells of the first `n` buckets of a valid index are cells of the
/// grid, none twice, so no more than the grid has.
pub proof fn lemma_cells_below(v: Seq<Seq<Location>>, k: int, p: int, n: nat)
    requires
        k >= 1,
        1 <= p <= 65536,
        buckets_valid(v, k, p),
        n <= v.len(),
    ensures
        cells_below(v, n).no_duplicates(),
        forall|i: int|
            0 <= i < cells_below(v, n).len() ==> in_grid(#[trigger] cells_below(v, n)[i], p)
                && bucket_index(cells_below(v, n)[i], k, p) < n,
        cells_below(v, n).len() <= p * p,
    decreases n,
{
    if n > 0 {
        let before = cells_below(v, (n - 1) as nat);
        let last = v[n - 1];
        let all = cells_below(v, n);
        lemma_cells_below(v, k, p, (n - 1) as nat);
        assert(last.no_duplicates());
        assert forall|i: int| 0 <= i < all.len() implies in_grid(#[trigger] all[i], p)
            && bucket_index(all[i], k, p) < n by {
            if i < before.len() {
                assert(all[i] == before[i]);
            } else {
                assert(all[i] == last[i - before.len()]);
                assert(in_grid(v[n - 1][i - before.len()], p));
            }
        }
        assert forall|i: int, j: int| 0 <= i < all.len() && 0 <= j < all.len() && i != j implies all[i]
            != all[j] by {
            if i < before.len() {
                assert(all[i] == before[i]);
                assert(bucket_index(before[i], k, p) < n - 1);
            } else {
                assert(all[i] == last[i - before.len()]);
                assert(bucket_index(v[n - 1][i - before.len()], k, p) == n - 1);
            }
            if j < before.len() {
                assert(all[j] == before[j]);
                assert(bucket_index(before[j], k, p) < n - 1);
            } else {
                assert(all[j] == last[j - before.len()]);
                assert(bucket_index(v[n - 1][j - before.len()], k, p) == n - 1);
            }
        }
        lemma_no_more_than_grid(all, p);
    } else {
        assert(p * p >= 0) by (nonlinear_arith);
    }
}

/// The total counts exactly the cells that the index holds: it is zero
/// where no bucket holds anything, and each cell counts once.
pub proof fn lemma_cell_total(v: Seq<Seq<Location>>, n: nat, l: Location)
    requires
        n <= v.len(),
    ensures
        cells_below(v, n).contains(l) <==> exists|i: int, j: int|
            0 <= i < n && 0 <= j < v[i].len() && #[trigger] v[i][j] == l,
        (forall|i: int| 0 <= i < n ==> (#[trigger] v[i]).len() == 0) <==> cells_below(v, n).len()
            == 0,
    decreases n,
{
    if n > 0 {
        let before = cells_below(v, (n - 1) as nat);
        let last = v[n - 1];
        let all = cells_below(v, n);
        lemma_cell_total(v, (n - 1) as nat, l);
        if all.contains(l) {
            let x = choose|x: int| 0 <= x < all.len() && all[x] == l;
            if x < before.len() {
                assert(before[x] == l);
                assert(before.contains(l));
            } else {
                assert(v[n - 1][x - before.len()] == l);
            }
        }
        if exists|i: int, j: int| 0 <= i < n && 0 <= j < v[i].len() && #[trigger] v[i][j] == l {
            let (i, j) = choose|i: int, j: int|
                0 <= i < n && 0 <= j < v[i].len() && #[trigger] v[i][j] == l;
            if i < n - 1 {
                assert(before.contains(l));
                let x = choose|x: int| 0 <= x < before.len() && before[x] == l;
                assert(all[x] == l);
            } else {
                assert(all[before.len() + j] == l);
            }
        }
        if cells_below(v, n).len() == 0 {
            assert forall|i: int| 0 <= i < n implies (#[trigger] v[i]).len() == 0 by {}
        }
    }
}

} // verus!
