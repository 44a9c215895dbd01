use vstd::prelude::*;
use crate::arith::lemma_div_at_least;
use crate::buckets::{
    axis_gap, bucket_index, bucket_of, bucket_start, buckets_valid, cell_total, cells_below,
    frontier_contains, is_candidate, is_vacant, lemma_bucket_index_parts, lemma_bucket_of_bounds,
    lemma_bucket_start_bounds, lemma_cells_below, lemma_with_consumed, lemma_with_inserted,
    lemma_with_removed, lower_bound, vacant_buckets, with_consumed, with_inserted, with_removed,
};
use crate::nearest::{
    is_nearest, is_visiting_order, lemma_nearest_is_closest, lemma_nearest_unique,
    lemma_scan_bucket_done, lemma_scan_complete, lemma_scan_improves, lemma_scan_keeps, nearest,
    scanned, visited,
};
use crate::regions::RegionMap;
use crate::sorting::{lemma_sorted_same_elements, sort_ranked, Ranked};
use crate::types::{in_grid, squared_distance, squared_location_distance, Location};
use crate::vec_set::{consumed, VecSet};

verus! {

/// The bucket of a covered coordinate along one axis.
fn axis_bucket(x: u16, k: usize, p: usize) -> (b: usize)
    requires
        k >= 1,
        1 <= p <= 65536,
        x < p,
    ensures
        b == bucket_of(x as int, k as int, p as int),
        b < k,
{
    proof {
        lemma_bucket_of_bounds(x as int, k as int, p as int);
        assert(0 <= x * k < 0x1_0000 * 0x1_0000_0000_0000_0000) by (nonlinear_arith)
            requires
                0 <= x < 0x1_0000,
                0 <= k < 0x1_0000_0000_0000_0000,
        ;
    }
    ((x as u128 * k as u128) / (p as u128)) as usize
}

/// The first coordinate of a bucket along one axis.
fn axis_start(i: usize, k: usize, p: usize) -> (s: u64)
    requires
        k >= 1,
        1 <= p <= 65536,
        i <= k,
    ensures
        s == bucket_start(i as int, k as int, p as int),
        s <= p,
{
    proof {
        lemma_bucket_start_bounds(i as int, k as int, p as int);
        assert(0 <= i * p <= 0x1_0000 * 0x1_0000_0000_0000_0000) by (nonlinear_arith)
            requires
                0 <= p <= 0x1_0000,
                0 <= i < 0x1_0000_0000_0000_0000,
        ;
    }
    ((i as u128 * p as u128 + (k as u128 - 1)) / (k as u128)) as u64
}

/// How far a coordinate lies outside a bucket along one axis.
fn axis_gap_of(t: u16, i: usize, k: usize, p: usize) -> (g: u64)
    requires
        k >= 1,
        1 <= p <= 65536,
        i < k,
    ensures
        g == axis_gap(t as int, i as int, k as int, p as int),
        g <= 65536,
{
    let start = axis_start(i, k, p);
    let next = axis_start(i + 1, k, p);
    let at = t as u64;
    proof {
        lemma_bucket_start_bounds(i as int, k as int, p as int);
    }
    if at < start {
        start - at
    } else if at >= next {
        at - next + 1
    } else {
        0
    }
}

/// A set of cells, kept in a square grid of buckets so that the cell
/// nearest to a target is found without looking at every cell.
pub struct Frontier {
    squares: Vec<VecSet>,
    square_size: usize,
    pixel_size: usize,
}

impl Frontier {
    /// The buckets, row by row, each in its iteration order.
    pub closed spec fn view(&self) -> Seq<Seq<Location>> {
        Seq::new(self.squares@.len(), |i: int| self.squares@[i]@)
    }

    /// Number of buckets along each axis.
    pub closed spec fn groups(&self) -> int {
        self.square_size as int
    }

    /// Number of coordinates that the index covers along each axis.
    pub closed spec fn extent(&self) -> int {
        self.pixel_size as int
    }

    /// Every bucket is a well-formed set and holds only cells it covers.
    pub closed spec fn wf(&self) -> bool {
        &&& self.square_size >= 1
        &&& 1 <= self.pixel_size <= 65535
        &&& buckets_valid(self@, self.square_size as int, self.pixel_size as int)
        &&& forall|i: int| 0 <= i < self.squares@.len() ==> (#[trigger] self.squares@[i]).wf()
    }

    /// What a well-formed index has: at least one bucket along each axis, a
    /// covered area that 16-bit coordinates can address and whose cells can
    /// be counted, and valid buckets.
    pub proof fn lemma_wf(&self)
        requires
            self.wf(),
        ensures
            self.groups() >= 1,
            1 <= self.extent() <= 65535,
            buckets_valid(self@, self.groups(), self.extent()),
    {
    }

    /// An index of `square_size` by `square_size` buckets over `pixel_size`
    /// by `pixel_size` cells, holding nothing. There is at least one bucket
    /// and one cell; the number of buckets fits a `usize`, and so does the
    /// number of cells on every machine, which a side of at most 65535
    /// makes sure of.
    pub fn new(square_size: usize, pixel_size: usize) -> (f: Frontier)
        requires
            square_size >= 1,
            1 <= pixel_size <= 65535,
            square_size * square_size <= usize::MAX,
        ensures
            f.wf(),
            f.groups() == square_size,
            f.extent() == pixel_size,
            f@ == vacant_buckets(square_size as int),
    {
        let total: usize = square_size * square_size;
        let mut squares: Vec<VecSet> = Vec::new();
        let mut i: usize = 0;
        while i < total
            invariant
                i <= total,
                squares@.len() == i,
                forall|j: int| 0 <= j < i ==> (#[trigger] squares@[j]).wf(),
                forall|j: int| 0 <= j < i ==> (#[trigger] squares@[j])@ == Seq::<Location>::empty(),
            decreases total - i,
        {
            squares.push(VecSet::new());
            i += 1;
        }
        let f = Frontier { squares, square_size, pixel_size };
        proof {
            assert(f@ =~= vacant_buckets(square_size as int));
        }
        f
    }

    /// An empty index of the same shape as `other`.
    pub fn new_like(other: &Frontier) -> (f: Frontier)
        requires
            other.wf(),
        ensures
            f.wf(),
            f.groups() == other.groups(),
            f.extent() == other.extent(),
            f@ == vacant_buckets(other.groups()),
    {
        proof {
            assert(other@.len() == other.squares@.len());
            assert(other.squares.len() <= usize::MAX);
        }
        Frontier::new(other.square_size, other.pixel_size)
    }

    /// Position of the bucket that covers a cell.
    fn square_index(&self, loc: &Location) -> (i: usize)
        requires
            self.wf(),
            in_grid(*loc, self.extent()),
        ensures
            i == bucket_index(*loc, self.groups(), self.extent()),
            i < self.squares@.len(),
    {
        let r = axis_bucket(loc.row, self.square_size, self.pixel_size);
        let c = axis_bucket(loc.col, self.square_size, self.pixel_size);
        proof {
            lemma_bucket_index_parts(*loc, self.square_size as int, self.pixel_size as int);
            assert(self@.len() == self.squares@.len());
            assert(self.squares.len() <= usize::MAX);
            assert(0 <= r * self.square_size <= r * self.square_size + c) by (nonlinear_arith)
                requires
                    r >= 0,
                    self.square_size >= 0,
                    c >= 0,
            ;
        }
        r * self.square_size + c
    }

    /// The bucket that covers a cell. A caller that changes the bucket
    /// keeps the index well formed by leaving in it a well-formed set of
    /// cells that the bucket covers.
    pub fn get_square_mut(&mut self, loc: &Location) -> (square: &mut VecSet)
        requires
            old(self).wf(),
            in_grid(*loc, old(self).extent()),
        ensures
            square@ == old(self)@[bucket_index(*loc, old(self).groups(), old(self).extent())],
            square.wf(),
            final(self).groups() == old(self).groups(),
            final(self).extent() == old(self).extent(),
            final(self)@ =~= old(self)@.update(
                bucket_index(*loc, old(self).groups(), old(self).extent()),
                final(square)@,
            ),
            final(square).wf() && buckets_valid(
                final(self)@,
                old(self).groups(),
                old(self).extent(),
            ) ==> final(self).wf(),
    {
        let i = self.square_index(loc);
        &mut self.squares[i]
    }

    /// Adds a cell of the covered area, unless the index holds it already.
    pub fn insert(&mut self, loc: Location)
        requires
            old(self).wf(),
            in_grid(loc, old(self).extent()),
        ensures
            final(self).wf(),
            final(self).groups() == old(self).groups(),
            final(self).extent() == old(self).extent(),
            final(self)@ == with_inserted(old(self)@, old(self).groups(), old(self).extent(), loc),
    {
        let i = self.square_index(&loc);
        self.squares[i].insert(loc);
        proof {
            let k = self.square_size as int;
            let p = self.pixel_size as int;
            assert(final(self)@ =~= with_inserted(old(self)@, k, p, loc));
            lemma_with_inserted(old(self)@, k, p, loc, loc);
        }
    }

    /// Takes over what `other` holds, bucket for bucket, but for the cells
    /// that `ignore` shows as assigned by now.
    pub fn consume(&mut self, other: Frontier, ignore: &RegionMap)
        requires
            old(self).wf(),
            other.wf(),
            ignore.wf(),
            other.groups() == old(self).groups(),
            other.extent() == old(self).extent(),
        ensures
            final(self).wf(),
            final(self).groups() == old(self).groups(),
            final(self).extent() == old(self).extent(),
            final(self)@ == with_consumed(old(self)@, other@, ignore@),
    {
        let ghost k = self.square_size as int;
        let ghost p = self.pixel_size as int;
        let mut rest = other.squares;
        proof {
            assert(other@.len() == other.squares@.len());
            assert(self@.len() == self.squares@.len());
        }
        while rest.len() > 0
            invariant
                old(self).wf(),
                other.wf(),
                ignore.wf(),
                self.square_size == old(self).square_size,
                self.pixel_size == old(self).pixel_size,
                k == self.square_size,
                p == self.pixel_size,
                other.groups() == k,
                other.extent() == p,
                self.squares@.len() == old(self).squares@.len(),
                other.squares@.len() == old(self).squares@.len(),
                rest@.len() <= other.squares@.len(),
                forall|i: int| 0 <= i < rest@.len() ==> rest@[i] == other.squares@[i],
                forall|i: int| 0 <= i < self.squares@.len() ==> (#[trigger] self.squares@[i]).wf(),
                forall|i: int|
                    0 <= i < rest@.len() ==> (#[trigger] self.squares@[i])@ == old(
                        self,
                    ).squares@[i]@,
                forall|i: int|
                    rest@.len() <= i < self.squares@.len() ==> (#[trigger] self.squares@[i])@
                        == consumed(old(self).squares@[i]@, other.squares@[i]@, ignore@),
            decreases rest@.len(),
        {
            let i = rest.len() - 1;
            let square = rest.pop().unwrap();
            proof {
                assert(square == other.squares@[i as int]);
                assert(other.squares@[i as int].wf());
            }
            self.squares[i].consume(square, ignore);
        }
        proof {
            assert(final(self)@ =~= with_consumed(old(self)@, other@, ignore@));
            lemma_with_consumed(old(self)@, other@, ignore@, k, p, Location { row: 0, col: 0 });
        }
    }

    /// The lower bound of a bucket for a target.
    fn bucket_lower_bound(&self, target: &Location, idx: usize) -> (b: u64)
        requires
            self.wf(),
            idx < self@.len(),
        ensures
            b == lower_bound(*target, idx as int, self.groups(), self.extent()),
            b <= 2 * 65536 * 65536,
    {
        let k = self.square_size;
        proof {
            lemma_div_at_least(idx as int, k as int, k as int);
        }
        let gr = axis_gap_of(target.row, idx / k, k, self.pixel_size);
        let gc = axis_gap_of(target.col, idx % k, k, self.pixel_size);
        proof {
            crate::arith::lemma_square_bound(gr as int, 65536);
            crate::arith::lemma_square_bound(gc as int, 65536);
        }
        gr * gr + gc * gc
    }

    /// The buckets in the order in which a search for the cell nearest to
    /// `target` visits them.
    fn ranked_buckets(&self, target: &Location) -> (order: Vec<Ranked>)
        requires
            self.wf(),
        ensures
            is_visiting_order(order@, self@.len() as int, *target, self.groups(), self.extent()),
    {
        let total = self.squares.len();
        let mut entries: Vec<Ranked> = Vec::new();
        let mut idx: usize = 0;
        while idx < total
            invariant
                self.wf(),
                total == self@.len(),
                idx <= total,
                entries@.len() == idx,
                forall|x: int|
                    0 <= x < idx ==> (#[trigger] entries@[x]).1 == x && entries@[x].0
                        == lower_bound(*target, x, self.groups(), self.extent()),
            decreases total - idx,
        {
            let bound = self.bucket_lower_bound(target, idx);
            entries.push((bound, idx));
            idx += 1;
        }
        let order = sort_ranked(&entries);
        proof {
            assert forall|x: int| 0 <= x < order@.len() implies 0 <= (#[trigger] order@[x]).1
                < total && order@[x].0 == lower_bound(
                *target,
                order@[x].1 as int,
                self.groups(),
                self.extent(),
            ) by {
                lemma_sorted_same_elements(entries@, order@[x]);
                assert(order@.contains(order@[x]));
                let y = choose|y: int| 0 <= y < entries@.len() && entries@[y] == order@[x];
                assert(entries@[y].1 == y);
            }
            assert forall|i: int| 0 <= i < total implies visited(
                order@,
                order@.len() as int,
                i,
            ) by {
                lemma_sorted_same_elements(entries@, entries@[i]);
                assert(entries@.contains(entries@[i]));
                let x = choose|x: int| 0 <= x < order@.len() && order@[x] == entries@[i];
                assert(order@[x].1 == i);
            }
        }
        order
    }

    /// Removes and returns the cell nearest to `target`, or returns `None`
    /// and changes nothing when the index holds no cell. Among cells at
    /// the same distance, the one in the bucket with the smallest lower
    /// bound leaves, then the one in the earliest bucket, then the earliest
    /// in its bucket.
    pub fn extract_nearest_neighbor(&mut self, target: &Location) -> (r: Option<Location>)
        requires
            old(self).wf(),
        ensures
            final(self).wf(),
            final(self).groups() == old(self).groups(),
            final(self).extent() == old(self).extent(),
            r is None <==> is_vacant(old(self)@),
            r is None ==> final(self)@ == old(self)@,
            r is Some ==> ({
                let c = nearest(old(self)@, old(self).groups(), old(self).extent(), *target);
                &&& is_nearest(old(self)@, old(self).groups(), old(self).extent(), *target, c)
                &&& r == Some(old(self)@[c.0][c.1])
                &&& final(self)@ == with_removed(old(self)@, c)
            }),
            forall|l: Location|
                r is Some && frontier_contains(old(self)@, l) ==> squared_distance(
                    *target,
                    r->0,
                ) <= squared_distance(*target, l),
    {
        let ghost v = self@;
        let ghost k = self.square_size as int;
        let ghost p = self.pixel_size as int;
        let order = self.ranked_buckets(target);
        let mut best: Option<(usize, usize)> = None;
        let mut best_distance: u64 = 0;
        let ghost mut best_pos: int = 0;
        let mut m: usize = 0;
        let mut pruned = false;
        proof {
            assert(self@.len() == self.squares@.len());
        }
        while m < order.len() && !pruned
            invariant
                self.wf(),
                self@ == v,
                self.square_size == k,
                self.pixel_size == p,
                v.len() == self.squares@.len(),
                is_visiting_order(order@, v.len() as int, *target, k, p),
                m <= order@.len(),
                scanned(v, k, p, *target, order@, m as int, -1, 0, best, best_distance, best_pos),
                pruned ==> best is Some && m < order@.len() && order@[m as int].0
                    >= best_distance,
            decreases order@.len() - m + (if pruned { 0int } else { 1int }),
        {
            let bound = order[m].0;
            let b = order[m].1;
            if best.is_some() && bound >= best_distance {
                pruned = true;
            } else {
                let n = self.squares[b].len();
                let mut j: usize = 0;
                proof {
                    assert(v[b as int] == self.squares@[b as int]@);
                }
                while j < n
                    invariant
                        self.wf(),
                        self@ == v,
                        self.square_size == k,
                        self.pixel_size == p,
                        v.len() == self.squares@.len(),
                        is_visiting_order(order@, v.len() as int, *target, k, p),
                        m < order@.len(),
                        b == order@[m as int].1,
                        b < v.len(),
                        n == v[b as int].len(),
                        v[b as int] == self.squares@[b as int]@,
                        j <= n,
                        scanned(
                            v,
                            k,
                            p,
                            *target,
                            order@,
                            m as int,
                            b as int,
                            j as int,
                            best,
                            best_distance,
                            best_pos,
                        ),
                    decreases n - j,
                {
                    let loc = self.squares[b].get(j);
                    let d = squared_location_distance(target, &loc);
                    let ghost c = (b as int, j as int);
                    proof {
                        assert(is_candidate(v, c));
                        assert(v[c.0][c.1] == loc);
                    }
                    if best.is_none() || d < best_distance {
                        proof {
                            lemma_scan_improves(
                                v,
                                k,
                                p,
                                *target,
                                order@,
                                m as int,
                                j as int,
                                best,
                                best_distance,
                                best_pos,
                            );
                        }
                        best = Some((b, j));
                        best_distance = d;
                        proof {
                            best_pos = m as int;
                        }
                    } else {
                        proof {
                            lemma_scan_keeps(
                                v,
                                k,
                                p,
                                *target,
                                order@,
                                m as int,
                                j as int,
                                best,
                                best_distance,
                                best_pos,
                            );
                        }
                    }
                    j += 1;
                }
                proof {
                    lemma_scan_bucket_done(
                        v,
                        k,
                        p,
                        *target,
                        order@,
                        m as int,
                        best,
                        best_distance,
                        best_pos,
                    );
                }
                m += 1;
            }
        }
        match best {
            None => {
                proof {
                    assert forall|i: int| 0 <= i < v.len() implies (#[trigger] v[i]).len() == 0 by {
                        assert(visited(order@, order@.len() as int, i));
                        if v[i].len() > 0 {
                            assert(is_candidate(v, (i, 0int)));
                        }
                    }
                }
                None
            },
            Some((b, j)) => {
                let ghost c = (b as int, j as int);
                proof {
                    lemma_scan_complete(
                        v,
                        k,
                        p,
                        *target,
                        order@,
                        m as int,
                        best,
                        best_distance,
                        best_pos,
                    );
                    lemma_nearest_unique(v, k, p, *target, c);
                    assert(v[c.0].len() > 0);
                    assert forall|l: Location| frontier_contains(v, l) implies squared_distance(
                        *target,
                        v[c.0][c.1],
                    ) <= squared_distance(*target, l) by {
                        lemma_nearest_is_closest(v, k, p, *target, c, l);
                    }
                    assert(v[b as int] == self.squares@[b as int]@);
                }
                let loc = self.squares[b].remove(j);
                proof {
                    assert(final(self)@ =~= with_removed(v, c));
                    lemma_with_removed(v, k, p, c, loc);
                }
                Some(loc)
            },
        }
    }

    /// Number of cells that the index holds.
    pub fn len(&self) -> (n: usize)
        requires
            self.wf(),
        ensures
            n == cell_total(self@),
    {
        let total = self.squares.len();
        let mut n: usize = 0;
        let mut i: usize = 0;
        proof {
            assert(self@.len() == self.squares@.len());
        }
        while i < total
            invariant
                self.wf(),
                total == self@.len(),
                total == self.squares@.len(),
                i <= total,
                n == cells_below(self@, i as nat).len(),
            decreases total - i,
        {
            proof {
                lemma_cells_below(
                    self@,
                    self.square_size as int,
                    self.pixel_size as int,
                    (i + 1) as nat,
                );
                let p = self.pixel_size as int;
                assert(p * p <= 65535 * 65535) by (nonlinear_arith)
                    requires
                        1 <= p <= 65535,
                ;
                assert(self@[i as int] == self.squares@[i as int]@);
            }
            n = n + self.squares[i].len();
            i += 1;
        }
        n
    }

    /// The cells that the index holds, bucket by bucket.
    pub fn locations(&self) -> (cells: Vec<Location>)
        requires
            self.wf(),
        ensures
            cells@ == cells_below(self@, self@.len()),
    {
        let total = self.squares.len();
        let mut cells: Vec<Location> = Vec::new();
        let mut i: usize = 0;
        proof {
            assert(self@.len() == self.squares@.len());
        }
        while i < total
            invariant
                total == self@.len(),
                total == self.squares@.len(),
                i <= total,
                cells@ == cells_below(self@, i as nat),
            decreases total - i,
        {
            let n = self.squares[i].len();
            let mut j: usize = 0;
            proof {
                assert(self@[i as int] == self.squares@[i as int]@);
            }
            while j < n
                invariant
                    i < total,
                    total == self.squares@.len(),
                    n == self.squares@[i as int]@.len(),
                    self@[i as int] == self.squares@[i as int]@,
                    j <= n,
                    cells@ == cells_below(self@, i as nat) + self@[i as int].take(j as int),
                decreases n - j,
            {
                cells.push(self.squares[i].get(j));
                proof {
                    assert(self@[i as int].take(j + 1) =~= self@[i as int].take(j as int).push(
                        self@[i as int][j as int],
                    ));
                    assert(cells@ =~= cells_below(self@, i as nat) + self@[i as int].take(j + 1));
                }
                j += 1;
            }
            proof {
                assert(self@[i as int].take(n as int) =~= self@[i as int]);
            }
            i += 1;
        }
        cells
    }

    /// Whether the index holds no cell.
    pub fn is_empty(&self) -> (r: bool)
        requires
            self.wf(),
        ensures
            r == is_vacant(self@),
    {
        let n = self.squares.len();
        let mut i: usize = 0;
        while i < n
            invariant
                i <= n,
                n == self.squares@.len(),
                forall|j: int| 0 <= j < i ==> (#[trigger] self@[j]).len() == 0,
            decreases n - i,
        {
            if !self.squares[i].is_empty() {
                proof {
                    assert(self@[i as int].len() != 0);
                }
                return false;
            }
            i += 1;
        }
        true
    }
}

} // verus!
