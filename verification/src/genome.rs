//! The three tour encodings and the operations every genome offers: length,
//! ranged crossover, point mutation, evaluation, reorder and optional repair.
use itertools::Itertools;
use vstd::prelude::*;
use vstd::seq_lib::*;
use vstd::arithmetic::mul::lemma_mul_inequality;

use crate::map::{
    dist_spec, dist_sq_spec, lemma_isqrt_monotone, lemma_open_cost_adjacent_swap,
    lemma_open_cost_bound, lemma_open_cost_concat, open_cost, pt_wf, pts_of, pts_wf,
    path_evaluate, path_reorder, open_cost_exec, Point, PointMap, DIST_BOUND, MAX_CITIES,
};
use crate::rnd::{rand_below, rand_index};

verus! {

/// The value of `a` after the `[start, end)` slice has been exchanged with
/// the same slice of `b`.
pub open spec fn spliced<T>(a: Seq<T>, b: Seq<T>, start: int, end: int) -> Seq<T> {
    a.take(start) + b.subrange(start, end) + a.skip(end)
}

/// Exchanges the `[start, end)` slice of the two buffers element for
/// element.
pub fn slice_crossover<T: Copy>(first: &mut Vec<T>, second: &mut Vec<T>, start: usize, end: usize)
    requires
        start <= end,
        end <= old(first)@.len(),
        old(first)@.len() == old(second)@.len(),
    ensures
        final(first)@ == spliced(old(first)@, old(second)@, start as int, end as int),
        final(second)@ == spliced(old(second)@, old(first)@, start as int, end as int),
{
    let mut i = start;
    while i < end
        invariant
            start <= i <= end,
            end <= first@.len(),
            first@.len() == old(first)@.len(),
            second@.len() == old(second)@.len(),
            old(first)@.len() == old(second)@.len(),
            forall|k: int| 0 <= k < start ==> first@[k] == old(first)@[k],
            forall|k: int| 0 <= k < start ==> second@[k] == old(second)@[k],
            forall|k: int| start <= k < i ==> first@[k] == old(second)@[k],
            forall|k: int| start <= k < i ==> second@[k] == old(first)@[k],
            forall|k: int| i <= k < first@.len() ==> first@[k] == old(first)@[k],
            forall|k: int| i <= k < second@.len() ==> second@[k] == old(second)@[k],
        decreases end - i,
    {
        let t = first[i];
        let s = second[i];
        first.set(i, s);
        second.set(i, t);
        i += 1;
    }
    proof {
        assert(first@ =~= spliced(old(first)@, old(second)@, start as int, end as int));
        assert(second@ =~= spliced(old(second)@, old(first)@, start as int, end as int));
    }
}

/// Crossover is an involution: exchanging the same `[start, end)` slice
/// twice restores both genomes to their original values.
pub proof fn lemma_crossover_involution<T>(a: Seq<T>, b: Seq<T>, start: int, end: int)
    requires
        0 <= start <= end <= a.len(),
        a.len() == b.len(),
    ensures
        spliced(spliced(a, b, start, end), spliced(b, a, start, end), start, end) == a,
        spliced(spliced(b, a, start, end), spliced(a, b, start, end), start, end) == b,
{
    assert(spliced(spliced(a, b, start, end), spliced(b, a, start, end), start, end) =~= a);
    assert(spliced(spliced(b, a, start, end), spliced(a, b, start, end), start, end) =~= b);
}

/// Rounded distance is symmetric.
pub proof fn lemma_dist_symm(a: Point, b: Point)
    ensures
        dist_spec(a, b) == dist_spec(b, a),
        dist_sq_spec(a, b) == dist_sq_spec(b, a),
{
    assert((a.x - b.x) * (a.x - b.x) == (b.x - a.x) * (b.x - a.x)) by (nonlinear_arith);
    assert((a.y - b.y) * (a.y - b.y) == (b.y - a.y) * (b.y - a.y)) by (nonlinear_arith);
}

/// The removal order a deletion-rank genome decodes to: element `i` of the
/// path removes the indicated point from a shrinking working copy of the
/// point list, and the single remaining point closes the order.
pub open spec fn rank_decode(path: Seq<usize>, pts: Seq<Point>) -> Seq<Point>
    decreases path.len(),
{
    if path.len() == 0 {
        pts
    } else {
        seq![pts[path[0] as int]] + rank_decode(path.drop_first(), pts.remove(path[0] as int))
    }
}

/// The per-locus shrinking domains keep every removal in bounds, so the
/// decoded order is as long as the point list and stays well formed.
pub proof fn lemma_rank_decode_wf(path: Seq<usize>, pts: Seq<Point>)
    requires
        forall|i: int| 0 <= i < path.len() ==> (#[trigger] path[i]) + i < path.len(),
        pts.len() == path.len() + 1,
        pts_wf(pts),
    ensures
        rank_decode(path, pts).len() == pts.len(),
        pts_wf(rank_decode(path, pts)),
    decreases path.len(),
{
    if path.len() > 0 {
        let rest = path.drop_first();
        let rem = pts.remove(path[0] as int);
        assert(forall|i: int| 0 <= i < rest.len() ==> (#[trigger] rest[i]) + i < rest.len());
        assert(pts_wf(rem));
        lemma_rank_decode_wf(rest, rem);
        let d = rank_decode(path, pts);
        assert(forall|i: int| 0 <= i < d.len() ==> pt_wf(#[trigger] d[i])) by {
            let inner = rank_decode(rest, rem);
            assert(forall|i: int| 1 <= i < d.len() ==> d[i] == inner[i - 1]);
        }
    }
}

/// The deletion-rank permutation encoding: locus `i` holds an index into a
/// working point list that shrinks by one at every step.
#[derive(Clone)]
pub struct RemovalIndex {
    path: Vec<usize>,
}

impl View for RemovalIndex {
    type V = Seq<usize>;

    closed spec fn view(&self) -> Seq<usize> {
        self.path@
    }
}

impl RemovalIndex {
    /// Every locus lies inside its shrinking domain.
    pub open spec fn wf(&self) -> bool {
        self@.len() < MAX_CITIES as int && forall|i: int|
            0 <= i < self@.len() ==> (#[trigger] self@[i]) + i < self@.len()
    }

    /// Loss of this genome on `pts`: the open cost of its decoded order,
    /// whose final edge returns to the single remaining point.
    pub open spec fn loss(&self, pts: Seq<Point>) -> int {
        open_cost(rank_decode(self@, pts))
    }

    /// A genome of uniformly random loci, one per removal step.
    pub fn new(map: &PointMap) -> (r: RemovalIndex)
        requires
            map.wf(),
            map@.len() >= 1,
        ensures
            r.wf(),
            r@.len() + 1 == map@.len(),
    {
        let n = map.size() - 1;
        let mut path: Vec<usize> = Vec::new();
        let mut i: usize = 0;
        while i < n
            invariant
                n < MAX_CITIES as int,
                i <= n,
                path@.len() == i,
                forall|k: int| 0 <= k < i ==> (#[trigger] path@[k]) + k < n,
            decreases n - i,
        {
            let v = rand_index(n - i);
            path.push(v);
            i += 1;
        }
        RemovalIndex { path }
    }

    /// The genome whose decoded order is the point list itself.
    pub fn in_order(map: &PointMap) -> (r: RemovalIndex)
        requires
            map.wf(),
            map@.len() >= 1,
        ensures
            r.wf(),
            r@.len() + 1 == map@.len(),
            forall|i: int| 0 <= i < r@.len() ==> (#[trigger] r@[i]) == 0,
    {
        let n = map.size() - 1;
        let mut path: Vec<usize> = Vec::new();
        let mut i: usize = 0;
        while i < n
            invariant
                n < MAX_CITIES as int,
                i <= n,
                path@.len() == i,
                forall|k: int| 0 <= k < i ==> (#[trigger] path@[k]) == 0,
            decreases n - i,
        {
            path.push(0);
            i += 1;
        }
        RemovalIndex { path }
    }

    /// Number of loci.
    pub fn len(&self) -> (r: usize)
        ensures
            r == self@.len(),
    {
        self.path.len()
    }

    /// The locus at `index`.
    pub fn locus(&self, index: usize) -> (r: usize)
        requires
            index < self@.len(),
        ensures
            r == self@[index as int],
    {
        self.path[index]
    }

    /// Overwrites one locus; the value must respect its shrinking domain.
    pub fn set_locus(&mut self, index: usize, value: usize)
        requires
            index < old(self)@.len(),
            value + index < old(self)@.len(),
        ensures
            final(self)@ == old(self)@.update(index as int, value),
    {
        self.path.set(index, value);
    }

    /// An exact copy.
    pub fn duplicate(&self) -> (r: RemovalIndex)
        ensures
            r@ == self@,
    {
        let mut path: Vec<usize> = Vec::new();
        let mut i: usize = 0;
        while i < self.path.len()
            invariant
                i <= self.path@.len(),
                path@ == self.path@.take(i as int),
            decreases self.path@.len() - i,
        {
            path.push(self.path[i]);
            i += 1;
        }
        proof {
            assert(self.path@.take(self.path@.len() as int) =~= self.path@);
        }
        RemovalIndex { path }
    }

    /// Exchanges the `[start, end)` slice of loci with `other`.
    pub fn crossover(&mut self, other: &mut RemovalIndex, start: usize, end: usize)
        requires
            start <= end,
            end <= old(self)@.len(),
            old(self)@.len() == old(other)@.len(),
        ensures
            final(self)@ == spliced(old(self)@, old(other)@, start as int, end as int),
            final(other)@ == spliced(old(other)@, old(self)@, start as int, end as int),
            old(self).wf() && old(other).wf() ==> final(self).wf() && final(other).wf(),
    {
        slice_crossover(&mut self.path, &mut other.path, start, end);
    }

    /// Redraws the locus at `index` uniformly within its shrinking domain.
    pub fn point_mutation(&mut self, index: usize)
        requires
            index < old(self)@.len(),
        ensures
            final(self)@.len() == old(self)@.len(),
            forall|k: int| 0 <= k < old(self)@.len() && k != index ==> final(self)@[k] == old(self)@[k],
            (final(self)@[index as int] as int) + index < old(self)@.len(),
            old(self).wf() ==> final(self).wf(),
    {
        let v = rand_index(self.path.len() - index);
        self.path.set(index, v);
    }

    /// Loss of the decoded order: repeatedly removes the indicated point
    /// from a working copy and sums the rounded distances of consecutive
    /// removals, closing with the edge to the single remaining point.
    /// Returns 0 when the genome does not match the map's size.
    pub fn evaluate(&self, map: &PointMap) -> (r: u64)
        requires
            self.wf(),
            map.wf(),
        ensures
            self@.len() + 1 == map@.len() ==> r as int == self.loss(map@),
            self@.len() + 1 != map@.len() ==> r == 0,
    {
        let n = self.path.len();
        if map.size() != n + 1 {
            return 0;
        }
        if n == 0 {
            return 0;
        }
        let mut cloned = map.clone_to_vec();
        let idx0 = self.path[0];
        let mut last = cloned.remove(idx0);
        let ghost full = rank_decode(self@, map@);
        let ghost mut visited = seq![map@[idx0 as int]];
        proof {
            lemma_rank_decode_wf(self@, map@);
            assert(self@.drop_first() =~= self@.skip(1));
            assert(full == visited + rank_decode(self@.skip(1), cloned@));
        }
        let mut total: u64 = 0;
        let mut i: usize = 1;
        while i < n
            invariant
                n == self@.len(),
                n + 1 == map@.len(),
                self.wf(),
                map.wf(),
                1 <= i <= n,
                cloned@.len() == map@.len() - i,
                pts_wf(cloned@),
                visited.len() == i,
                pts_wf(visited),
                last == visited.last(),
                full == rank_decode(self@, map@),
                full == visited + rank_decode(self@.skip(i as int), cloned@),
                total as int == open_cost(visited),
            decreases n - i,
        {
            let idx = self.path[i];
            proof {
                assert(self@[i as int] + i < n);
            }
            let ghost pre_cloned = cloned@;
            let current = cloned.remove(idx);
            let d = current.dist(&last);
            proof {
                lemma_open_cost_bound(visited);
                lemma_mul_inequality(visited.len() as int, MAX_CITIES as int, DIST_BOUND as int);
                lemma_dist_symm(current, last);
                let rest = self@.skip(i as int);
                assert(rest[0] == self@[i as int]);
                assert(rest.drop_first() =~= self@.skip(i + 1));
                assert(rank_decode(rest, pre_cloned) == seq![current]
                    + rank_decode(self@.skip(i + 1), cloned@));
                assert(visited + rank_decode(rest, pre_cloned)
                    =~= (visited + seq![current]) + rank_decode(self@.skip(i + 1), cloned@));
                lemma_open_cost_concat(visited, seq![current]);
                assert((visited + seq![current]).last() == current);
            }
            total = total + d;
            proof {
                visited = visited + seq![current];
            }
            last = current;
            i += 1;
        }
        proof {
            assert(self@.skip(n as int) =~= Seq::<usize>::empty());
            assert(rank_decode(self@.skip(n as int), cloned@) == cloned@);
            assert(cloned@.len() == 1);
            lemma_open_cost_bound(visited);
            lemma_mul_inequality(visited.len() as int, MAX_CITIES as int, DIST_BOUND as int);
            lemma_open_cost_concat(visited, cloned@);
            assert(open_cost(cloned@) == 0);
            lemma_dist_symm(last, cloned@[0]);
        }
        let closing = last.dist(&cloned[0]);
        total + closing
    }

    /// Permutes the map's points in place into the decoded visiting order.
    /// Leaves the map unchanged when the genome does not match its size.
    pub fn reorder(&self, map: &mut PointMap)
        requires
            self.wf(),
            old(map).wf(),
        ensures
            final(map)@.len() == old(map)@.len(),
            self@.len() + 1 == old(map)@.len() ==> final(map)@ == rank_decode(self@, old(map)@),
            self@.len() + 1 != old(map)@.len() ==> final(map)@ == old(map)@,
    {
        let n = self.path.len();
        if map.size() != n + 1 {
            return;
        }
        let mut cloned = map.clone_to_vec();
        let ghost full = rank_decode(self@, old(map)@);
        proof {
            lemma_rank_decode_wf(self@, old(map)@);
            assert(self@.skip(0) =~= self@);
            assert(map@.take(0) + rank_decode(self@, old(map)@) =~= rank_decode(
                self@, old(map)@));
        }
        let mut i: usize = 0;
        while i < n
            invariant
                n == self@.len(),
                n + 1 == old(map)@.len(),
                self.wf(),
                old(map).wf(),
                i <= n,
                cloned@.len() == old(map)@.len() - i,
                map@.len() == old(map)@.len(),
                full == rank_decode(self@, old(map)@),
                full.len() == old(map)@.len(),
                full == map@.take(i as int) + rank_decode(self@.skip(i as int), cloned@),
            decreases n - i,
        {
            let idx = self.path[i];
            proof {
                assert(self@[i as int] + i < n);
            }
            let ghost pre_cloned = cloned@;
            let ghost pre_map = map@;
            let p = cloned.remove(idx);
            map.set_point(i, p);
            proof {
                let rest = self@.skip(i as int);
                assert(rest[0] == self@[i as int]);
                assert(rest.drop_first() =~= self@.skip(i + 1));
                assert(rank_decode(rest, pre_cloned) == seq![p] + rank_decode(
                    self@.skip(i + 1), cloned@));
                assert(map@.take(i + 1) =~= pre_map.take(i as int) + seq![p]);
                assert(full =~= map@.take(i + 1) + rank_decode(self@.skip(i + 1), cloned@));
            }
            i += 1;
        }
        let p_last = cloned[0];
        map.set_point(n, p_last);
        proof {
            assert(self@.skip(n as int) =~= Seq::<usize>::empty());
            assert(rank_decode(self@.skip(n as int), cloned@) == cloned@);
            assert(cloned@.len() == 1);
            assert(map@ =~= full);
        }
    }
}

/// Granularity of a random key value: keys are drawn uniformly below this.
pub const KEY_ONE: u64 = 1_000_000_000_000;

/// Strict decode order between two city indices: by key value, ties broken
/// by index.
pub open spec fn key_lt(keys: Seq<u64>, a: int, b: int) -> bool {
    keys[a] < keys[b] || (keys[a] == keys[b] && a < b)
}

/// `v` occurs somewhere in `ord`.
pub open spec fn appears(ord: Seq<usize>, v: int) -> bool {
    exists|i: int| 0 <= i < ord.len() && (#[trigger] ord[i]) as int == v
}

/// `ord` lists every index of `keys` exactly once, in strictly ascending
/// (key value, index) order. At most one sequence satisfies this.
pub open spec fn is_key_order(keys: Seq<u64>, ord: Seq<usize>) -> bool {
    &&& ord.len() == keys.len()
    &&& forall|i: int| 0 <= i < ord.len() ==> (#[trigger] ord[i]) < keys.len()
    &&& forall|i: int, j: int|
        #![trigger ord[i], ord[j]]
        0 <= i < j < ord.len() ==> key_lt(keys, ord[i] as int, ord[j] as int)
    &&& forall|v: int| 0 <= v < keys.len() ==> #[trigger] appears(ord, v)
}

/// The decode order of a key sequence: city indices sorted ascending by key
/// value, ties broken by index.
pub open spec fn key_order(keys: Seq<u64>) -> Seq<usize> {
    choose|ord: Seq<usize>| is_key_order(keys, ord)
}

proof fn lemma_key_order_unique_prefix(keys: Seq<u64>, a: Seq<usize>, b: Seq<usize>, i: int)
    requires
        is_key_order(keys, a),
        is_key_order(keys, b),
        0 <= i <= a.len(),
    ensures
        forall|k: int| 0 <= k < i ==> a[k] == b[k],
    decreases i,
{
    if i > 0 {
        lemma_key_order_unique_prefix(keys, a, b, i - 1);
        let t = i - 1;
        let v = a[t] as int;
        assert(appears(b, v));
        let j = choose|j: int| 0 <= j < b.len() && (#[trigger] b[j]) as int == v;
        assert(0 <= j < b.len() && (b[j] as int) == v);
        if j < t {
            assert(a[j] == b[j]);
            assert(key_lt(keys, a[j] as int, a[t] as int));
            assert(false);
        } else if j > t {
            let w = b[t] as int;
            assert(appears(a, w));
            let j2 = choose|j2: int| 0 <= j2 < a.len() && (#[trigger] a[j2]) as int == w;
            assert(0 <= j2 < a.len() && (a[j2] as int) == w);
            if j2 < t {
                assert(a[j2] == b[j2]);
                assert(key_lt(keys, b[j2] as int, b[t] as int));
                assert(false);
            } else if j2 > t {
                assert(key_lt(keys, b[t] as int, b[j] as int));
                assert(key_lt(keys, a[t] as int, a[j2] as int));
                assert(false);
            }
        }
    }
}

/// The strictly ascending enumeration of a key sequence is unique.
pub proof fn lemma_key_order_unique(keys: Seq<u64>, a: Seq<usize>, b: Seq<usize>)
    requires
        is_key_order(keys, a),
        is_key_order(keys, b),
    ensures
        a == b,
{
    lemma_key_order_unique_prefix(keys, a, b, a.len() as int);
    assert(a =~= b);
}

/// Any witness of `is_key_order` is the decode order.
pub proof fn lemma_key_order_is(keys: Seq<u64>, ord: Seq<usize>)
    requires
        is_key_order(keys, ord),
    ensures
        key_order(keys) == ord,
        is_key_order(keys, key_order(keys)),
{
    assert(is_key_order(keys, key_order(keys))) by {
        assert(exists|o: Seq<usize>| is_key_order(keys, o)) by {
            assert(is_key_order(keys, ord));
        }
    }
    lemma_key_order_unique(keys, key_order(keys), ord);
}

/// Pairwise distinct key values: the generic position of a continuous
/// random-key genome.
pub open spec fn distinct_keys(keys: Seq<u64>) -> bool {
    forall|i: int, j: int|
        #![trigger keys[i], keys[j]]
        0 <= i < j < keys.len() ==> keys[i] != keys[j]
}

/// Exchanging the key values of two decode-adjacent cities exchanges
/// exactly their two positions in the decode order, when all key values
/// are distinct.
pub proof fn lemma_key_order_swap(keys: Seq<u64>, o: Seq<usize>, m: int)
    requires
        distinct_keys(keys),
        is_key_order(keys, o),
        0 <= m,
        m + 1 < o.len(),
    ensures
        ({
            let b = o[m] as int;
            let c = o[m + 1] as int;
            let nk = keys.update(b, keys[c]).update(c, keys[b]);
            &&& distinct_keys(nk)
            &&& is_key_order(nk, o.update(m, o[m + 1]).update(m + 1, o[m]))
        }),
{
    let b = o[m] as int;
    let c = o[m + 1] as int;
    assert(key_lt(keys, b, c));
    assert(b != c);
    let nk = keys.update(b, keys[c]).update(c, keys[b]);
    let no = o.update(m, o[m + 1]).update(m + 1, o[m]);
    assert forall|i: int, j: int|
        #![trigger o[i], o[j]]
        0 <= i < j < o.len() implies o[i] != o[j] by {
        assert(key_lt(keys, o[i] as int, o[j] as int));
    }
    assert forall|i: int| 0 <= i < no.len() implies nk[(#[trigger] no[i]) as int] == keys[
        o[i] as int] && (no[i] as int) < nk.len() by {
        if i != m && i != m + 1 {
            assert(o[i] != o[m] && o[i] != o[m + 1]);
        }
    }
    assert forall|i: int, j: int|
        #![trigger nk[i], nk[j]]
        0 <= i < j < nk.len() implies nk[i] != nk[j] by {
        let si: int = if i == b { c } else if i == c { b } else { i };
        let sj: int = if j == b { c } else if j == c { b } else { j };
        assert(nk[i] == keys[si] && nk[j] == keys[sj]);
        assert(si != sj);
        if si < sj {
            assert(keys[si] != keys[sj]);
        } else {
            assert(keys[sj] != keys[si]);
        }
    }
    assert forall|i: int, j: int|
        #![trigger no[i], no[j]]
        0 <= i < j < no.len() implies key_lt(nk, no[i] as int, no[j] as int) by {
        assert(key_lt(keys, o[i] as int, o[j] as int));
        assert(o[i] != o[j]);
        if (o[i] as int) < (o[j] as int) {
            assert(keys[o[i] as int] != keys[o[j] as int]);
        } else {
            assert(keys[o[j] as int] != keys[o[i] as int]);
        }
        assert(keys[o[i] as int] < keys[o[j] as int]);
        assert(nk[no[i] as int] == keys[o[i] as int]);
        assert(nk[no[j] as int] == keys[o[j] as int]);
    }
    assert forall|v: int| 0 <= v < nk.len() implies #[trigger] appears(no, v) by {
        assert(appears(o, v));
        let w = choose|w: int| 0 <= w < o.len() && (#[trigger] o[w]) as int == v;
        if w == m {
            assert(no[m + 1] == o[m]);
        } else if w == m + 1 {
            assert(no[m] == o[m + 1]);
        } else {
            assert(no[w] == o[w]);
        }
    }
}

/// Relies on itertools' Itertools::sorted over (key value, index) pairs,
/// which sorts ascending; the pairs are pairwise distinct, so the result is
/// the unique strictly ascending enumeration of the city indices.
#[verifier::external_body]
fn argsort(keys: &Vec<u64>) -> (r: Vec<usize>)
    ensures
        is_key_order(keys@, r@),
{
    let mut pairs: Vec<(u64, usize)> = Vec::with_capacity(keys.len());
    for (i, k) in keys.iter().enumerate() {
        pairs.push((*k, i));
    }
    pairs.into_iter().sorted().map(|p| p.1).collect()
}

/// Swapping two positions of a sequence keeps its multiset of values.
pub proof fn lemma_swap_to_multiset<T>(s: Seq<T>, x: int, y: int)
    requires
        0 <= x < s.len(),
        0 <= y < s.len(),
    ensures
        s.update(x, s[y]).update(y, s[x]).to_multiset() == s.to_multiset(),
{
    broadcast use vstd::seq_lib::group_to_multiset_ensures;

    let s1 = s.update(x, s[y]);
    let s2 = s1.update(y, s[x]);
    if x == y {
        assert(s2 =~= s);
    } else {
        assert(s.contains(s[x]));
        assert(s1[y] == s[y]);
        assert(s2.to_multiset() =~= s.to_multiset());
    }
}

/// The continuous random-key encoding: one key per city; the tour visits
/// the cities in ascending key order, as a closed cycle.
#[derive(Clone)]
pub struct RandomKeyPath {
    key: Vec<u64>,
}

impl View for RandomKeyPath {
    type V = Seq<u64>;

    closed spec fn view(&self) -> Seq<u64> {
        self.key@
    }
}

/// The tour a key sequence decodes to over `pts`.
pub open spec fn key_tour(keys: Seq<u64>, pts: Seq<Point>) -> Seq<Point> {
    pts_of(key_order(keys), pts)
}

/// Loss of a key genome: the closed-cycle cost of its decoded tour.
pub open spec fn key_loss(keys: Seq<u64>, pts: Seq<Point>) -> int {
    let t = key_tour(keys, pts);
    if t.len() < 2 {
        0
    } else {
        open_cost(t) + dist_spec(t.last(), t.first())
    }
}

/// The width-4 window of the decoded order starting at `j` cannot be
/// improved by exchanging its two middle positions.
pub open spec fn key_window_ok(keys: Seq<u64>, pts: Seq<Point>, j: int) -> bool {
    let o = key_order(keys);
    let cur = dist_spec(pts[o[j] as int], pts[o[j + 1] as int]) + dist_spec(
        pts[o[j + 2] as int], pts[o[j + 3] as int]);
    let alt = dist_spec(pts[o[j] as int], pts[o[j + 2] as int]) + dist_spec(
        pts[o[j + 1] as int], pts[o[j + 3] as int]);
    !(alt < cur)
}

/// A fixed point of the repair heuristic: no width-4 window improves, and
/// neither boundary check fires.
pub open spec fn key_locally_optimal(keys: Seq<u64>, pts: Seq<Point>) -> bool {
    let o = key_order(keys);
    let n = keys.len() as int;
    n < 3 || {
        &&& forall|j: int| 0 <= j && j + 3 < n ==> key_window_ok(keys, pts, j)
        &&& !(dist_sq_spec(pts[o[0] as int], pts[o[2] as int]) < dist_sq_spec(
            pts[o[1] as int], pts[o[2] as int]))
        &&& (n > 5 ==> !(dist_sq_spec(pts[o[n - 1] as int], pts[o[n - 3] as int])
            < dist_sq_spec(pts[o[n - 2] as int], pts[o[n - 3] as int])))
    }
}


/// One width-4 window check of a repair pass over the working
/// (keys, order) state: when exchanging the two middle cities of the
/// window shortens its paired edges, their key values and their two order
/// positions are exchanged.
pub open spec fn repair_window_step(
    state: (Seq<u64>, Seq<usize>),
    pts: Seq<Point>,
    j: int,
) -> (Seq<u64>, Seq<usize>) {
    let keys = state.0;
    let o = state.1;
    let cur = dist_spec(pts[o[j] as int], pts[o[j + 1] as int]) + dist_spec(
        pts[o[j + 2] as int], pts[o[j + 3] as int]);
    let alt = dist_spec(pts[o[j] as int], pts[o[j + 2] as int]) + dist_spec(
        pts[o[j + 1] as int], pts[o[j + 3] as int]);
    if alt < cur {
        (
            keys.update(o[j + 1] as int, keys[o[j + 2] as int]).update(o[j + 2] as int,
                keys[o[j + 1] as int]),
            o.update(j + 1, o[j + 2]).update(j + 2, o[j + 1]),
        )
    } else {
        state
    }
}

/// The remainder of one offset pass: windows walked in strides of three.
pub open spec fn repair_pass(
    state: (Seq<u64>, Seq<usize>),
    pts: Seq<Point>,
    j: int,
    n: int,
) -> (Seq<u64>, Seq<usize>)
    decreases n - j,
{
    if j + 3 < n {
        repair_pass(repair_window_step(state, pts, j), pts, j + 3, n)
    } else {
        state
    }
}

/// The remaining offset passes, for offsets `o` up to two.
pub open spec fn repair_passes(
    state: (Seq<u64>, Seq<usize>),
    pts: Seq<Point>,
    o: int,
    n: int,
) -> (Seq<u64>, Seq<usize>)
    decreases 3 - o,
{
    if o < 3 {
        repair_passes(repair_pass(state, pts, o, n), pts, o + 1, n)
    } else {
        state
    }
}

/// The start-anchor check: the first two decoded cities' keys are
/// exchanged when the first sits strictly closer to the third, by squared
/// distance; the working order is not updated.
pub open spec fn repair_start(state: (Seq<u64>, Seq<usize>), pts: Seq<Point>) -> (
    Seq<u64>,
    Seq<usize>,
) {
    let keys = state.0;
    let o = state.1;
    if dist_sq_spec(pts[o[0] as int], pts[o[2] as int]) < dist_sq_spec(pts[o[1] as int],
        pts[o[2] as int]) {
        (keys.update(o[0] as int, keys[o[1] as int]).update(o[1] as int, keys[o[0] as int]), o)
    } else {
        state
    }
}

/// The end-anchor check, made only past five cities: the last two decoded
/// cities' keys are exchanged when the last sits strictly closer to the
/// third-from-end, by squared distance.
pub open spec fn repair_end(state: (Seq<u64>, Seq<usize>), pts: Seq<Point>) -> (
    Seq<u64>,
    Seq<usize>,
) {
    let keys = state.0;
    let o = state.1;
    let n = o.len() as int;
    if n > 5 && dist_sq_spec(pts[o[n - 1] as int], pts[o[n - 3] as int]) < dist_sq_spec(
        pts[o[n - 2] as int], pts[o[n - 3] as int]) {
        (keys.update(o[n - 2] as int, keys[o[n - 1] as int]).update(o[n - 1] as int,
            keys[o[n - 2] as int]), o)
    } else {
        state
    }
}

/// The key values after the bounded local repair: three stride-3 window
/// passes over the decode order, then the two boundary checks; genomes of
/// fewer than three cities are untouched.
pub open spec fn repaired(keys: Seq<u64>, pts: Seq<Point>) -> Seq<u64> {
    if keys.len() < 3 {
        keys
    } else {
        let n = keys.len() as int;
        repair_end(repair_start(repair_passes((keys, key_order(keys)), pts, 0, n), pts),
            pts).0
    }
}

impl RandomKeyPath {
    /// The key genome carries one key per city of a well-formed map.
    pub open spec fn wf(&self) -> bool {
        self@.len() <= MAX_CITIES as int
    }

    /// A genome of uniformly random keys, one per city.
    pub fn new(map: &PointMap) -> (r: RandomKeyPath)
        requires
            map.wf(),
        ensures
            r.wf(),
            r@.len() == map@.len(),
            forall|k: int| 0 <= k < r@.len() ==> (#[trigger] r@[k]) < KEY_ONE,
    {
        let n = map.size();
        let mut key: Vec<u64> = Vec::new();
        let mut i: usize = 0;
        while i < n
            invariant
                i <= n,
                key@.len() == i,
                forall|k: int| 0 <= k < i ==> (#[trigger] key@[k]) < KEY_ONE,
            decreases n - i,
        {
            key.push(rand_below(KEY_ONE));
            i += 1;
        }
        RandomKeyPath { key }
    }

    /// A genome with the given keys.
    pub fn from_keys(key: Vec<u64>) -> (r: RandomKeyPath)
        requires
            key@.len() <= MAX_CITIES as int,
        ensures
            r.wf(),
            r@ == key@,
    {
        RandomKeyPath { key }
    }

    /// Number of keys.
    pub fn len(&self) -> (r: usize)
        ensures
            r == self@.len(),
    {
        self.key.len()
    }

    /// The key at `index`.
    pub fn key_at(&self, index: usize) -> (r: u64)
        requires
            index < self@.len(),
        ensures
            r == self@[index as int],
    {
        self.key[index]
    }

    /// An exact copy.
    pub fn duplicate(&self) -> (r: RandomKeyPath)
        ensures
            r@ == self@,
    {
        let mut key: Vec<u64> = Vec::new();
        let mut i: usize = 0;
        while i < self.key.len()
            invariant
                i <= self.key@.len(),
                key@ == self.key@.take(i as int),
            decreases self.key@.len() - i,
        {
            key.push(self.key[i]);
            i += 1;
        }
        proof {
            assert(self.key@.take(self.key@.len() as int) =~= self.key@);
        }
        RandomKeyPath { key }
    }

    /// Exchanges the `[start, end)` slice of keys with `other`.
    pub fn crossover(&mut self, other: &mut RandomKeyPath, start: usize, end: usize)
        requires
            start <= end,
            end <= old(self)@.len(),
            old(self)@.len() == old(other)@.len(),
        ensures
            final(self)@ == spliced(old(self)@, old(other)@, start as int, end as int),
            final(other)@ == spliced(old(other)@, old(self)@, start as int, end as int),
    {
        slice_crossover(&mut self.key, &mut other.key, start, end);
    }

    /// Redraws the key at `index` uniformly.
    pub fn point_mutation(&mut self, index: usize)
        requires
            index < old(self)@.len(),
        ensures
            final(self)@.len() == old(self)@.len(),
            forall|k: int| 0 <= k < old(self)@.len() && k != index ==> final(self)@[k] == old(self)@[k],
            final(self)@[index as int] < KEY_ONE,
    {
        let v = rand_below(KEY_ONE);
        self.key.set(index, v);
    }

    /// Loss of the decoded tour: sorts the cities by ascending key and sums
    /// the rounded distances around the closed cycle.
    pub fn evaluate(&self, map: &PointMap) -> (r: u64)
        requires
            map.wf(),
            self@.len() == map@.len(),
        ensures
            r as int == key_loss(self@, map@),
    {
        let ord = argsort(&self.key);
        proof {
            lemma_key_order_is(self@, ord@);
        }
        let open = path_evaluate(&ord, map);
        let n = ord.len();
        if n < 2 {
            return open;
        }
        let first = ord[0];
        let last = ord[n - 1];
        let closing = map.at(last).dist(&map.at(first));
        proof {
            let t = key_tour(self@, map@);
            assert(pts_wf(t));
            lemma_open_cost_bound(t);
            lemma_mul_inequality(t.len() as int, MAX_CITIES as int, DIST_BOUND as int);
            assert(t.last() == map@[ord@[n - 1] as int]);
            assert(t.first() == map@[ord@[0] as int]);
        }
        open + closing
    }

    /// Permutes the map's points in place into ascending key order.
    pub fn reorder(&self, map: &mut PointMap)
        requires
            old(map).wf(),
            self@.len() == old(map)@.len(),
        ensures
            final(map)@ == key_tour(self@, old(map)@),
    {
        let ord = argsort(&self.key);
        proof {
            lemma_key_order_is(self@, ord@);
        }
        path_reorder(&ord, map);
        proof {
            assert(map@ =~= key_tour(self@, old(map)@));
        }
    }

    /// Bounded local repair over the decoded tour: for three offset passes,
    /// every width-4 window of the key-sorted order is checked and its two
    /// middle cities' keys exchanged when that shortens the window; the two
    /// boundary checks then do the same for the tour's first and last pairs.
    /// Keys are only ever exchanged; a locally optimal genome is left
    /// unchanged, and with pairwise distinct keys the decoded open path
    /// never lengthens.
    pub fn fix(&mut self, map: &PointMap)
        requires
            map.wf(),
            old(self)@.len() == map@.len(),
        ensures
            final(self)@ == repaired(old(self)@, map@),
            final(self)@.len() == old(self)@.len(),
            final(self)@.to_multiset() == old(self)@.to_multiset(),
            key_locally_optimal(old(self)@, map@) ==> final(self)@ == old(self)@,
            distinct_keys(old(self)@) ==> open_cost(key_tour(final(self)@, map@)) <= open_cost(
                key_tour(old(self)@, map@)),
    {
        let n = self.key.len();
        if n < 3 {
            proof {
                assert(repaired(self@, map@) == self@);
            }
            return;
        }
        let mut order = argsort(&self.key);
        let ghost keys0 = self.key@;
        let ghost opt = key_locally_optimal(keys0, map@);
        let ghost dk = distinct_keys(keys0);
        let ghost tour0 = pts_of(key_order(keys0), map@);
        proof {
            lemma_key_order_is(keys0, order@);
            assert(repaired(keys0, map@) == repair_end(repair_start(repair_passes((keys0,
                key_order(keys0)), map@, 0, n as int), map@), map@).0);
        }
        let mut offset: usize = 0;
        while offset < 3
            invariant
                map.wf(),
                n == map@.len(),
                3 <= n <= MAX_CITIES as int,
                offset <= 3,
                self.key@.len() == n,
                keys0.len() == n,
                order@.len() == n,
                forall|k: int| 0 <= k < n ==> (#[trigger] order@[k]) < n,
                self.key@.to_multiset() == keys0.to_multiset(),
                dk == distinct_keys(keys0),
                tour0 == pts_of(key_order(keys0), map@),
                dk ==> distinct_keys(self.key@) && is_key_order(self.key@, order@)
                    && open_cost(pts_of(order@, map@)) <= open_cost(tour0),
                repair_end(repair_start(repair_passes((self.key@, order@), map@,
                    offset as int, n as int), map@), map@).0 == repaired(keys0, map@),
                opt == key_locally_optimal(keys0, map@),
                opt ==> self.key@ == keys0 && order@ == key_order(keys0),
            decreases 3 - offset,
        {
            proof {
                assert(repair_passes((self.key@, order@), map@, offset as int, n as int)
                    == repair_passes(repair_pass((self.key@, order@), map@, offset as int,
                        n as int), map@, offset as int + 1, n as int));
            }
            let mut j = offset;
            while j + 3 < n
                invariant
                    map.wf(),
                    n == map@.len(),
                    3 <= n <= MAX_CITIES as int,
                    j <= n,
                    self.key@.len() == n,
                    keys0.len() == n,
                    order@.len() == n,
                    forall|k: int| 0 <= k < n ==> (#[trigger] order@[k]) < n,
                    self.key@.to_multiset() == keys0.to_multiset(),
                    dk == distinct_keys(keys0),
                    tour0 == pts_of(key_order(keys0), map@),
                    dk ==> distinct_keys(self.key@) && is_key_order(self.key@, order@)
                        && open_cost(pts_of(order@, map@)) <= open_cost(tour0),
                    repair_end(repair_start(repair_passes(repair_pass((self.key@, order@),
                        map@, j as int, n as int), map@, offset as int + 1, n as int), map@),
                        map@).0 == repaired(keys0, map@),
                    opt == key_locally_optimal(keys0, map@),
                    opt ==> self.key@ == keys0 && order@ == key_order(keys0),
                decreases n - j,
            {
                let ghost st0 = (self.key@, order@);
                let a = order[j];
                let b = order[j + 1];
                let c = order[j + 2];
                let d = order[j + 3];
                let pa = map.at(a);
                let pb = map.at(b);
                let pc = map.at(c);
                let pd = map.at(d);
                let cur = pa.dist(&pb) + pc.dist(&pd);
                let alt = pa.dist(&pc) + pb.dist(&pd);
                if alt < cur {
                    proof {
                        if opt {
                            assert(key_window_ok(keys0, map@, j as int));
                            assert(false);
                        }
                    }
                    let ghost pre = self.key@;
                    let ghost pre_order = order@;
                    let kb = self.key[b];
                    let kc = self.key[c];
                    self.key.set(b, kc);
                    self.key.set(c, kb);
                    let ob = order[j + 1];
                    let oc = order[j + 2];
                    order.set(j + 1, oc);
                    order.set(j + 2, ob);
                    proof {
                        lemma_swap_to_multiset(pre, b as int, c as int);
                        if dk {
                            lemma_key_order_swap(pre, pre_order, j + 1);
                            assert(order@ =~= pre_order.update(j + 1, pre_order[j + 2]).update(
                                j + 2, pre_order[j + 1]));
                            let t = pts_of(pre_order, map@);
                            lemma_open_cost_adjacent_swap(t, j + 1);
                            assert(pts_of(order@, map@) =~= t.update(j + 1, t[j + 2]).update(
                                j + 2, t[j + 1]));
                            assert(t[j as int] == map@[a as int] && t[j + 1] == map@[b as int]
                                && t[j + 2] == map@[c as int] && t[j + 3] == map@[d as int]);
                            assert(open_cost(pts_of(order@, map@)) <= open_cost(t));
                        }
                    }
                }
                proof {
                    assert(repair_window_step(st0, map@, j as int).0 =~= self.key@);
                    assert(repair_window_step(st0, map@, j as int).1 =~= order@);
                    assert(repair_window_step(st0, map@, j as int) == (self.key@, order@));
                    assert(repair_pass(st0, map@, j as int, n as int) == repair_pass((
                        self.key@, order@), map@, j as int + 3, n as int));
                }
                j += 3;
            }
            proof {
                assert(repair_pass((self.key@, order@), map@, j as int, n as int) == (
                    self.key@, order@));
            }
            offset += 1;
        }
        proof {
            assert(repair_passes((self.key@, order@), map@, 3, n as int) == (self.key@,
                order@));
        }
        let ghost st_entry = (self.key@, order@);
        let ghost mut cur_ord = order@;
        let a0 = order[0];
        let a1 = order[1];
        let a2 = order[2];
        let anchor = map.at(a2);
        let cur0 = map.at(a1).dist_sq(&anchor);
        let alt0 = map.at(a0).dist_sq(&anchor);
        if alt0 < cur0 {
            proof {
                if opt {
                    assert(false);
                }
            }
            let ghost pre = self.key@;
            let k0 = self.key[a0];
            let k1 = self.key[a1];
            self.key.set(a0, k1);
            self.key.set(a1, k0);
            proof {
                lemma_swap_to_multiset(pre, a0 as int, a1 as int);
                if dk {
                    lemma_key_order_swap(pre, cur_ord, 0);
                    let t = pts_of(cur_ord, map@);
                    lemma_open_cost_adjacent_swap(t, 0);
                    lemma_isqrt_monotone(dist_sq_spec(map@[a0 as int], map@[a2 as int]) as nat,
                        dist_sq_spec(map@[a1 as int], map@[a2 as int]) as nat);
                    let next_ord = cur_ord.update(0, cur_ord[1]).update(1, cur_ord[0]);
                    assert(pts_of(next_ord, map@) =~= t.update(0, t[1]).update(1, t[0]));
                    assert(t[0] == map@[a0 as int] && t[1] == map@[a1 as int] && t[2] == map@[
                        a2 as int]);
                    assert(open_cost(pts_of(next_ord, map@)) <= open_cost(t));
                    cur_ord = next_ord;
                }
            }
        }
        proof {
            assert(repair_start(st_entry, map@).0 =~= self.key@);
            assert(repair_start(st_entry, map@).1 =~= order@);
            assert(repair_start(st_entry, map@) == (self.key@, order@));
        }
        let ghost st_mid = (self.key@, order@);
        if n > 5 {
            let z1 = order[n - 1];
            let z2 = order[n - 2];
            let z3 = order[n - 3];
            let anchor2 = map.at(z3);
            let cur2 = map.at(z2).dist_sq(&anchor2);
            let alt2 = map.at(z1).dist_sq(&anchor2);
            if alt2 < cur2 {
                proof {
                    if opt {
                        assert(false);
                    }
                }
                let ghost pre = self.key@;
                let kz1 = self.key[z1];
                let kz2 = self.key[z2];
                self.key.set(z2, kz1);
                self.key.set(z1, kz2);
                proof {
                    lemma_swap_to_multiset(pre, z2 as int, z1 as int);
                    if dk {
                        assert(cur_ord[n - 3] == order@[n - 3] && cur_ord[n - 2] == order@[
                            n - 2] && cur_ord[n - 1] == order@[n - 1]);
                        lemma_key_order_swap(pre, cur_ord, n - 2);
                        let t = pts_of(cur_ord, map@);
                        lemma_open_cost_adjacent_swap(t, n - 2);
                        lemma_isqrt_monotone(dist_sq_spec(map@[z1 as int],
                            map@[z3 as int]) as nat, dist_sq_spec(map@[z2 as int],
                            map@[z3 as int]) as nat);
                        lemma_dist_symm(map@[z3 as int], map@[z1 as int]);
                        lemma_dist_symm(map@[z3 as int], map@[z2 as int]);
                        let next_ord = cur_ord.update(n - 2, cur_ord[n - 1]).update(n - 1,
                            cur_ord[n - 2]);
                        assert(pts_of(next_ord, map@) =~= t.update(n - 2, t[n - 1]).update(
                            n - 1, t[n - 2]));
                        assert(t[n - 3] == map@[z3 as int] && t[n - 2] == map@[z2 as int]
                            && t[n - 1] == map@[z1 as int]);
                        assert(open_cost(pts_of(next_ord, map@)) <= open_cost(t));
                        cur_ord = next_ord;
                    }
                }
            }
        }
        proof {
            assert(repair_end(st_mid, map@).0 =~= self.key@);
            assert(repair_end(st_mid, map@).1 =~= order@);
            assert(repair_end(st_mid, map@) == (self.key@, order@));
            assert(self.key@ == repaired(keys0, map@));
            if dk {
                lemma_key_order_is(self.key@, cur_ord);
                assert(key_tour(self.key@, map@) == pts_of(cur_ord, map@));
                assert(key_tour(keys0, map@) == tour0);
            }
        }
    }
}

/// The point arrangement after applying the stored transpositions, two
/// indices at a time, to `pts`.
pub open spec fn apply_swaps(swaps: Seq<usize>, pts: Seq<Point>) -> Seq<Point>
    decreases swaps.len(),
{
    if swaps.len() < 2 {
        pts
    } else {
        let a = swaps[0] as int;
        let b = swaps[1] as int;
        apply_swaps(swaps.skip(2), pts.update(a, pts[b]).update(b, pts[a]))
    }
}

/// The fixed-length transposition-sequence encoding: pairs of indices
/// applied in order to the identity arrangement; evaluation sums the open
/// path over the result, with no closing edge.
#[derive(Clone)]
pub struct SwapPath {
    swaps: Vec<usize>,
    map_size: usize,
}

impl View for SwapPath {
    type V = Seq<usize>;

    closed spec fn view(&self) -> Seq<usize> {
        self.swaps@
    }
}

impl SwapPath {
    /// The size of the map this genome ranges over.
    pub closed spec fn spec_map_size(&self) -> int {
        self.map_size as int
    }

    /// Pairs of in-bounds indices over a non-empty, bounded map.
    pub open spec fn wf(&self) -> bool {
        &&& 1 <= self.spec_map_size() <= MAX_CITIES as int
        &&& self@.len() % 2 == 0
        &&& self@.len() <= 0x8000_0000
        &&& forall|i: int| 0 <= i < self@.len() ==> (#[trigger] self@[i]) < self.spec_map_size()
    }

    /// Loss of this genome on `pts`: the open cost of the arrangement its
    /// transpositions produce.
    pub open spec fn loss(&self, pts: Seq<Point>) -> int {
        open_cost(apply_swaps(self@, pts))
    }

    /// A genome of `swap_count` uniformly random transpositions.
    pub fn new(map: &PointMap, swap_count: usize) -> (r: SwapPath)
        requires
            map.wf(),
            map@.len() >= 1,
            swap_count <= 0x4000_0000,
        ensures
            r.wf(),
            r@.len() == 2 * swap_count,
            r.spec_map_size() == map@.len(),
    {
        let map_size = map.size();
        let n = 2 * swap_count;
        let mut swaps: Vec<usize> = Vec::new();
        let mut i: usize = 0;
        while i < n
            invariant
                n == 2 * swap_count,
                n <= 0x8000_0000,
                1 <= map_size,
                i <= n,
                swaps@.len() == i,
                forall|k: int| 0 <= k < i ==> (#[trigger] swaps@[k]) < map_size,
            decreases n - i,
        {
            swaps.push(rand_index(map_size));
            i += 1;
        }
        SwapPath { swaps, map_size }
    }

    /// Number of stored indices (twice the number of transpositions).
    pub fn len(&self) -> (r: usize)
        ensures
            r == self@.len(),
    {
        self.swaps.len()
    }

    /// The stored index at `index`.
    pub fn swap_at(&self, index: usize) -> (r: usize)
        requires
            index < self@.len(),
        ensures
            r == self@[index as int],
    {
        self.swaps[index]
    }

    /// The size of the map this genome ranges over.
    pub fn map_size(&self) -> (r: usize)
        ensures
            r == self.spec_map_size(),
    {
        self.map_size
    }

    /// An exact copy.
    pub fn duplicate(&self) -> (r: SwapPath)
        ensures
            r@ == self@,
            r.spec_map_size() == self.spec_map_size(),
    {
        let mut swaps: Vec<usize> = Vec::new();
        let mut i: usize = 0;
        while i < self.swaps.len()
            invariant
                i <= self.swaps@.len(),
                swaps@ == self.swaps@.take(i as int),
            decreases self.swaps@.len() - i,
        {
            swaps.push(self.swaps[i]);
            i += 1;
        }
        proof {
            assert(self.swaps@.take(self.swaps@.len() as int) =~= self.swaps@);
        }
        SwapPath { swaps, map_size: self.map_size }
    }

    /// Exchanges the `[start, end)` slice of indices with `other`.
    pub fn crossover(&mut self, other: &mut SwapPath, start: usize, end: usize)
        requires
            start <= end,
            end <= old(self)@.len(),
            old(self)@.len() == old(other)@.len(),
        ensures
            final(self)@ == spliced(old(self)@, old(other)@, start as int, end as int),
            final(other)@ == spliced(old(other)@, old(self)@, start as int, end as int),
            final(self).spec_map_size() == old(self).spec_map_size(),
            final(other).spec_map_size() == old(other).spec_map_size(),
            old(self).wf() && old(other).wf() && old(self).spec_map_size() == old(
                other).spec_map_size() ==> final(self).wf() && final(other).wf(),
    {
        slice_crossover(&mut self.swaps, &mut other.swaps, start, end);
    }

    /// Redraws one endpoint of one transposition uniformly over the map
    /// size.
    pub fn point_mutation(&mut self, index: usize)
        requires
            index < old(self)@.len(),
            old(self).wf(),
        ensures
            final(self)@.len() == old(self)@.len(),
            forall|k: int| 0 <= k < old(self)@.len() && k != index ==> final(self)@[k] == old(self)@[k],
            final(self).spec_map_size() == old(self).spec_map_size(),
            final(self).wf(),
    {
        let v = rand_index(self.map_size);
        self.swaps.set(index, v);
    }

    /// Loss of the arrangement the transpositions produce on a working
    /// copy: the open path cost, with no closing edge.
    pub fn evaluate(&self, map: &PointMap) -> (r: u64)
        requires
            self.wf(),
            map.wf(),
            self.spec_map_size() == map@.len(),
        ensures
            r as int == self.loss(map@),
    {
        let mut cloned = map.clone_to_vec();
        let n = self.swaps.len();
        let ghost full = apply_swaps(self@, map@);
        proof {
            assert(self@.skip(0) =~= self@);
        }
        let mut i: usize = 0;
        while i + 1 < n
            invariant
                self.wf(),
                map.wf(),
                n == self@.len(),
                self.spec_map_size() == map@.len(),
                i % 2 == 0,
                i <= n,
                cloned@.len() == map@.len(),
                pts_wf(cloned@),
                full == apply_swaps(self@, map@),
                full == apply_swaps(self@.skip(i as int), cloned@),
            decreases n - i,
        {
            let a = self.swaps[i];
            let b = self.swaps[i + 1];
            let ghost pre = cloned@;
            let pa = cloned[a];
            let pb = cloned[b];
            cloned.set(a, pb);
            cloned.set(b, pa);
            proof {
                let rest = self@.skip(i as int);
                assert(rest[0] == self@[i as int]);
                assert(rest[1] == self@[i + 1]);
                assert(rest.skip(2) =~= self@.skip(i + 2));
                assert(cloned@ == pre.update(a as int, pre[b as int]).update(
                    b as int, pre[a as int]));
            }
            i += 2;
        }
        proof {
            assert(self@.skip(i as int).len() < 2);
            assert(apply_swaps(self@.skip(i as int), cloned@) == cloned@);
        }
        open_cost_exec(&cloned)
    }

    /// Applies the stored transpositions directly to the live map.
    pub fn reorder(&self, map: &mut PointMap)
        requires
            self.wf(),
            old(map).wf(),
            self.spec_map_size() == old(map)@.len(),
        ensures
            final(map)@ == apply_swaps(self@, old(map)@),
    {
        let n = self.swaps.len();
        let ghost full = apply_swaps(self@, old(map)@);
        proof {
            assert(self@.skip(0) =~= self@);
        }
        let mut i: usize = 0;
        while i + 1 < n
            invariant
                self.wf(),
                n == self@.len(),
                self.spec_map_size() == old(map)@.len(),
                i % 2 == 0,
                i <= n,
                map@.len() == old(map)@.len(),
                full == apply_swaps(self@, old(map)@),
                full == apply_swaps(self@.skip(i as int), map@),
            decreases n - i,
        {
            let a = self.swaps[i];
            let b = self.swaps[i + 1];
            let ghost pre = map@;
            map.swap(a, b);
            proof {
                let rest = self@.skip(i as int);
                assert(rest[0] == self@[i as int]);
                assert(rest[1] == self@[i + 1]);
                assert(rest.skip(2) =~= self@.skip(i + 2));
                assert(map@ == pre.update(a as int, pre[b as int]).update(
                    b as int, pre[a as int]));
            }
            i += 2;
        }
        proof {
            assert(self@.skip(i as int).len() < 2);
            assert(apply_swaps(self@.skip(i as int), map@) == map@);
        }
    }
}

/// Widens a sequence of indices to the common gene value type.
pub open spec fn to_u64_seq(s: Seq<usize>) -> Seq<u64> {
    s.map(|_i: int, v: usize| v as u64)
}

/// Widening commutes with a slice exchange.
pub proof fn lemma_to_u64_spliced(a: Seq<usize>, b: Seq<usize>, s: int, e: int)
    requires
        0 <= s <= e <= a.len(),
        a.len() == b.len(),
    ensures
        to_u64_seq(spliced(a, b, s, e)) == spliced(to_u64_seq(a), to_u64_seq(b), s, e),
{
    assert(to_u64_seq(spliced(a, b, s, e)) =~= spliced(to_u64_seq(a), to_u64_seq(b), s, e));
}

/// One candidate tour, in any of the three encodings.
#[derive(Clone)]
pub enum Chromosome {
    Rank(RemovalIndex),
    Key(RandomKeyPath),
    Swap(SwapPath),
}

impl Chromosome {
    /// Well-formedness of the underlying encoding.
    pub open spec fn wf(&self) -> bool {
        match self {
            Chromosome::Rank(g) => g.wf(),
            Chromosome::Key(g) => g.wf(),
            Chromosome::Swap(g) => g.wf(),
        }
    }

    /// Length of the raw encoding.
    pub open spec fn glen(&self) -> int {
        match self {
            Chromosome::Rank(g) => g@.len() as int,
            Chromosome::Key(g) => g@.len() as int,
            Chromosome::Swap(g) => g@.len() as int,
        }
    }

    /// The raw encoding as one common sequence of gene values.
    pub open spec fn genes(&self) -> Seq<u64> {
        match self {
            Chromosome::Rank(g) => to_u64_seq(g@),
            Chromosome::Key(g) => g@,
            Chromosome::Swap(g) => to_u64_seq(g@),
        }
    }

    /// The genome is defined over a point sequence of this length.
    pub open spec fn matches_map(&self, pts: Seq<Point>) -> bool {
        match self {
            Chromosome::Rank(g) => g@.len() + 1 == pts.len(),
            Chromosome::Key(g) => g@.len() == pts.len(),
            Chromosome::Swap(g) => g.spec_map_size() == pts.len(),
        }
    }

    /// Two genomes use the same encoding, the same length and the same map
    /// size: the precondition of every pairwise operation.
    pub open spec fn compat(&self, other: &Chromosome) -> bool {
        self.glen() == other.glen() && match (self, other) {
            (Chromosome::Rank(_), Chromosome::Rank(_)) => true,
            (Chromosome::Key(_), Chromosome::Key(_)) => true,
            (Chromosome::Swap(a), Chromosome::Swap(b)) => a.spec_map_size() == b.spec_map_size(),
            _ => false,
        }
    }

    /// Loss of this genome on `pts`, per its encoding's decode rule.
    pub open spec fn loss(&self, pts: Seq<Point>) -> int {
        match self {
            Chromosome::Rank(g) => g.loss(pts),
            Chromosome::Key(g) => key_loss(g@, pts),
            Chromosome::Swap(g) => g.loss(pts),
        }
    }

    /// Length of the raw encoding.
    pub fn len(&self) -> (r: usize)
        ensures
            r == self.glen(),
    {
        match self {
            Chromosome::Rank(g) => g.len(),
            Chromosome::Key(g) => g.len(),
            Chromosome::Swap(g) => g.len(),
        }
    }

    /// An exact copy.
    pub fn duplicate(&self) -> (r: Chromosome)
        ensures
            r.compat(self),
            self.compat(&r),
            r.wf() == self.wf(),
            r.glen() == self.glen(),
            r.genes() == self.genes(),
            forall|pts: Seq<Point>| #[trigger] r.loss(pts) == self.loss(pts),
            forall|pts: Seq<Point>| #[trigger] r.matches_map(pts) == self.matches_map(pts),
            r is Key == *self is Key,
            r is Key ==> r->Key_0@ == self->Key_0@,
    {
        match self {
            Chromosome::Rank(g) => Chromosome::Rank(g.duplicate()),
            Chromosome::Key(g) => Chromosome::Key(g.duplicate()),
            Chromosome::Swap(g) => Chromosome::Swap(g.duplicate()),
        }
    }

    /// Exchanges the `[start, end)` slice of raw genes with `other`.
    pub fn crossover(&mut self, other: &mut Chromosome, start: usize, end: usize)
        requires
            old(self).compat(old(other)),
            start <= end,
            end <= old(self).glen(),
        ensures
            final(self).genes() == spliced(
                old(self).genes(), old(other).genes(), start as int, end as int),
            final(other).genes() == spliced(
                old(other).genes(), old(self).genes(), start as int, end as int),
            final(self).compat(final(other)),
            final(self).compat(old(self)),
            final(other).compat(old(other)),
            final(self).glen() == old(self).glen(),
            final(other).glen() == old(other).glen(),
            old(self).wf() && old(other).wf() ==> final(self).wf() && final(other).wf(),
            forall|pts: Seq<Point>| #[trigger] final(self).matches_map(pts)
                == old(self).matches_map(pts),
            forall|pts: Seq<Point>| #[trigger] final(other).matches_map(pts)
                == old(other).matches_map(pts),
    {
        match (self, other) {
            (Chromosome::Rank(a), Chromosome::Rank(b)) => {
                a.crossover(b, start, end);
                proof {
                    lemma_to_u64_spliced(old(self)->Rank_0@, old(other)->Rank_0@,
                        start as int, end as int);
                    lemma_to_u64_spliced(old(other)->Rank_0@, old(self)->Rank_0@,
                        start as int, end as int);
                }
            },
            (Chromosome::Key(a), Chromosome::Key(b)) => {
                a.crossover(b, start, end);
            },
            (Chromosome::Swap(a), Chromosome::Swap(b)) => {
                a.crossover(b, start, end);
                proof {
                    lemma_to_u64_spliced(old(self)->Swap_0@, old(other)->Swap_0@,
                        start as int, end as int);
                    lemma_to_u64_spliced(old(other)->Swap_0@, old(self)->Swap_0@,
                        start as int, end as int);
                }
            },
            _ => {
                proof {
                    assert(false);
                }
            },
        }
    }

    /// Redraws the gene at `index` uniformly within its encoding's domain.
    pub fn point_mutation(&mut self, index: usize)
        requires
            old(self).wf(),
            index < old(self).glen(),
        ensures
            final(self).wf(),
            final(self).compat(old(self)),
            final(self).glen() == old(self).glen(),
            forall|k: int| 0 <= k < old(self).glen() && k != index
                ==> final(self).genes()[k] == old(self).genes()[k],
            *old(self) is Key ==> final(self).genes()[index as int] < KEY_ONE,
            forall|pts: Seq<Point>| #[trigger] final(self).matches_map(pts)
                == old(self).matches_map(pts),
    {
        match self {
            Chromosome::Rank(g) => g.point_mutation(index),
            Chromosome::Key(g) => g.point_mutation(index),
            Chromosome::Swap(g) => g.point_mutation(index),
        }
    }

    /// Loss of this genome on the map, per its encoding's decode rule.
    pub fn evaluate(&self, map: &PointMap) -> (r: u64)
        requires
            self.wf(),
            map.wf(),
            self.matches_map(map@),
        ensures
            r as int == self.loss(map@),
    {
        match self {
            Chromosome::Rank(g) => g.evaluate(map),
            Chromosome::Key(g) => g.evaluate(map),
            Chromosome::Swap(g) => g.evaluate(map),
        }
    }

    /// Permutes the map's points in place into this genome's decoded
    /// visiting order.
    pub fn reorder(&self, map: &mut PointMap)
        requires
            self.wf(),
            old(map).wf(),
            self.matches_map(old(map)@),
        ensures
            *self is Rank ==> final(map)@ == rank_decode(self->Rank_0@, old(map)@),
            *self is Key ==> final(map)@ == key_tour(self->Key_0@, old(map)@),
            *self is Swap ==> final(map)@ == apply_swaps(self->Swap_0@, old(map)@),
    {
        match self {
            Chromosome::Rank(g) => g.reorder(map),
            Chromosome::Key(g) => g.reorder(map),
            Chromosome::Swap(g) => g.reorder(map),
        }
    }

    /// In-place self-repair: a bounded local search for the random-key
    /// encoding, a no-op for the other two.
    pub fn fix(&mut self, map: &PointMap)
        requires
            old(self).wf(),
            map.wf(),
            old(self).matches_map(map@),
        ensures
            final(self).wf(),
            final(self).compat(old(self)),
            final(self).glen() == old(self).glen(),
            final(self).matches_map(map@),
            forall|pts: Seq<Point>| #[trigger] final(self).matches_map(pts)
                == old(self).matches_map(pts),
            !(*old(self) is Key) ==> *final(self) == *old(self),
            *old(self) is Key ==> *final(self) is Key
                && final(self)->Key_0@ == repaired(old(self)->Key_0@, map@)
                && final(self)->Key_0@.to_multiset() == old(self)->Key_0@.to_multiset()
                && (key_locally_optimal(old(self)->Key_0@, map@)
                    ==> final(self)->Key_0@ == old(self)->Key_0@)
                && (distinct_keys(old(self)->Key_0@) ==> open_cost(key_tour(
                    final(self)->Key_0@, map@)) <= open_cost(key_tour(old(self)->Key_0@,
                    map@))),
    {
        match self {
            Chromosome::Key(g) => g.fix(map),
            _ => {},
        }
    }
}

/// A well-formed genome's raw length is bounded.
pub proof fn lemma_wf_glen_bound(g: &Chromosome)
    requires
        g.wf(),
    ensures
        0 <= g.glen() <= 0x8000_0000,
{
    match g {
        Chromosome::Rank(_) => {},
        Chromosome::Key(_) => {},
        Chromosome::Swap(_) => {},
    }
}

/// Decode/evaluate consistency: for every encoding, the genome's loss is
/// exactly the path cost of the arrangement `reorder` produces — the open
/// cost closed by the final edge for the deletion-rank order, the
/// closed-cycle cost for the random-key order, and the open cost for the
/// transposition order.
pub proof fn lemma_decode_evaluate_consistent(g: &Chromosome, pts: Seq<Point>)
    requires
        g.wf(),
        g.matches_map(pts),
    ensures
        *g is Rank ==> g.loss(pts) == open_cost(rank_decode(g->Rank_0@, pts)),
        *g is Key ==> g.loss(pts) == {
            let t = key_tour(g->Key_0@, pts);
            if t.len() < 2 {
                0
            } else {
                open_cost(t) + dist_spec(t.last(), t.first())
            }
        },
        *g is Swap ==> g.loss(pts) == open_cost(apply_swaps(g->Swap_0@, pts)),
{
}

} // verus!
