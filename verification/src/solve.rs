//! Baseline solvers: an exhaustive permutation search, a greedy
//! nearest-neighbor heuristic, and a branch-and-bound search pruned by a
//! nearest-neighbor lower bound. They supply reference lengths the driver
//! compares against the engine's running minimum.
use vstd::prelude::*;
use vstd::arithmetic::mul::lemma_mul_inequality;

use crate::genome::appears;
use crate::map::{
    dist_sq_spec, open_cost, pts_of, pts_wf, path_evaluate, Point, PointMap, DIST_BOUND,
    MAX_CITIES,
};

verus! {

/// Counts iterations of a search when enabled; a disabled counter ignores
/// every increment.
pub struct Counter {
    count: Option<u64>,
}

impl Counter {
    /// The held count, if counting.
    pub closed spec fn spec_count(&self) -> Option<u64> {
        self.count
    }

    /// A counter that counts, starting at zero.
    pub fn new() -> (r: Counter)
        ensures
            r.spec_count() == Some(0u64),
    {
        Counter { count: Some(0) }
    }

    /// A counter that ignores every increment.
    pub fn disabled() -> (r: Counter)
        ensures
            r.spec_count() is None,
    {
        Counter { count: None }
    }

    /// Adds one to the count when counting, saturating at the maximum.
    pub fn increment(&mut self)
        ensures
            old(self).spec_count() is None ==> final(self).spec_count() is None,
            old(self).spec_count() is Some ==> final(self).spec_count() == Some(
                if old(self).spec_count()->0 == u64::MAX {
                    u64::MAX
                } else {
                    (old(self).spec_count()->0 + 1) as u64
                }),
    {
        match &mut self.count {
            Some(inner) => {
                if *inner < u64::MAX {
                    *inner = *inner + 1;
                }
            },
            None => {},
        }
    }

    /// The count so far; zero when disabled.
    pub fn value(&self) -> (r: u64)
        ensures
            r == match self.spec_count() {
                Some(c) => c,
                None => 0u64,
            },
    {
        match &self.count {
            Some(inner) => *inner,
            None => 0,
        }
    }
}

/// The index the greedy heuristic picks among `points` from `from`: the
/// first index whose squared distance to `from` is minimal.
pub open spec fn nn_pick(points: Seq<Point>, from: Point) -> int
    decreases points.len(),
{
    if points.len() <= 1 {
        0
    } else {
        let rest = nn_pick(points.drop_last(), from);
        if dist_sq_spec(points.last(), from) < dist_sq_spec(points[rest], from) {
            points.len() - 1
        } else {
            rest
        }
    }
}

/// The greedy pick is in range.
pub proof fn lemma_nn_pick_range(points: Seq<Point>, from: Point)
    requires
        points.len() >= 1,
    ensures
        0 <= nn_pick(points, from) < points.len(),
    decreases points.len(),
{
    if points.len() > 1 {
        lemma_nn_pick_range(points.drop_last(), from);
    }
}

/// Total length of the greedy nearest-neighbor walk that starts at `from`
/// and always hops to the closest remaining point.
pub open spec fn greedy_cost(points: Seq<Point>, from: Point) -> int
    decreases points.len(),
{
    if points.len() == 0 {
        0
    } else {
        let p = nn_pick(points, from);
        let j: int = if 0 <= p < points.len() {
            p
        } else {
            0
        };
        dist_spec_at(points, j, from) + greedy_cost(points.remove(j), points[j])
    }
}

/// The distance from `points[j]` to `from`.
pub open spec fn dist_spec_at(points: Seq<Point>, j: int, from: Point) -> int {
    crate::map::dist_spec(points[j], from)
}

/// The greedy walk's cost is bounded.
pub proof fn lemma_greedy_bound(points: Seq<Point>, from: Point)
    requires
        pts_wf(points),
        crate::map::pt_wf(from),
    ensures
        0 <= greedy_cost(points, from) <= points.len() * DIST_BOUND as int,
    decreases points.len(),
{
    if points.len() > 0 {
        let j = nn_pick(points, from);
        lemma_nn_pick_range(points, from);
        crate::map::lemma_dist_bounds(points[j], from);
        assert(pts_wf(points.remove(j)));
        lemma_greedy_bound(points.remove(j), points[j]);
        assert((points.len() - 1) * DIST_BOUND as int + DIST_BOUND as int == points.len()
            * DIST_BOUND as int) by (nonlinear_arith);
    } else {
        assert(points.len() * DIST_BOUND as int == 0) by (nonlinear_arith)
            requires points.len() == 0;
    }
}

/// Length of the greedy nearest-neighbor walk over the map, starting at
/// its first point. The walk is an actual visiting order, so the result is
/// an upper bound on the optimal open tour.
pub fn nearest_neighbor(map: &PointMap) -> (r: u64)
    requires
        map.wf(),
        map@.len() >= 1,
    ensures
        r as int == greedy_cost(map@.drop_first(), map@[0]),
        exists|p: Seq<usize>| is_tour_perm(p, map@.len() as int) && r as int == open_cost(
            pts_of(p, map@)),
{
    let n0 = map.size();
    let mut cloned = map.clone_to_vec();
    let mut point = cloned.remove(0);
    let ghost full = greedy_cost(map@.drop_first(), map@[0]);
    let ghost mut chosen: Seq<usize> = seq![0usize];
    let ghost mut rem: Seq<usize> = Seq::new((n0 - 1) as nat, |i: int| (i + 1) as usize);
    let mut total: u64 = 0;
    proof {
        assert(cloned@ =~= map@.drop_first());
        lemma_greedy_bound(map@.drop_first(), map@[0]);
        lemma_mul_inequality(map@.drop_first().len() as int, MAX_CITIES as int,
            DIST_BOUND as int);
        assert(cloned@ =~= pts_of(rem, map@));
        assert forall|v: int| 0 <= v < n0 implies appears(chosen, v) || appears(rem, v) by {
            if v == 0 {
                assert(chosen[0] == 0usize);
            } else {
                assert(rem[v - 1] == v as usize);
            }
        }
    }
    while cloned.len() > 0
        invariant
            map.wf(),
            n0 == map@.len(),
            pts_wf(cloned@),
            crate::map::pt_wf(point),
            cloned@.len() <= MAX_CITIES as int,
            total as int + greedy_cost(cloned@, point) == full,
            0 <= full <= (MAX_CITIES as int) * DIST_BOUND as int,
            0 <= total,
            rem.len() == cloned@.len(),
            chosen.len() + rem.len() == n0,
            chosen.len() >= 1,
            forall|i: int| 0 <= i < rem.len() ==> (#[trigger] rem[i]) < n0,
            forall|i: int| 0 <= i < chosen.len() ==> (#[trigger] chosen[i]) < n0,
            cloned@ =~= pts_of(rem, map@),
            point == map@[chosen.last() as int],
            total as int == open_cost(pts_of(chosen, map@)),
            forall|v: int| 0 <= v < n0 ==> #[trigger] appears(chosen, v) || appears(rem, v),
        decreases cloned@.len(),
    {
        let n = cloned.len();
        let mut best: usize = 0;
        let mut j: usize = 1;
        while j < n
            invariant
                n == cloned@.len(),
                n >= 1,
                pts_wf(cloned@),
                crate::map::pt_wf(point),
                1 <= j <= n,
                best < j,
                best as int == nn_pick(cloned@.take(j as int), point),
            decreases n - j,
        {
            proof {
                assert(cloned@.take(j + 1).drop_last() =~= cloned@.take(j as int));
                assert(cloned@.take(j + 1).last() == cloned@[j as int]);
            }
            let dj = cloned[j].dist_sq(&point);
            let db = cloned[best].dist_sq(&point);
            if dj < db {
                best = j;
            }
            j += 1;
        }
        proof {
            assert(cloned@.take(n as int) =~= cloned@);
            lemma_greedy_bound(cloned@, point);
            crate::map::lemma_dist_bounds(cloned@[best as int], point);
            lemma_greedy_bound(cloned@.remove(best as int), cloned@[best as int]);
            lemma_mul_inequality(cloned@.len() as int - 1, MAX_CITIES as int, DIST_BOUND as int);
            lemma_mul_inequality(cloned@.len() as int, MAX_CITIES as int, DIST_BOUND as int);
        }
        let ghost city = rem[best as int];
        proof {
            crate::genome::lemma_dist_symm(map@[city as int], map@[chosen.last() as int]);
            crate::map::lemma_open_cost_concat(pts_of(chosen, map@), seq![map@[city as int]]);
            assert(pts_of(chosen, map@) + seq![map@[city as int]] =~= pts_of(chosen.push(
                city), map@));
            assert(pts_of(chosen, map@).last() == point);
        }
        let d = cloned[best].dist(&point);
        total = total + d;
        point = cloned.remove(best);
        proof {
            let ghost old_chosen = chosen;
            let ghost old_rem = rem;
            chosen = chosen.push(city);
            rem = rem.remove(best as int);
            assert(cloned@ =~= pts_of(rem, map@));
            assert forall|v: int| 0 <= v < n0 implies #[trigger] appears(chosen, v) || appears(
                rem, v) by {
                if appears(old_chosen, v) {
                    let w = choose|w: int| 0 <= w < old_chosen.len() && (#[trigger] old_chosen[
                        w]) as int == v;
                    assert(chosen[w] as int == v);
                } else {
                    assert(appears(old_rem, v));
                    let w = choose|w: int| 0 <= w < old_rem.len() && (#[trigger] old_rem[
                        w]) as int == v;
                    if w == best as int {
                        assert(chosen.last() as int == v);
                        assert(chosen[chosen.len() - 1] as int == v);
                    } else if w < best as int {
                        assert(rem[w] as int == v);
                    } else {
                        assert(rem[w - 1] as int == v);
                    }
                }
            }
        }
    }
    proof {
        assert(chosen.len() == n0);
        assert(is_tour_perm(chosen, n0 as int)) by {
            assert forall|v: int| 0 <= v < n0 implies #[trigger] appears(chosen, v) by {
                assert(appears(chosen, v) || appears(rem, v));
                if appears(rem, v) {
                    let w = choose|w: int| 0 <= w < rem.len() && (#[trigger] rem[w]) as int
                        == v;
                    assert(false);
                }
            }
        }
    }
    total
}

/// The identity visiting order over `n` points.
pub open spec fn identity_perm(n: nat) -> Seq<usize> {
    Seq::new(n, |i: int| i as usize)
}

/// `p` visits each of the `n` points exactly once.
pub open spec fn is_tour_perm(p: Seq<usize>, n: int) -> bool {
    &&& p.len() == n
    &&& forall|i: int| 0 <= i < p.len() ==> (#[trigger] p[i]) < n
    &&& forall|v: int| 0 <= v < n ==> #[trigger] appears(p, v)
}

/// A sequence with the identity's multiset of values is a permutation.
pub proof fn lemma_perm_from_multiset(p: Seq<usize>, n: int)
    requires
        0 <= n <= usize::MAX,
        p.to_multiset() == identity_perm(n as nat).to_multiset(),
    ensures
        is_tour_perm(p, n),
{
    broadcast use vstd::seq_lib::group_to_multiset_ensures;

    let idn = identity_perm(n as nat);
    assert(p.len() == n) by {
        assert(p.to_multiset().len() == idn.to_multiset().len());
    }
    assert forall|i: int| 0 <= i < p.len() implies (#[trigger] p[i]) < n by {
        assert(p.contains(p[i]));
        assert(p.to_multiset().count(p[i]) > 0);
        assert(idn.to_multiset().count(p[i]) > 0);
        assert(idn.contains(p[i]));
        let w = choose|w: int| 0 <= w < idn.len() && idn[w] == p[i];
        assert(idn[w] == w as usize);
    }
    assert forall|v: int| 0 <= v < n implies #[trigger] appears(p, v) by {
        assert(idn[v] == v as usize);
        assert(idn.contains(v as usize));
        assert(idn.to_multiset().count(v as usize) > 0);
        assert(p.to_multiset().count(v as usize) > 0);
        assert(p.contains(v as usize));
        let w = choose|w: int| 0 <= w < p.len() && (#[trigger] p[w]) == v as usize;
        assert(0 <= w < p.len() && (p[w] as int) == v);
    }
}

/// An exact copy of an index vector.
fn copy_indices(v: &Vec<usize>) -> (r: Vec<usize>)
    ensures
        r@ == v@,
{
    let mut r: Vec<usize> = Vec::new();
    let mut i: usize = 0;
    while i < v.len()
        invariant
            i <= v@.len(),
            r@ == v@.take(i as int),
        decreases v@.len() - i,
    {
        r.push(v[i]);
        i += 1;
    }
    proof {
        assert(v@.take(v@.len() as int) =~= v@);
    }
    r
}

/// A sequence with the identity's multiset of values is a duplicate-free
/// tour permutation.
pub proof fn lemma_identity_multiset_perm(p: Seq<usize>, n: int)
    requires
        0 <= n <= usize::MAX,
        p.to_multiset() == identity_perm(n as nat).to_multiset(),
    ensures
        p.len() == n,
        is_tour_perm(p, n),
        p.no_duplicates(),
{
    broadcast use vstd::seq_lib::group_to_multiset_ensures;

    let idn = identity_perm(n as nat);
    assert(idn.no_duplicates());
    idn.lemma_multiset_has_no_duplicates();
    assert(forall|x: usize| p.to_multiset().contains(x) ==> p.to_multiset().count(x) == 1);
    p.lemma_multiset_has_no_duplicates_conv();
    lemma_perm_from_multiset(p, n);
}

/// `p` begins with exactly the cities of `prefix`, in order.
pub open spec fn extends_order(p: Seq<usize>, prefix: Seq<usize>) -> bool {
    p.len() >= prefix.len() && p.take(prefix.len() as int) == prefix
}

/// One backtracking step of the exhaustive search: every unvisited city is
/// tried in increasing index order, with no pruning, so every tour
/// beginning with the current prefix is compared against the best.
fn brute_rec(
    points: &Vec<Point>,
    visited: &mut Vec<bool>,
    path: &mut Vec<usize>,
    last: Point,
    accumulated: u64,
    best: &mut u64,
    solution: &mut Vec<usize>,
    counter: &mut Counter,
)
    requires
        points@.len() == old(visited)@.len(),
        points@.len() <= MAX_CITIES,
        pts_wf(points@),
        crate::map::pt_wf(last),
        old(path)@.len() == count_true(old(visited)@),
        1 <= old(path)@.len(),
        forall|i: int| 0 <= i < old(path)@.len() ==> (#[trigger] old(path)@[i]) < points@.len(),
        forall|v: int| 0 <= v < points@.len() ==> (#[trigger] old(visited)@[v]) == old(
            path)@.contains(v as usize),
        accumulated as int == open_cost(pts_of(old(path)@, points@)),
        accumulated as int <= count_true(old(visited)@) * (DIST_BOUND as int),
        count_true(old(visited)@) <= points@.len(),
        last == points@[old(path)@.last() as int],
        is_tour_perm(old(solution)@, points@.len() as int),
        *old(best) as int == open_cost(pts_of(old(solution)@, points@)),
    ensures
        final(visited)@ == old(visited)@,
        final(path)@ == old(path)@,
        *final(best) <= *old(best),
        is_tour_perm(final(solution)@, points@.len() as int),
        *final(best) as int == open_cost(pts_of(final(solution)@, points@)),
        counter_advanced(old(counter).spec_count(), final(counter).spec_count()),
        forall|p: Seq<usize>|
            p.to_multiset() == identity_perm(points@.len() as nat).to_multiset()
                && #[trigger] extends_order(p, old(path)@) ==> *final(best) as int <= open_cost(
                pts_of(p, points@)),
    decreases points@.len() - count_true(old(visited)@),
{
    let n = points.len();
    let ghost entry_visited = visited@;
    let ghost entry_path = path@;
    let ghost entry_count = old(counter).spec_count();
    let k = path.len();
    let mut count: u64 = 0;
    let mut idx: usize = 0;
    proof {
        lemma_count_true_bounds(entry_visited);
        lemma_mul_inequality(count_true(entry_visited), MAX_CITIES as int, DIST_BOUND as int);
    }
    while idx < n
        invariant
            n == points@.len(),
            n == visited@.len(),
            n <= MAX_CITIES,
            pts_wf(points@),
            crate::map::pt_wf(last),
            idx <= n,
            visited@ == entry_visited,
            entry_visited == old(visited)@,
            path@ == entry_path,
            entry_path == old(path)@,
            k == entry_path.len(),
            k == count_true(entry_visited),
            1 <= k,
            forall|i: int| 0 <= i < entry_path.len() ==> (#[trigger] entry_path[i]) < n,
            forall|v: int| 0 <= v < n ==> (#[trigger] entry_visited[v]) == entry_path.contains(
                v as usize),
            accumulated as int == open_cost(pts_of(entry_path, points@)),
            accumulated as int <= count_true(entry_visited) * (DIST_BOUND as int),
            count_true(entry_visited) <= n,
            last == points@[entry_path.last() as int],
            is_tour_perm(solution@, n as int),
            *best as int == open_cost(pts_of(solution@, points@)),
            *best <= *old(best),
            counter_advanced(entry_count, counter.spec_count()),
            (count == 0) == (forall|i2: int| 0 <= i2 < idx ==> (#[trigger] entry_visited[
                i2])),
            forall|p: Seq<usize>|
                p.to_multiset() == identity_perm(n as nat).to_multiset() && #[trigger]
                    extends_order(p, entry_path) && p.len() > k && (p[k as int] as int) < idx
                ==> *best as int <= open_cost(pts_of(p, points@)),
        decreases n - idx,
    {
        if !visited[idx] {
            if count < u64::MAX {
                count = count + 1;
            }
            counter.increment();
            let p_pt = points[idx];
            let d = p_pt.dist(&last);
            proof {
                lemma_count_true_update(entry_visited, idx as int, true);
                lemma_count_true_bounds(entry_visited.update(idx as int, true));
                lemma_mul_inequality(count_true(entry_visited), MAX_CITIES as int,
                    DIST_BOUND as int);
                assert(count_true(entry_visited) * (DIST_BOUND as int) + DIST_BOUND as int == (
                    count_true(entry_visited) + 1) * (DIST_BOUND as int)) by (nonlinear_arith);
                lemma_mul_inequality(count_true(entry_visited) + 1, MAX_CITIES as int,
                    DIST_BOUND as int);
            }
            let new_acc = accumulated + d;
            let ghost grown = entry_path.push(idx);
            proof {
                assert(pts_of(grown, points@) =~= pts_of(entry_path, points@).push(points@[
                    idx as int]));
                crate::map::lemma_open_cost_concat(pts_of(entry_path, points@), seq![points@[
                    idx as int]]);
                crate::genome::lemma_dist_symm(points@[idx as int], last);
                assert(pts_of(entry_path, points@) + seq![points@[idx as int]] =~= pts_of(
                    grown, points@));
                assert(pts_of(entry_path, points@).last() == last);
                assert(new_acc as int == open_cost(pts_of(grown, points@)));
                assert forall|v: int| 0 <= v < n implies (#[trigger] entry_visited.update(
                    idx as int, true)[v]) == grown.contains(v as usize) by {
                    if v == idx {
                        assert(grown[grown.len() - 1] == idx);
                        assert(grown.contains(idx));
                    } else {
                        if entry_visited[v] {
                            let w = choose|w: int|
                                0 <= w < entry_path.len() && (#[trigger] entry_path[w])
                                    == v as usize;
                            assert(grown[w] == v as usize);
                        } else {
                            if grown.contains(v as usize) {
                                let w = choose|w: int|
                                    0 <= w < grown.len() && (#[trigger] grown[w])
                                        == v as usize;
                                assert(w < entry_path.len());
                                assert(entry_path.contains(v as usize));
                                assert(false);
                            }
                        }
                    }
                }
            }
            visited.set(idx, true);
            path.push(idx);
            brute_rec(points, visited, path, p_pt, new_acc, best, solution, counter);
            let popped = path.pop();
            visited.set(idx, false);
            proof {
                assert(visited@ =~= entry_visited);
                assert(path@ =~= entry_path);
                assert forall|p: Seq<usize>|
                    p.to_multiset() == identity_perm(n as nat).to_multiset() && #[trigger]
                        extends_order(p, entry_path) && p.len() > k && (p[k as int] as int)
                        < idx + 1 implies *best as int <= open_cost(pts_of(p, points@)) by {
                    if (p[k as int] as int) == idx {
                        assert(p.take(k as int + 1) =~= grown);
                        assert(extends_order(p, grown));
                    }
                }
            }
        } else {
            proof {
                assert forall|p: Seq<usize>|
                    p.to_multiset() == identity_perm(n as nat).to_multiset() && #[trigger]
                        extends_order(p, entry_path) && p.len() > k && (p[k as int] as int)
                        < idx + 1 implies *best as int <= open_cost(pts_of(p, points@)) by {
                    if (p[k as int] as int) == idx {
                        // a repeated city: impossible for a permutation
                        lemma_identity_multiset_perm(p, n as int);
                        assert(entry_visited[idx as int]);
                        assert(entry_path.contains(idx));
                        let w = choose|w: int|
                            0 <= w < entry_path.len() && (#[trigger] entry_path[w]) == idx;
                        assert(p.take(k as int)[w] == entry_path[w]);
                        assert(p[w] == p[k as int]);
                        assert(false);
                    }
                }
            }
        }
        idx += 1;
    }
    if count == 0 {
        proof {
            assert(forall|i2: int| 0 <= i2 < n ==> (#[trigger] entry_visited[i2]));
            lemma_count_true_all(entry_visited);
            assert(k == n);
            assert(is_tour_perm(entry_path, n as int)) by {
                assert forall|v: int| 0 <= v < n implies #[trigger] appears(entry_path, v) by {
                    assert(entry_visited[v]);
                    assert(entry_path.contains(v as usize));
                    let w = choose|w: int|
                        0 <= w < entry_path.len() && (#[trigger] entry_path[w]) == v as usize;
                    assert(0 <= w < entry_path.len() && (entry_path[w] as int) == v);
                }
            }
        }
        if accumulated < *best {
            *best = accumulated;
            let fresh = copy_indices(path);
            *solution = fresh;
        }
        proof {
            assert forall|p: Seq<usize>|
                p.to_multiset() == identity_perm(n as nat).to_multiset() && #[trigger]
                    extends_order(p, entry_path) implies *best as int <= open_cost(pts_of(p,
                    points@)) by {
                lemma_identity_multiset_perm(p, n as int);
                assert(p =~= entry_path);
            }
        }
    } else {
        proof {
            assert forall|p: Seq<usize>|
                p.to_multiset() == identity_perm(n as nat).to_multiset() && #[trigger]
                    extends_order(p, entry_path) implies *best as int <= open_cost(pts_of(p,
                    points@)) by {
                lemma_identity_multiset_perm(p, n as int);
                if p.len() == k {
                    assert(p =~= entry_path);
                    // a complete prefix leaves nothing unvisited, so the
                    // scan would have counted nothing
                    assert(count_true(entry_visited) == n);
                    lemma_count_true_saturated(entry_visited);
                    assert(false);
                } else {
                    let c = p[k as int] as int;
                    assert(p[k as int] < n);
                    assert(!entry_visited[c]) by {
                        if entry_visited[c] {
                            let w = choose|w: int|
                                0 <= w < entry_path.len() && (#[trigger] entry_path[w])
                                    == p[k as int];
                            assert(p.take(k as int)[w] == entry_path[w]);
                            assert(p[w] == p[k as int]);
                            assert(false);
                        }
                    }
                }
            }
        }
    }
}

/// Exhaustive search: tries every visiting order by a backtracking
/// extension over the cities in increasing index order (lexicographic
/// enumeration), and returns the best open order with its length: no
/// permutation of the cities yields a shorter open path.
pub fn brute_force(map: &PointMap, counter: &mut Counter) -> (r: (Vec<usize>, u64))
    requires
        map.wf(),
        map@.len() >= 1,
    ensures
        is_tour_perm(r.0@, map@.len() as int),
        r.1 as int == open_cost(pts_of(r.0@, map@)),
        r.1 as int <= open_cost(pts_of(identity_perm(map@.len()), map@)),
        counter_advanced(old(counter).spec_count(), final(counter).spec_count()),
        forall|p: Seq<usize>| p.to_multiset() == identity_perm(map@.len()).to_multiset()
            ==> r.1 as int <= open_cost(pts_of(p, map@)),
{
    let ghost entry_count = old(counter).spec_count();
    let n = map.size();
    let points = map.clone_to_vec();
    let mut solution: Vec<usize> = Vec::new();
    let mut i: usize = 0;
    while i < n
        invariant
            i <= n,
            solution@.len() == i,
            forall|m: int| 0 <= m < i ==> (#[trigger] solution@[m]) == m as usize,
        decreases n - i,
    {
        solution.push(i);
        i += 1;
    }
    proof {
        assert(solution@ =~= identity_perm(n as nat));
        lemma_perm_from_multiset(solution@, n as int);
    }
    let mut best = path_evaluate(&solution, map);
    let mut visited: Vec<bool> = Vec::new();
    let mut j: usize = 0;
    while j < n
        invariant
            j <= n,
            visited@.len() == j,
            count_true(visited@) == 0,
        decreases n - j,
    {
        let ghost pre = visited@;
        visited.push(false);
        proof {
            assert(visited@.drop_last() =~= pre);
        }
        j += 1;
    }
    let mut start: usize = 0;
    while start < n
        invariant
            n == map@.len(),
            1 <= n <= MAX_CITIES,
            map.wf(),
            points@ == map@,
            pts_wf(points@),
            n == points@.len(),
            n == visited@.len(),
            start <= n,
            count_true(visited@) == 0,
            is_tour_perm(solution@, n as int),
            best as int == open_cost(pts_of(solution@, map@)),
            best as int <= open_cost(pts_of(identity_perm(n as nat), map@)),
            counter_advanced(entry_count, counter.spec_count()),
            forall|p: Seq<usize>| p.to_multiset() == identity_perm(n as nat).to_multiset()
                && (#[trigger] p.to_multiset() == p.to_multiset()) && p.len() > 0
                && (p[0] as int) < start ==> best as int <= open_cost(pts_of(p, map@)),
        decreases n - start,
    {
        let ghost pre = visited@;
        proof {
            lemma_count_true_zero(pre);
        }
        visited.set(start, true);
        let mut path: Vec<usize> = Vec::new();
        path.push(start);
        let ghost root = seq![start];
        proof {
            lemma_count_true_update(pre, start as int, true);
            assert(path@ =~= root);
            assert forall|v: int| 0 <= v < n implies (#[trigger] visited@[v]) == root.contains(
                v as usize) by {
                if v == start {
                    assert(root[0] == start);
                    assert(root.contains(start));
                } else {
                    if root.contains(v as usize) {
                        let w = choose|w: int|
                            0 <= w < root.len() && (#[trigger] root[w]) == v as usize;
                        assert(false);
                    }
                }
            }
            assert(pts_of(root, points@).len() == 1);
            assert(open_cost(pts_of(root, points@)) == 0);
            assert(points@[root.last() as int] == points@[start as int]);
        }
        brute_rec(&points, &mut visited, &mut path, points[start], 0, &mut best,
            &mut solution, counter);
        visited.set(start, false);
        proof {
            assert(visited@ =~= pre);
            assert forall|p: Seq<usize>|
                p.to_multiset() == identity_perm(n as nat).to_multiset() && (#[trigger]
                    p.to_multiset() == p.to_multiset()) && p.len() > 0 && (p[0] as int)
                    < start + 1 implies best as int <= open_cost(pts_of(p, map@)) by {
                if (p[0] as int) == start {
                    assert(p.take(1) =~= root);
                    assert(extends_order(p, root));
                }
            }
        }
        start += 1;
    }
    proof {
        assert forall|p: Seq<usize>|
            p.to_multiset() == identity_perm(n as nat).to_multiset() implies best as int
            <= open_cost(pts_of(p, map@)) by {
            lemma_identity_multiset_perm(p, n as int);
            assert(p[0] < n);
        }
    }
    (solution, best)
}

/// The counter either stays disabled or does not decrease.
pub open spec fn counter_advanced(a: Option<u64>, b: Option<u64>) -> bool {
    (a is None && b is None) || (a is Some && b is Some && a->0 <= b->0)
}

/// Number of set flags in a visited array.
pub open spec fn count_true(s: Seq<bool>) -> int
    decreases s.len(),
{
    if s.len() == 0 {
        0
    } else {
        count_true(s.drop_last()) + if s.last() {
            1int
        } else {
            0int
        }
    }
}

/// The count of set flags is bounded by the length.
pub proof fn lemma_count_true_bounds(s: Seq<bool>)
    ensures
        0 <= count_true(s) <= s.len(),
    decreases s.len(),
{
    if s.len() > 0 {
        lemma_count_true_bounds(s.drop_last());
    }
}

/// Setting one flag changes the count by the difference of the two values.
pub proof fn lemma_count_true_update(s: Seq<bool>, i: int, b: bool)
    requires
        0 <= i < s.len(),
    ensures
        count_true(s.update(i, b)) == count_true(s) - (if s[i] { 1int } else { 0int }) + (
            if b { 1int } else { 0int }),
    decreases s.len(),
{
    let t = s.update(i, b);
    if i == s.len() - 1 {
        assert(t.drop_last() =~= s.drop_last());
    } else {
        assert(t.drop_last() =~= s.drop_last().update(i, b));
        lemma_count_true_update(s.drop_last(), i, b);
    }
}

/// No flag is set in an array whose count is zero.
pub proof fn lemma_count_true_zero(s: Seq<bool>)
    requires
        count_true(s) == 0,
    ensures
        forall|i: int| 0 <= i < s.len() ==> !(#[trigger] s[i]),
    decreases s.len(),
{
    if s.len() > 0 {
        lemma_count_true_bounds(s.drop_last());
        lemma_count_true_zero(s.drop_last());
        assert(forall|i: int| 0 <= i < s.len() - 1 ==> s[i] == s.drop_last()[i]);
    }
}

/// A full count means every flag is set.
pub proof fn lemma_count_true_saturated(s: Seq<bool>)
    requires
        count_true(s) == s.len(),
    ensures
        forall|i: int| 0 <= i < s.len() ==> (#[trigger] s[i]),
    decreases s.len(),
{
    if s.len() > 0 {
        lemma_count_true_bounds(s.drop_last());
        lemma_count_true_saturated(s.drop_last());
        assert(forall|i: int| 0 <= i < s.len() - 1 ==> s[i] == s.drop_last()[i]);
    }
}

/// An array of set flags counts its whole length.
pub proof fn lemma_count_true_all(s: Seq<bool>)
    requires
        forall|i: int| 0 <= i < s.len() ==> (#[trigger] s[i]),
    ensures
        count_true(s) == s.len(),
    decreases s.len(),
{
    if s.len() > 0 {
        assert(forall|i: int| 0 <= i < s.len() - 1 ==> s.drop_last()[i] == s[i]);
        lemma_count_true_all(s.drop_last());
    }
}

/// `value` is the rounded distance from point `k` to one of the other
/// points.
pub open spec fn dist_to_some_other(points: Seq<Point>, value: u64, k: int) -> bool {
    exists|j: int| 0 <= j < points.len() && j != k && value as int == dist_spec_at(points, j,
        points[k])
}

/// Each point's distance to its nearest other point: the per-city terms of
/// the branch-and-bound lower bound. Entry `k` is the exact minimum rounded
/// distance from point `k` to any other point.
fn nn_dists(points: &Vec<Point>) -> (r: Vec<u64>)
    requires
        points@.len() >= 2,
        pts_wf(points@),
    ensures
        r@.len() == points@.len(),
        forall|k: int| 0 <= k < r@.len() ==> (#[trigger] r@[k]) < DIST_BOUND,
        forall|k: int, j: int|
            #![trigger r@[k], points@[j]]
            0 <= k < r@.len() && 0 <= j < points@.len() && j != k
            ==> r@[k] as int <= dist_spec_at(points@, j, points@[k]),
        forall|k: int| 0 <= k < r@.len() ==> #[trigger] dist_to_some_other(points@, r@[k], k),
{
    let n = points.len();
    let mut r: Vec<u64> = Vec::new();
    let mut i: usize = 0;
    while i < n
        invariant
            n == points@.len(),
            n >= 2,
            pts_wf(points@),
            i <= n,
            r@.len() == i,
            forall|k: int| 0 <= k < i ==> (#[trigger] r@[k]) < DIST_BOUND,
            forall|k: int, j: int|
                #![trigger r@[k], points@[j]]
                0 <= k < i && 0 <= j < n && j != k
                ==> r@[k] as int <= dist_spec_at(points@, j, points@[k]),
            forall|k: int| 0 <= k < i ==> #[trigger] dist_to_some_other(points@, r@[k], k),
        decreases n - i,
    {
        let mut best: u64 = u64::MAX;
        let mut j: usize = 0;
        while j < n
            invariant
                n == points@.len(),
                n >= 2,
                pts_wf(points@),
                i < n,
                j <= n,
                best == u64::MAX || best < DIST_BOUND,
                (j as int) > (if i == 0 { 1int } else { 0int }) ==> best < DIST_BOUND,
                forall|m: int|
                    #![trigger points@[m]]
                    0 <= m < j && m != i
                    ==> best as int <= dist_spec_at(points@, m, points@[i as int]),
                best != u64::MAX ==> exists|m: int| 0 <= m < j && m != i
                    && best as int == dist_spec_at(points@, m, points@[i as int]),
            decreases n - j,
        {
            if j != i {
                let d = points[j].dist(&points[i]);
                if d < best {
                    best = d;
                    proof {
                        assert(best as int == dist_spec_at(points@, j as int, points@[
                            i as int]));
                    }
                }
            }
            j += 1;
        }
        proof {
            assert(best < DIST_BOUND);
        }
        let ghost pre_r = r@;
        r.push(best);
        proof {
            assert forall|k: int| 0 <= k < i + 1 implies #[trigger] dist_to_some_other(
                points@, r@[k], k) by {
                if k == i {
                    let m = choose|m: int|
                        0 <= m < n && m != i && best as int == dist_spec_at(points@, m,
                            points@[i as int]);
                    assert(r@[k] == best);
                    assert(0 <= m < n && m != k && (r@[k] as int) == dist_spec_at(points@, m,
                        points@[k]));
                } else {
                    assert(r@[k] == pre_r[k]);
                    assert(dist_to_some_other(points@, pre_r[k], k));
                }
            }
        }
        i += 1;
    }
    r
}

/// The sum of the nearest-neighbor terms of the unvisited cities below
/// `k`.
pub open spec fn unvisited_sum(nn: Seq<u64>, visited: Seq<bool>, k: int) -> int
    decreases k,
{
    if k <= 0 {
        0
    } else {
        unvisited_sum(nn, visited, k - 1) + if !visited[k - 1] {
            nn[k - 1] as int
        } else {
            0
        }
    }
}

/// The nearest-neighbor term of the first unvisited city below `k`, or
/// zero when every one is visited.
pub open spec fn first_unvisited_term(nn: Seq<u64>, visited: Seq<bool>, k: int) -> int
    decreases k,
{
    if k <= 0 {
        0
    } else {
        let p = first_unvisited_term(nn, visited, k - 1);
        if exists|m: int| 0 <= m < k - 1 && !(#[trigger] visited[m]) {
            p
        } else if !visited[k - 1] {
            nn[k - 1] as int
        } else {
            0
        }
    }
}

/// With every city below `k` visited, there is no first unvisited term.
proof fn lemma_first_unvisited_none(nn: Seq<u64>, visited: Seq<bool>, k: int)
    requires
        forall|m: int| 0 <= m < k ==> (#[trigger] visited[m]),
    ensures
        first_unvisited_term(nn, visited, k) == 0,
    decreases k,
{
    if k > 0 {
        lemma_first_unvisited_none(nn, visited, k - 1);
    }
}

/// The first unvisited term is one of the summed terms, or zero.
proof fn lemma_first_unvisited_le_sum(nn: Seq<u64>, visited: Seq<bool>, k: int)
    requires
        0 <= k <= nn.len(),
    ensures
        0 <= first_unvisited_term(nn, visited, k) <= unvisited_sum(nn, visited, k),
    decreases k,
{
    if k > 0 {
        lemma_first_unvisited_le_sum(nn, visited, k - 1);
    }
}

/// The branch-and-bound lower bound: the accumulated length plus each
/// still-unvisited city's nearest-neighbor distance, the first one
/// excepted.
fn lower_bound(nn: &Vec<u64>, visited: &Vec<bool>, accumulated: u64) -> (r: u64)
    requires
        nn@.len() == visited@.len(),
        nn@.len() <= MAX_CITIES,
        forall|k: int| 0 <= k < nn@.len() ==> (#[trigger] nn@[k]) < DIST_BOUND,
        accumulated as int <= (MAX_CITIES as int) * (DIST_BOUND as int),
    ensures
        accumulated <= r,
        r as int == accumulated as int + unvisited_sum(nn@, visited@, nn@.len() as int)
            - first_unvisited_term(nn@, visited@, nn@.len() as int),
{
    let n = nn.len();
    let mut total = accumulated;
    let mut skipped = false;
    let mut k: usize = 0;
    while k < n
        invariant
            n == nn@.len(),
            n == visited@.len(),
            n <= MAX_CITIES,
            forall|m: int| 0 <= m < n ==> (#[trigger] nn@[m]) < DIST_BOUND,
            k <= n,
            skipped ==> exists|m: int| 0 <= m < k && !(#[trigger] visited@[m]),
            !skipped ==> forall|m: int| 0 <= m < k ==> (#[trigger] visited@[m]),
            total as int == accumulated as int + unvisited_sum(nn@, visited@, k as int)
                - first_unvisited_term(nn@, visited@, k as int),
            total as int <= accumulated as int + (k as int) * (DIST_BOUND as int),
            accumulated as int <= (MAX_CITIES as int) * (DIST_BOUND as int),
        decreases n - k,
    {
        proof {
            assert((k as int) * (DIST_BOUND as int) + DIST_BOUND as int == (k as int + 1) * (
                DIST_BOUND as int)) by (nonlinear_arith);
            lemma_mul_inequality(k as int + 1, MAX_CITIES as int, DIST_BOUND as int);
        }
        if !visited[k] {
            if !skipped {
                skipped = true;
                proof {
                    lemma_first_unvisited_none(nn@, visited@, k as int);
                    assert(first_unvisited_term(nn@, visited@, k as int + 1) == nn@[
                        k as int] as int);
                }
            } else {
                total = total + nn[k];
            }
            proof {
                assert(0 <= k < k + 1 && !visited@[k as int]);
                assert(exists|m: int| 0 <= m < k + 1 && !(#[trigger] visited@[m]));
            }
        }
        k += 1;
    }
    proof {
        lemma_first_unvisited_le_sum(nn@, visited@, n as int);
    }
    total
}

/// The nearest-neighbor terms of the cities a tour visits from position
/// `j` on.
pub open spec fn tail_terms(nn: Seq<u64>, p: Seq<usize>, j: int) -> int
    decreases p.len() - j,
{
    if j < 0 || j >= p.len() {
        0
    } else {
        nn[p[j] as int] as int + tail_terms(nn, p, j + 1)
    }
}

/// The edges a tour walks from position `j` on.
pub open spec fn tail_edges(pts: Seq<Point>, p: Seq<usize>, j: int) -> int
    decreases p.len() - j,
{
    if j < 1 || j >= p.len() {
        0
    } else {
        crate::map::dist_spec(pts[p[j - 1] as int], pts[p[j] as int]) + tail_edges(pts, p,
            j + 1)
    }
}

/// An open tour's cost splits into its prefix cost and its remaining
/// edges.
pub proof fn lemma_cost_split(pts: Seq<Point>, p: Seq<usize>, j: int)
    requires
        1 <= j <= p.len(),
    ensures
        open_cost(pts_of(p, pts)) == open_cost(pts_of(p.take(j), pts)) + tail_edges(pts, p, j),
    decreases p.len() - j,
{
    if j == p.len() {
        assert(p.take(j) =~= p);
    } else {
        lemma_cost_split(pts, p, j + 1);
        assert(pts_of(p.take(j + 1), pts) =~= pts_of(p.take(j), pts) + seq![pts[
            p[j] as int]]);
        crate::map::lemma_open_cost_concat(pts_of(p.take(j), pts), seq![pts[p[j] as int]]);
        assert(pts_of(p.take(j), pts).last() == pts[p[j - 1] as int]);
    }
}

/// Each remaining edge enters its city, so it is at least that city's
/// nearest-neighbor distance.
pub proof fn lemma_edges_dominate_terms(
    pts: Seq<Point>,
    nn: Seq<u64>,
    p: Seq<usize>,
    j: int,
)
    requires
        nn.len() == pts.len(),
        1 <= j,
        forall|i: int| 0 <= i < p.len() ==> (#[trigger] p[i]) < pts.len(),
        forall|i: int, i2: int|
            #![trigger p[i], p[i2]]
            0 <= i < i2 < p.len() ==> p[i] != p[i2],
        forall|k2: int, j2: int|
            #![trigger nn[k2], pts[j2]]
            0 <= k2 < nn.len() && 0 <= j2 < pts.len() && j2 != k2 ==> nn[k2] as int
                <= dist_spec_at(pts, j2, pts[k2]),
    ensures
        tail_terms(nn, p, j) <= tail_edges(pts, p, j),
    decreases p.len() - j,
{
    if 1 <= j < p.len() {
        lemma_edges_dominate_terms(pts, nn, p, j + 1);
        assert(p[j - 1] != p[j]);
        assert(nn[p[j] as int] as int <= dist_spec_at(pts, p[j - 1] as int, pts[
            p[j] as int]));
    }
}

/// Setting one flag removes exactly that city's term from the sum.
pub proof fn lemma_unvisited_sum_update(nn: Seq<u64>, vis: Seq<bool>, c: int, k: int)
    requires
        0 <= c < vis.len(),
        k <= vis.len(),
    ensures
        unvisited_sum(nn, vis.update(c, true), k) == unvisited_sum(nn, vis, k) - (
            if c < k && !vis[c] { nn[c] as int } else { 0 }),
    decreases k,
{
    if k > 0 {
        lemma_unvisited_sum_update(nn, vis, c, k - 1);
        if k - 1 == c {
            assert(vis.update(c, true)[k - 1]);
        } else {
            assert(vis.update(c, true)[k - 1] == vis[k - 1]);
        }
    }
}

/// With every city visited, no term remains.
pub proof fn lemma_unvisited_sum_none(nn: Seq<u64>, vis: Seq<bool>, k: int)
    requires
        forall|m: int| 0 <= m < k ==> (#[trigger] vis[m]),
    ensures
        unvisited_sum(nn, vis, k) == 0,
    decreases k,
{
    if k > 0 {
        lemma_unvisited_sum_none(nn, vis, k - 1);
    }
}

/// A tour's remaining cities are exactly the unvisited ones, so their
/// nearest-neighbor terms sum to the unvisited sum.
pub proof fn lemma_tail_terms_are_unvisited(
    nn: Seq<u64>,
    vis: Seq<bool>,
    p: Seq<usize>,
    j: int,
)
    requires
        nn.len() == vis.len(),
        0 <= j <= p.len(),
        forall|i: int| 0 <= i < p.len() ==> (#[trigger] p[i]) < vis.len(),
        forall|i: int, i2: int|
            #![trigger p[i], p[i2]]
            0 <= i < i2 < p.len() ==> p[i] != p[i2],
        forall|v: int| 0 <= v < vis.len() ==> ((!(#[trigger] vis[v])) == exists|m: int|
            j <= m < p.len() && p[m] as int == v),
    ensures
        tail_terms(nn, p, j) == unvisited_sum(nn, vis, vis.len() as int),
    decreases p.len() - j,
{
    if j == p.len() {
        assert forall|m: int| 0 <= m < vis.len() implies (#[trigger] vis[m]) by {
            if !vis[m] {
                let w = choose|w: int| j <= w < p.len() && (#[trigger] p[w]) as int == m;
                assert(false);
            }
        }
        lemma_unvisited_sum_none(nn, vis, vis.len() as int);
    } else {
        let c = p[j] as int;
        assert(!vis[c]) by {
            assert(exists|m: int| j <= m < p.len() && (#[trigger] p[m]) as int == c) by {
                assert(j <= j < p.len() && p[j] as int == c);
            }
        }
        let vis2 = vis.update(c, true);
        assert forall|v: int| 0 <= v < vis2.len() implies ((!(#[trigger] vis2[v]))
            == exists|m: int| j + 1 <= m < p.len() && p[m] as int == v) by {
            if v == c {
                if exists|m: int| j + 1 <= m < p.len() && (#[trigger] p[m]) as int == v {
                    let w = choose|w: int|
                        j + 1 <= w < p.len() && (#[trigger] p[w]) as int == v;
                    assert(p[j] == p[w]);
                    assert(false);
                }
            } else {
                if !vis[v] {
                    let w = choose|w: int| j <= w < p.len() && (#[trigger] p[w]) as int == v;
                    assert(w != j);
                    assert(j + 1 <= w < p.len() && p[w] as int == v);
                } else {
                    if exists|m: int| j + 1 <= m < p.len() && (#[trigger] p[m]) as int == v {
                        let w = choose|w: int|
                            j + 1 <= w < p.len() && (#[trigger] p[w]) as int == v;
                        assert(exists|m: int| j <= m < p.len() && (#[trigger] p[m]) as int
                            == v);
                        assert(false);
                    }
                }
            }
        }
        lemma_tail_terms_are_unvisited(nn, vis2, p, j + 1);
        lemma_unvisited_sum_update(nn, vis, c, vis.len() as int);
    }
}

/// One backtracking extension step: tries every unvisited city from
/// `last`, pruning branches whose lower bound cannot beat the best length,
/// and records complete paths. The visited array is restored on return and
/// the best length never increases.
fn bnb_rec(
    points: &Vec<Point>,
    nn: &Vec<u64>,
    visited: &mut Vec<bool>,
    last: Point,
    accumulated: u64,
    path: Ghost<Seq<usize>>,
    min_dist: &mut u64,
    counter: &mut Counter,
)
    requires
        points@.len() == nn@.len(),
        points@.len() == old(visited)@.len(),
        points@.len() <= MAX_CITIES,
        pts_wf(points@),
        crate::map::pt_wf(last),
        forall|k: int| 0 <= k < nn@.len() ==> (#[trigger] nn@[k]) < DIST_BOUND,
        forall|k2: int, j2: int|
            #![trigger nn@[k2], points@[j2]]
            0 <= k2 < nn@.len() && 0 <= j2 < points@.len() && j2 != k2 ==> nn@[k2] as int
                <= dist_spec_at(points@, j2, points@[k2]),
        accumulated as int <= count_true(old(visited)@) * (DIST_BOUND as int),
        count_true(old(visited)@) <= points@.len(),
        path@.len() == count_true(old(visited)@),
        path@.len() >= 1,
        forall|i: int| 0 <= i < path@.len() ==> (#[trigger] path@[i]) < points@.len(),
        forall|v: int| 0 <= v < points@.len() ==> (#[trigger] old(visited)@[v])
            == path@.contains(v as usize),
        accumulated as int == open_cost(pts_of(path@, points@)),
        last == points@[path@.last() as int],
    ensures
        final(visited)@ == old(visited)@,
        *final(min_dist) <= *old(min_dist),
        counter_advanced(old(counter).spec_count(), final(counter).spec_count()),
        *final(min_dist) == *old(min_dist) || exists|p: Seq<usize>| is_tour_perm(p,
            points@.len() as int) && *final(min_dist) as int == open_cost(pts_of(p, points@)),
        count_true(old(visited)@) == points@.len() ==> *final(min_dist) == (
            if accumulated < *old(min_dist) { accumulated } else { *old(min_dist) }),
        forall|q: Seq<usize>| q.to_multiset() == identity_perm(points@.len() as nat).to_multiset()
            && #[trigger] extends_order(q, path@) ==> *final(min_dist) as int <= open_cost(
            pts_of(q, points@)),
    decreases points@.len() - count_true(old(visited)@),
{
    let n = points.len();
    let ghost entry_visited = visited@;
    let ghost entry_min = *min_dist;
    let ghost entry_count = old(counter).spec_count();
    let mut count: u64 = 0;
    let mut idx: usize = 0;
    proof {
        lemma_count_true_bounds(entry_visited);
        lemma_mul_inequality(count_true(entry_visited), MAX_CITIES as int, DIST_BOUND as int);
        if count_true(entry_visited) == n as int {
            lemma_count_true_saturated(entry_visited);
        }
    }
    while idx < n
        invariant
            n == points@.len(),
            n == nn@.len(),
            n == visited@.len(),
            n <= MAX_CITIES,
            pts_wf(points@),
            crate::map::pt_wf(last),
            forall|k: int| 0 <= k < nn@.len() ==> (#[trigger] nn@[k]) < DIST_BOUND,
            forall|k2: int, j2: int|
                #![trigger nn@[k2], points@[j2]]
                0 <= k2 < nn@.len() && 0 <= j2 < points@.len() && j2 != k2 ==> nn@[k2] as int
                    <= dist_spec_at(points@, j2, points@[k2]),
            idx <= n,
            visited@ == entry_visited,
            entry_visited == old(visited)@,
            *min_dist <= entry_min,
            accumulated as int <= count_true(entry_visited) * (DIST_BOUND as int),
            count_true(entry_visited) <= n,
            counter_advanced(entry_count, counter.spec_count()),
            count_true(entry_visited) == n ==> *min_dist == entry_min && count == 0,
            count_true(entry_visited) == n ==> forall|i2: int| 0 <= i2 < n
                ==> (#[trigger] entry_visited[i2]),
            path@.len() == count_true(entry_visited),
            path@.len() >= 1,
            forall|i: int| 0 <= i < path@.len() ==> (#[trigger] path@[i]) < n,
            forall|v: int| 0 <= v < n ==> (#[trigger] entry_visited[v]) == path@.contains(
                v as usize),
            accumulated as int == open_cost(pts_of(path@, points@)),
            last == points@[path@.last() as int],
            count == 0 ==> forall|i: int| 0 <= i < idx ==> (#[trigger] entry_visited[i]),
            *min_dist == entry_min || exists|p: Seq<usize>| is_tour_perm(p, n as int)
                && *min_dist as int == open_cost(pts_of(p, points@)),
            forall|q: Seq<usize>|
                q.to_multiset() == identity_perm(n as nat).to_multiset() && #[trigger]
                    extends_order(q, path@) && q.len() > path@.len()
                    && (q[path@.len() as int] as int) < idx ==> *min_dist as int <= open_cost(
                    pts_of(q, points@)),
        decreases n - idx,
    {
        if !visited[idx] {
            if count < u64::MAX {
                count = count + 1;
            }
            counter.increment();
            let p = points[idx];
            let d = p.dist(&last);
            proof {
                lemma_count_true_update(entry_visited, idx as int, true);
                lemma_count_true_bounds(entry_visited.update(idx as int, true));
                lemma_mul_inequality(count_true(entry_visited), MAX_CITIES as int,
                    DIST_BOUND as int);
                assert(count_true(entry_visited) * (DIST_BOUND as int) + DIST_BOUND as int == (
                    count_true(entry_visited) + 1) * (DIST_BOUND as int)) by (nonlinear_arith);
                lemma_mul_inequality(count_true(entry_visited) + 1, MAX_CITIES as int,
                    DIST_BOUND as int);
            }
            let new_acc = accumulated + d;
            let ghost grown = path@.push(idx);
            proof {
                assert(pts_of(grown, points@) =~= pts_of(path@, points@).push(
                    points@[idx as int]));
                crate::map::lemma_open_cost_concat(pts_of(path@, points@), seq![points@[
                    idx as int]]);
                crate::genome::lemma_dist_symm(points@[idx as int], last);
                assert(pts_of(path@, points@) + seq![points@[idx as int]] =~= pts_of(grown,
                    points@));
                assert(pts_of(path@, points@).last() == last);
                assert(new_acc as int == open_cost(pts_of(grown, points@)));
                assert forall|v: int| 0 <= v < n implies (#[trigger] entry_visited.update(
                    idx as int, true)[v]) == grown.contains(v as usize) by {
                    if v == idx {
                        assert(grown[grown.len() - 1] == idx);
                        assert(grown.contains(idx));
                    } else {
                        if entry_visited[v] {
                            let w = choose|w: int| 0 <= w < path@.len() && (#[trigger] path@[
                                w]) == v as usize;
                            assert(grown[w] == v as usize);
                        } else {
                            if grown.contains(v as usize) {
                                let w = choose|w: int| 0 <= w < grown.len() && (
                                    #[trigger] grown[w]) == v as usize;
                                assert(w < path@.len());
                                assert(path@.contains(v as usize));
                                assert(false);
                            }
                        }
                    }
                }
            }
            let ghost pre = visited@;
            visited.set(idx, true);
            proof {
                lemma_count_true_update(pre, idx as int, true);
                lemma_count_true_bounds(visited@);
            }
            let lb = lower_bound(nn, visited, new_acc);
            if lb < *min_dist {
                bnb_rec(points, nn, visited, p, new_acc, Ghost(grown), min_dist, counter);
                proof {
                    assert forall|q: Seq<usize>|
                        q.to_multiset() == identity_perm(n as nat).to_multiset() && #[trigger]
                            extends_order(q, path@) && q.len() > path@.len()
                            && (q[path@.len() as int] as int) == idx implies *min_dist as int
                        <= open_cost(pts_of(q, points@)) by {
                        assert(q.take(path@.len() as int + 1) =~= grown);
                        assert(extends_order(q, grown));
                    }
                }
            } else {
                proof {
                    // the bound is admissible: every completion of the
                    // grown prefix costs at least it, so nothing is lost
                    assert forall|q: Seq<usize>|
                        q.to_multiset() == identity_perm(n as nat).to_multiset() && #[trigger]
                            extends_order(q, path@) && q.len() > path@.len()
                            && (q[path@.len() as int] as int) == idx implies *min_dist as int
                        <= open_cost(pts_of(q, points@)) by {
                        lemma_identity_multiset_perm(q, n as int);
                        let plen = path@.len() as int;
                        assert(q.take(plen + 1) =~= grown);
                        let vis2 = entry_visited.update(idx as int, true);
                        assert forall|v: int| 0 <= v < n implies ((!(#[trigger] vis2[v]))
                            == exists|m: int| plen + 1 <= m < q.len() && q[m] as int == v) by {
                            if !vis2[v] {
                                assert(!grown.contains(v as usize));
                                assert(appears(q, v));
                                let w = choose|w: int|
                                    0 <= w < q.len() && (#[trigger] q[w]) as int == v;
                                if w < plen + 1 {
                                    assert(grown[w] == q[w]);
                                    assert(grown.contains(v as usize));
                                    assert(false);
                                }
                            } else {
                                if exists|m: int| plen + 1 <= m < q.len() && (#[trigger] q[
                                    m]) as int == v {
                                    let w = choose|w: int|
                                        plen + 1 <= w < q.len() && (#[trigger] q[w]) as int
                                            == v;
                                    assert(grown.contains(v as usize));
                                    let w2 = choose|w2: int|
                                        0 <= w2 < grown.len() && (#[trigger] grown[w2])
                                            == v as usize;
                                    assert(q[w2] == grown[w2]);
                                    assert(q[w2] == q[w]);
                                    assert(false);
                                }
                            }
                        }
                        lemma_cost_split(points@, q, plen + 1);
                        lemma_edges_dominate_terms(points@, nn@, q, plen + 1);
                        lemma_tail_terms_are_unvisited(nn@, vis2, q, plen + 1);
                        lemma_first_unvisited_le_sum(nn@, vis2, n as int);
                        assert(open_cost(pts_of(q.take(plen + 1), points@))
                            == new_acc as int);
                        assert(open_cost(pts_of(q, points@)) >= new_acc as int
                            + unvisited_sum(nn@, vis2, n as int) - first_unvisited_term(nn@,
                            vis2, n as int));
                    }
                }
            }
            visited.set(idx, false);
            proof {
                assert(visited@ =~= entry_visited);
            }
        } else {
            proof {
                assert forall|q: Seq<usize>|
                    q.to_multiset() == identity_perm(n as nat).to_multiset() && #[trigger]
                        extends_order(q, path@) && q.len() > path@.len()
                        && (q[path@.len() as int] as int) == idx implies *min_dist as int
                    <= open_cost(pts_of(q, points@)) by {
                    lemma_identity_multiset_perm(q, n as int);
                    assert(entry_visited[idx as int]);
                    assert(path@.contains(idx));
                    let w = choose|w: int|
                        0 <= w < path@.len() && (#[trigger] path@[w]) == idx;
                    assert(q.take(path@.len() as int)[w] == path@[w]);
                    assert(q[w] == q[path@.len() as int]);
                    assert(false);
                }
            }
        }
        idx += 1;
    }
    if count == 0 && accumulated < *min_dist {
        proof {
            assert(forall|i: int| 0 <= i < n ==> (#[trigger] entry_visited[i]));
            lemma_count_true_all(entry_visited);
            assert(path@.len() == n);
            assert(is_tour_perm(path@, n as int)) by {
                assert forall|v: int| 0 <= v < n implies #[trigger] appears(path@, v) by {
                    assert(entry_visited[v]);
                    assert(path@.contains(v as usize));
                    let w = choose|w: int| 0 <= w < path@.len() && (#[trigger] path@[w])
                        == v as usize;
                    assert(0 <= w < path@.len() && (path@[w] as int) == v);
                }
            }
        }
        *min_dist = accumulated;
    }
    proof {
        assert forall|q: Seq<usize>|
            q.to_multiset() == identity_perm(n as nat).to_multiset() && #[trigger]
                extends_order(q, path@) implies *min_dist as int <= open_cost(pts_of(q,
                points@)) by {
            lemma_identity_multiset_perm(q, n as int);
            if q.len() == path@.len() {
                assert(q =~= path@);
            } else {
                assert(q[path@.len() as int] < n);
            }
        }
    }
}

/// Branch-and-bound search over open paths, pruned by the nearest-neighbor
/// lower bound and seeded with the greedy heuristic's length. The bound is
/// admissible, so the result is optimal: no visiting order yields a
/// shorter open path.
pub fn branch_and_bound(map: &PointMap, counter: &mut Counter) -> (r: u64)
    requires
        map.wf(),
        map@.len() >= 1,
    ensures
        r as int <= greedy_cost(map@.drop_first(), map@[0]),
        counter_advanced(old(counter).spec_count(), final(counter).spec_count()),
        r as int == greedy_cost(map@.drop_first(), map@[0]) || exists|p: Seq<usize>|
            is_tour_perm(p, map@.len() as int) && r as int == open_cost(pts_of(p, map@)),
        forall|p: Seq<usize>| p.to_multiset() == identity_perm(map@.len()).to_multiset()
            ==> r as int <= open_cost(pts_of(p, map@)),
{
    let mut min_dist = nearest_neighbor(map);
    let ghost seed = min_dist;
    let n = map.size();
    if n < 2 {
        proof {
            assert(map@.drop_first().len() == 0);
            assert(min_dist == 0);
            assert forall|p: Seq<usize>|
                p.to_multiset() == identity_perm(map@.len()).to_multiset() implies
                min_dist as int <= open_cost(pts_of(p, map@)) by {
                lemma_identity_multiset_perm(p, n as int);
                crate::map::lemma_open_cost_bound(pts_of(p, map@));
                assert(pts_wf(pts_of(p, map@)));
            }
        }
        return min_dist;
    }
    let points = map.clone_to_vec();
    let nn = nn_dists(&points);
    let mut visited: Vec<bool> = Vec::new();
    let mut i: usize = 0;
    while i < n
        invariant
            i <= n,
            visited@.len() == i,
            count_true(visited@) == 0,
        decreases n - i,
    {
        let ghost pre = visited@;
        visited.push(false);
        proof {
            assert(visited@.drop_last() =~= pre);
        }
        i += 1;
    }
    let ghost entry_count = old(counter).spec_count();
    let mut start: usize = 0;
    while start < n
        invariant
            n == map@.len(),
            2 <= n <= MAX_CITIES,
            map.wf(),
            points@ == map@,
            pts_wf(points@),
            n == points@.len(),
            n == nn@.len(),
            n == visited@.len(),
            forall|k: int| 0 <= k < nn@.len() ==> (#[trigger] nn@[k]) < DIST_BOUND,
            forall|k2: int, j2: int|
                #![trigger nn@[k2], points@[j2]]
                0 <= k2 < nn@.len() && 0 <= j2 < points@.len() && j2 != k2 ==> nn@[k2] as int
                    <= dist_spec_at(points@, j2, points@[k2]),
            start <= n,
            count_true(visited@) == 0,
            min_dist as int <= greedy_cost(map@.drop_first(), map@[0]),
            seed as int == greedy_cost(map@.drop_first(), map@[0]),
            min_dist == seed || exists|p: Seq<usize>| is_tour_perm(p, n as int)
                && min_dist as int == open_cost(pts_of(p, map@)),
            counter_advanced(entry_count, counter.spec_count()),
            forall|p: Seq<usize>| p.to_multiset() == identity_perm(n as nat).to_multiset()
                && (#[trigger] p.to_multiset() == p.to_multiset()) && p.len() > 0
                && (p[0] as int) < start ==> min_dist as int <= open_cost(pts_of(p, map@)),
        decreases n - start,
    {
        let ghost pre = visited@;
        proof {
            lemma_count_true_zero(pre);
        }
        visited.set(start, true);
        let ghost root = seq![start];
        proof {
            lemma_count_true_update(pre, start as int, true);
            assert forall|v: int| 0 <= v < n implies (#[trigger] visited@[v]) == root.contains(
                v as usize) by {
                if v == start {
                    assert(root[0] == start);
                    assert(root.contains(start));
                } else {
                    if root.contains(v as usize) {
                        let w = choose|w: int| 0 <= w < root.len() && (#[trigger] root[w])
                            == v as usize;
                        assert(false);
                    }
                }
            }
            assert(pts_of(root, points@).len() == 1);
            assert(open_cost(pts_of(root, points@)) == 0);
            assert(points@[root.last() as int] == points@[start as int]);
        }
        bnb_rec(&points, &nn, &mut visited, points[start], 0, Ghost(root), &mut min_dist,
            counter);
        visited.set(start, false);
        proof {
            assert(visited@ =~= pre);
            assert forall|p: Seq<usize>|
                p.to_multiset() == identity_perm(n as nat).to_multiset() && (#[trigger]
                    p.to_multiset() == p.to_multiset()) && p.len() > 0 && (p[0] as int)
                    < start + 1 implies min_dist as int <= open_cost(pts_of(p, map@)) by {
                if (p[0] as int) == start {
                    assert(p.take(1) =~= root);
                    assert(extends_order(p, root));
                }
            }
        }
        start += 1;
    }
    proof {
        assert forall|p: Seq<usize>|
            p.to_multiset() == identity_perm(n as nat).to_multiset() implies min_dist as int
            <= open_cost(pts_of(p, map@)) by {
            lemma_identity_multiset_perm(p, n as int);
            assert(p[0] < n);
        }
    }
    min_dist
}

} // verus!
