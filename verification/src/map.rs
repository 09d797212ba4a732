//! 2-D points with integer coordinates, the point map, and the cost of a
//! visiting order.
//!
//! Distances are Euclidean lengths rounded down to an integer: the distance
//! between two points is `isqrt` of the exact squared distance. All tour
//! costs are sums of such distances and stay well below `u64::MAX` for any
//! well-formed map.
use vstd::prelude::*;

verus! {

/// Largest coordinate magnitude a well-formed point may carry.
pub const COORD_LIMIT: i64 = 1_000_000_000;

/// Largest number of points a well-formed map may hold.
pub const MAX_CITIES: usize = 1_000_000;

/// Strict upper bound on the rounded distance between two well-formed points:
/// the squared distance is at most 8e18 < DIST_BOUND^2.
pub const DIST_BOUND: u64 = 3_000_000_000;

/// Largest value `isqrt` accepts; every squared distance of well-formed
/// points is below it.
pub const MAX_SQ: u64 = 8_000_000_000_000_000_000;

#[derive(Clone, Copy, PartialEq, Eq, Structural)]
pub struct Point {
    pub x: i64,
    pub y: i64,
}

/// A point is well formed when both coordinates are bounded by `COORD_LIMIT`.
pub open spec fn pt_wf(p: Point) -> bool {
    -(COORD_LIMIT as int) <= p.x <= COORD_LIMIT as int
        && -(COORD_LIMIT as int) <= p.y <= COORD_LIMIT as int
}

/// Integer square root: the greatest `r` with `r * r <= n`.
pub open spec fn isqrt(n: nat) -> nat
    decreases n,
{
    if n == 0 {
        0
    } else {
        let p = isqrt((n - 1) as nat);
        if (p + 1) * (p + 1) <= n {
            p + 1
        } else {
            p
        }
    }
}

/// `isqrt(n)` is characterised by `r^2 <= n < (r+1)^2`.
pub proof fn lemma_isqrt_bounds(n: nat)
    ensures
        isqrt(n) * isqrt(n) <= n,
        n < (isqrt(n) + 1) * (isqrt(n) + 1),
    decreases n,
{
    let s = isqrt(n);
    if n == 0 {
        assert(s * s <= n && n < (s + 1) * (s + 1)) by (nonlinear_arith)
            requires s == 0, n == 0;
    } else {
        lemma_isqrt_bounds((n - 1) as nat);
        let p = isqrt((n - 1) as nat);
        assert(p * p <= n - 1);
        assert(n - 1 < (p + 1) * (p + 1));
        if (p + 1) * (p + 1) <= n {
            assert(s == p + 1);
            assert(s * s <= n && n < (s + 1) * (s + 1)) by (nonlinear_arith)
                requires s == p + 1, (p + 1) * (p + 1) <= n, n <= (p + 1) * (p + 1);
        } else {
            assert(s == p);
            assert(s * s <= n && n < (s + 1) * (s + 1)) by (nonlinear_arith)
                requires s == p, p * p <= n - 1, n < (p + 1) * (p + 1);
        }
    }
}

/// Two values satisfying the `isqrt` characterisation are equal.
pub proof fn lemma_isqrt_unique(n: nat, r: nat)
    requires
        r * r <= n,
        n < (r + 1) * (r + 1),
    ensures
        r == isqrt(n),
{
    lemma_isqrt_bounds(n);
    let s = isqrt(n);
    if r < s {
        assert((r + 1) * (r + 1) <= s * s) by (nonlinear_arith)
            requires r + 1 <= s;
    }
    if s < r {
        assert((s + 1) * (s + 1) <= r * r) by (nonlinear_arith)
            requires s + 1 <= r;
    }
}

/// The integer square root is monotone.
pub proof fn lemma_isqrt_monotone(a: nat, b: nat)
    requires
        a <= b,
    ensures
        isqrt(a) <= isqrt(b),
{
    lemma_isqrt_bounds(a);
    lemma_isqrt_bounds(b);
    let ra = isqrt(a);
    let rb = isqrt(b);
    if rb < ra {
        assert((rb + 1) * (rb + 1) <= ra * ra) by (nonlinear_arith)
            requires rb + 1 <= ra;
    }
}

/// Exact squared Euclidean distance.
pub open spec fn dist_sq_spec(a: Point, b: Point) -> int {
    (a.x - b.x) * (a.x - b.x) + (a.y - b.y) * (a.y - b.y)
}

/// Rounded Euclidean distance: `isqrt` of the squared distance.
pub open spec fn dist_spec(a: Point, b: Point) -> int {
    isqrt(dist_sq_spec(a, b) as nat) as int
}

/// For well-formed points the squared distance fits below `MAX_SQ` and the
/// rounded distance below `DIST_BOUND`.
pub proof fn lemma_dist_bounds(a: Point, b: Point)
    requires
        pt_wf(a),
        pt_wf(b),
    ensures
        0 <= dist_sq_spec(a, b) <= MAX_SQ as int,
        0 <= dist_spec(a, b) < DIST_BOUND as int,
{
    let dx = a.x - b.x;
    let dy = a.y - b.y;
    assert(0 <= dx * dx <= 4_000_000_000_000_000_000) by (nonlinear_arith)
        requires -2_000_000_000 <= dx <= 2_000_000_000;
    assert(0 <= dy * dy <= 4_000_000_000_000_000_000) by (nonlinear_arith)
        requires -2_000_000_000 <= dy <= 2_000_000_000;
    let m = dist_sq_spec(a, b) as nat;
    lemma_isqrt_bounds(m);
    let r = isqrt(m);
    assert(r < 3_000_000_000) by (nonlinear_arith)
        requires r * r <= 8_000_000_000_000_000_000;
}

/// Greatest `r` with `r * r <= n`, by binary search.
pub fn isqrt_exec(n: u64) -> (r: u64)
    requires
        n <= MAX_SQ,
    ensures
        r == isqrt(n as nat),
{
    let mut lo: u64 = 0;
    let mut hi: u64 = 3_000_000_000;
    proof {
        assert(n < 3_000_000_001 * 3_000_000_001) by (nonlinear_arith)
            requires n <= 8_000_000_000_000_000_000;
    }
    while lo < hi
        invariant
            lo <= hi <= 3_000_000_000,
            lo * lo <= n as int,
            n < (hi + 1) * (hi + 1),
        decreases hi - lo,
    {
        let mid = lo + (hi - lo + 1) / 2;
        proof {
            assert(mid * mid <= 9_000_000_000_000_000_000) by (nonlinear_arith)
                requires mid <= 3_000_000_000;
        }
        if mid * mid <= n {
            lo = mid;
        } else {
            hi = mid - 1;
        }
    }
    proof {
        lemma_isqrt_unique(n as nat, lo as nat);
    }
    lo
}

impl Point {
    /// The origin.
    pub fn new() -> (r: Point)
        ensures
            r.x == 0 && r.y == 0,
    {
        Point { x: 0, y: 0 }
    }

    /// Rounded Euclidean distance to `other`.
    pub fn dist(&self, other: &Point) -> (r: u64)
        requires
            pt_wf(*self),
            pt_wf(*other),
        ensures
            r as int == dist_spec(*self, *other),
            r < DIST_BOUND,
    {
        proof {
            lemma_dist_bounds(*self, *other);
        }
        let dx = self.x - other.x;
        let dy = self.y - other.y;
        proof {
            assert(0 <= dx * dx <= 4_000_000_000_000_000_000) by (nonlinear_arith)
                requires -2_000_000_000 <= dx <= 2_000_000_000;
            assert(0 <= dy * dy <= 4_000_000_000_000_000_000) by (nonlinear_arith)
                requires -2_000_000_000 <= dy <= 2_000_000_000;
        }
        let sq = (dx * dx + dy * dy) as u64;
        isqrt_exec(sq)
    }

    /// Exact squared Euclidean distance to `other`.
    pub fn dist_sq(&self, other: &Point) -> (r: u64)
        requires
            pt_wf(*self),
            pt_wf(*other),
        ensures
            r as int == dist_sq_spec(*self, *other),
    {
        proof {
            lemma_dist_bounds(*self, *other);
        }
        let dx = self.x - other.x;
        let dy = self.y - other.y;
        proof {
            assert(0 <= dx * dx <= 4_000_000_000_000_000_000) by (nonlinear_arith)
                requires -2_000_000_000 <= dx <= 2_000_000_000;
            assert(0 <= dy * dy <= 4_000_000_000_000_000_000) by (nonlinear_arith)
                requires -2_000_000_000 <= dy <= 2_000_000_000;
        }
        (dx * dx + dy * dy) as u64
    }
}

/// A fixed set of 2-D points, index-addressable, never resized.
pub struct PointMap {
    points: Vec<Point>,
}

impl View for PointMap {
    type V = Seq<Point>;

    closed spec fn view(&self) -> Seq<Point> {
        self.points@
    }
}

/// Every point of `pts` is well formed.
pub open spec fn pts_wf(pts: Seq<Point>) -> bool {
    forall|i: int| 0 <= i < pts.len() ==> pt_wf(#[trigger] pts[i])
}

impl PointMap {
    /// The map is well formed: bounded size, bounded coordinates.
    pub open spec fn wf(&self) -> bool {
        self@.len() <= MAX_CITIES as int && pts_wf(self@)
    }

    /// Builds a map over the given points.
    pub fn from_points(points: Vec<Point>) -> (r: PointMap)
        requires
            points@.len() <= MAX_CITIES as int,
            pts_wf(points@),
        ensures
            r@ == points@,
            r.wf(),
    {
        PointMap { points }
    }

    /// Number of points.
    pub fn size(&self) -> (r: usize)
        ensures
            r == self@.len(),
    {
        self.points.len()
    }

    /// The point at `index`, if it exists.
    pub fn get(&self, index: usize) -> (r: Option<Point>)
        ensures
            index < self@.len() ==> r == Some(self@[index as int]),
            index >= self@.len() ==> r is None,
    {
        if index < self.points.len() {
            Some(self.points[index])
        } else {
            None
        }
    }

    /// The point at `index`, which must exist.
    pub fn at(&self, index: usize) -> (r: Point)
        requires
            index < self@.len(),
        ensures
            r == self@[index as int],
    {
        self.points[index]
    }

    /// Overwrites the point at `index`.
    pub fn set_point(&mut self, index: usize, p: Point)
        requires
            index < old(self)@.len(),
        ensures
            final(self)@ == old(self)@.update(index as int, p),
    {
        self.points.set(index, p);
    }

    /// Swaps the points at `first` and `second`.
    pub fn swap(&mut self, first: usize, second: usize)
        requires
            first < old(self)@.len(),
            second < old(self)@.len(),
        ensures
            final(self)@ == old(self)@.update(first as int, old(self)@[second as int])
                .update(second as int, old(self)@[first as int]),
    {
        let a = self.points[first];
        let b = self.points[second];
        self.points.set(first, b);
        self.points.set(second, a);
    }

    /// A plain copy of the point sequence.
    pub fn clone_to_vec(&self) -> (r: Vec<Point>)
        ensures
            r@ == self@,
    {
        let mut result: Vec<Point> = Vec::new();
        let mut i: usize = 0;
        while i < self.points.len()
            invariant
                i <= self.points.len(),
                result@ == self.points@.take(i as int),
            decreases self.points.len() - i,
    {
            result.push(self.points[i]);
            i += 1;
        }
        proof {
            assert(self.points@.take(self.points@.len() as int) =~= self.points@);
        }
        result
    }
}

/// Total rounded length of the open path visiting `pts` in order: the sum of
/// the distances of consecutive points, with no closing edge.
pub open spec fn open_cost(pts: Seq<Point>) -> int
    decreases pts.len(),
{
    if pts.len() < 2 {
        0
    } else {
        dist_spec(pts[0], pts[1]) + open_cost(pts.drop_first())
    }
}

/// The open cost of a well-formed sequence is bounded by its length times
/// the distance bound.
pub proof fn lemma_open_cost_bound(pts: Seq<Point>)
    requires
        pts_wf(pts),
    ensures
        0 <= open_cost(pts) <= pts.len() * DIST_BOUND as int,
    decreases pts.len(),
{
    if pts.len() >= 2 {
        lemma_dist_bounds(pts[0], pts[1]);
        assert(pts_wf(pts.drop_first()));
        lemma_open_cost_bound(pts.drop_first());
        assert((pts.len() - 1) * DIST_BOUND as int + DIST_BOUND as int
            == pts.len() * DIST_BOUND as int) by (nonlinear_arith);
    } else {
        assert(pts.len() * DIST_BOUND as int >= 0) by (nonlinear_arith)
            requires pts.len() >= 0;
    }
}

/// Splitting an open path at a point: the cost of a concatenation is the two
/// costs plus the joining edge.
pub proof fn lemma_open_cost_concat(a: Seq<Point>, b: Seq<Point>)
    requires
        a.len() > 0,
        b.len() > 0,
    ensures
        open_cost(a + b) == open_cost(a) + dist_spec(a.last(), b.first()) + open_cost(b),
    decreases a.len(),
{
    if a.len() == 1 {
        assert((a + b).drop_first() =~= b);
        assert((a + b)[0] == a.last());
        assert((a + b)[1] == b.first());
        if b.len() >= 1 {
            assert(open_cost(a) == 0);
        }
    } else {
        assert((a + b).drop_first() =~= a.drop_first() + b);
        lemma_open_cost_concat(a.drop_first(), b);
        assert(a.drop_first().last() == a.last());
    }
}

/// Exchanging two adjacent points of an open path changes exactly the
/// edge into the pair and the edge out of it; the edge between the two is
/// symmetric and keeps its length.
pub proof fn lemma_open_cost_adjacent_swap(t: Seq<Point>, m: int)
    requires
        0 <= m,
        m + 1 < t.len(),
    ensures
        open_cost(t.update(m, t[m + 1]).update(m + 1, t[m])) == open_cost(t) - (
            if m > 0 { dist_spec(t[m - 1], t[m]) } else { 0 }) - (
            if m + 2 < t.len() { dist_spec(t[m + 1], t[m + 2]) } else { 0 }) + (
            if m > 0 { dist_spec(t[m - 1], t[m + 1]) } else { 0 }) + (
            if m + 2 < t.len() { dist_spec(t[m], t[m + 2]) } else { 0 }),
    decreases m,
{
    let s = t.update(m, t[m + 1]).update(m + 1, t[m]);
    if m == 0 {
        if t.len() == 2 {
            assert(open_cost(s) == dist_spec(s[0], s[1]) + open_cost(s.drop_first()));
            assert(s.drop_first().len() < 2);
            assert(open_cost(t) == dist_spec(t[0], t[1]) + open_cost(t.drop_first()));
            assert(t.drop_first().len() < 2);
            assert((t[0].x - t[1].x) * (t[0].x - t[1].x) == (t[1].x - t[0].x) * (t[1].x
                - t[0].x)) by (nonlinear_arith);
            assert((t[0].y - t[1].y) * (t[0].y - t[1].y) == (t[1].y - t[0].y) * (t[1].y
                - t[0].y)) by (nonlinear_arith);
        } else {
            assert(s.drop_first().drop_first() =~= t.drop_first().drop_first());
            assert(open_cost(s) == dist_spec(s[0], s[1]) + open_cost(s.drop_first()));
            assert(open_cost(s.drop_first()) == dist_spec(s[1], s[2]) + open_cost(
                s.drop_first().drop_first()));
            assert(open_cost(t) == dist_spec(t[0], t[1]) + open_cost(t.drop_first()));
            assert(open_cost(t.drop_first()) == dist_spec(t[1], t[2]) + open_cost(
                t.drop_first().drop_first()));
            assert(s[0] == t[1] && s[1] == t[0] && s[2] == t[2]);
            assert((t[0].x - t[1].x) * (t[0].x - t[1].x) == (t[1].x - t[0].x) * (t[1].x
                - t[0].x)) by (nonlinear_arith);
            assert((t[0].y - t[1].y) * (t[0].y - t[1].y) == (t[1].y - t[0].y) * (t[1].y
                - t[0].y)) by (nonlinear_arith);
        }
    } else {
        let td = t.drop_first();
        lemma_open_cost_adjacent_swap(td, m - 1);
        assert(s.drop_first() =~= td.update(m - 1, td[m]).update(m, td[m - 1]));
        assert(open_cost(s) == dist_spec(s[0], s[1]) + open_cost(s.drop_first()));
        assert(open_cost(t) == dist_spec(t[0], t[1]) + open_cost(td));
        if m == 1 {
            assert(s[0] == t[0] && s[1] == t[2]);
        } else {
            assert(s[0] == t[0] && s[1] == t[1]);
        }
        assert(forall|i: int| 0 <= i < td.len() ==> td[i] == t[i + 1]);
    }
}

/// The points visited by an index path over `pts`.
pub open spec fn pts_of(path: Seq<usize>, pts: Seq<Point>) -> Seq<Point> {
    path.map(|_i: int, x: usize| pts[x as int])
}

/// Sums the rounded distances of consecutive points of `pts`, with no
/// closing edge.
pub fn open_cost_exec(pts: &Vec<Point>) -> (r: u64)
    requires
        pts@.len() <= MAX_CITIES as int,
        pts_wf(pts@),
    ensures
        r as int == open_cost(pts@),
{
    let n = pts.len();
    if n < 2 {
        return 0;
    }
    let mut total: u64 = 0;
    let mut i: usize = 0;
    // total holds the cost of the prefix pts[0..=i]
    while i + 1 < n
        invariant
            n == pts@.len(),
            2 <= n <= MAX_CITIES as int,
            pts_wf(pts@),
            i + 1 <= n,
            total as int == open_cost(pts@.take(i + 1)),
            total as int <= (i + 1) * DIST_BOUND as int,
        decreases n - i,
    {
        let d = pts[i].dist(&pts[i + 1]);
        proof {
            let pre = pts@.take(i + 1);
            let post = pts@.take(i + 2);
            assert(pre + seq![pts@[i + 1]] =~= post);
            lemma_open_cost_concat(pre, seq![pts@[i + 1]]);
            assert(pre.last() == pts@[i as int]);
            assert((i + 1) * DIST_BOUND as int + DIST_BOUND as int
                == (i + 2) * DIST_BOUND as int) by (nonlinear_arith);
            assert((i + 2) * DIST_BOUND as int <= (MAX_CITIES as int + 1) * DIST_BOUND as int)
                by (nonlinear_arith)
                requires i + 2 <= MAX_CITIES as int + 1;
        }
        total = total + d;
        i += 1;
    }
    proof {
        assert(pts@.take(i + 1) =~= pts@);
    }
    total
}

/// Open cost of the path that visits `pts` at the indices of `path`, in
/// order. This is the shared sequence-of-indices evaluation: an open path
/// with no closing edge.
pub fn path_evaluate(path: &Vec<usize>, map: &PointMap) -> (r: u64)
    requires
        map.wf(),
        path@.len() <= MAX_CITIES as int,
        forall|i: int| 0 <= i < path@.len() ==> (#[trigger] path@[i]) < map@.len(),
    ensures
        r as int == open_cost(pts_of(path@, map@)),
{
    let n = path.len();
    let mut visited: Vec<Point> = Vec::new();
    let mut i: usize = 0;
    while i < n
        invariant
            n == path@.len(),
            map.wf(),
            n <= MAX_CITIES as int,
            forall|k: int| 0 <= k < n ==> (#[trigger] path@[k]) < map@.len(),
            i <= n,
            visited@ =~= pts_of(path@.take(i as int), map@),
        decreases n - i,
    {
        let idx = path[i];
        let p = match map.get(idx) {
            Some(p) => p,
            None => Point::new(),
        };
        visited.push(p);
        proof {
            assert(pts_of(path@.take(i + 1), map@)
                =~= pts_of(path@.take(i as int), map@).push(map@[path@[i as int] as int]));
        }
        i += 1;
    }
    proof {
        assert(path@.take(n as int) =~= path@);
        assert(pts_wf(visited@));
    }
    open_cost_exec(&visited)
}

/// Rearranges the first `path.len()` points of `map` so that position `i`
/// holds the point that stood at `path[i]`. This is the shared
/// sequence-of-indices reorder.
pub fn path_reorder(path: &Vec<usize>, map: &mut PointMap)
    requires
        path@.len() <= old(map)@.len(),
        forall|i: int| 0 <= i < path@.len() ==> (#[trigger] path@[i]) < old(map)@.len(),
    ensures
        final(map)@.len() == old(map)@.len(),
        forall|i: int|
            0 <= i < path@.len() ==> final(map)@[i] == old(map)@[#[trigger] path@[i] as int],
        forall|i: int| path@.len() <= i < old(map)@.len() ==> final(map)@[i] == old(map)@[i],
{
    let cloned = map.clone_to_vec();
    let n = path.len();
    let mut i: usize = 0;
    while i < n
        invariant
            n == path@.len(),
            n <= old(map)@.len(),
            cloned@ == old(map)@,
            forall|k: int| 0 <= k < n ==> (#[trigger] path@[k]) < old(map)@.len(),
            i <= n,
            map@.len() == old(map)@.len(),
            forall|k: int| 0 <= k < i ==> map@[k] == old(map)@[#[trigger] path@[k] as int],
            forall|k: int| i <= k < old(map)@.len() ==> map@[k] == old(map)@[k],
        decreases n - i,
    {
        let idx = path[i];
        map.set_point(i, cloned[idx]);
        i += 1;
    }
}

} // verus!
