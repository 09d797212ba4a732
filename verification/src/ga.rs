//! The evolutionary engine: settings, the two recombination strategies, and
//! the per-generation selection-and-replacement algorithm.
//!
//! Probabilities and ratios are fixed-point fractions with denominator
//! `PROB_DENOM`, so every comparison the engine makes is exact.
use vstd::prelude::*;
use vstd::seq_lib::group_to_multiset_ensures;
use vstd::arithmetic::div_mod::lemma_fundamental_div_mod;
use vstd::arithmetic::mul::lemma_mul_inequality;

use crate::genome::{lemma_wf_glen_bound, spliced, Chromosome};
use crate::map::{Point, PointMap, MAX_CITIES};
use crate::rnd::{rand_below, rand_below_wide, rand_bool, rand_index};

verus! {

/// Denominator of every probability and ratio: a field holding `p` stands
/// for the fraction `p / PROB_DENOM`.
pub const PROB_DENOM: u32 = 1_000_000;

/// Largest weight the uniform run-swap strategy accepts: one half.
pub const HALF_DENOM: u32 = 500_000;

/// The four tunables the engine consumes. Each is a fraction of
/// `PROB_DENOM`: the share of the population replaced by offspring, the
/// share protected by elitism, the chance a selected pair is recombined,
/// and the chance an offspring undergoes one point mutation.
#[derive(Clone, Copy, PartialEq, Eq, Structural)]
pub struct Settings {
    pub replace_percent: u32,
    pub elitist_percent: u32,
    pub crossover_prob: u32,
    pub mutate_prob: u32,
}

impl Settings {
    /// All four fractions are at most one.
    pub open spec fn wf(&self) -> bool {
        self.replace_percent <= PROB_DENOM && self.elitist_percent <= PROB_DENOM
            && self.crossover_prob <= PROB_DENOM && self.mutate_prob <= PROB_DENOM
    }
}

/// If `x < n * d` then `x / d < n`.
proof fn lemma_div_lt(x: int, n: int, d: int)
    requires
        d > 0,
        0 <= x,
        x < n * d,
    ensures
        x / d < n,
{
    lemma_fundamental_div_mod(x, d);
    let q = x / d;
    let r = x % d;
    assert(q < n) by (nonlinear_arith)
        requires d > 0, 0 <= r < d, x == d * q + r, x < n * d, 0 <= x;
}

/// If `x <= n * d` then `x / d <= n`.
proof fn lemma_div_le(x: int, n: int, d: int)
    requires
        d > 0,
        0 <= x,
        x <= n * d,
    ensures
        x / d <= n,
{
    if x < n * d {
        lemma_div_lt(x, n, d);
    } else {
        lemma_fundamental_div_mod(x, d);
        let q = x / d;
        let r = x % d;
        assert(q <= n) by (nonlinear_arith)
            requires d > 0, 0 <= r < d, x == d * q + r, x == n * d;
    }
}

/// The number of offspring one generation must produce: the replaced share
/// minus the elitist share, never less than one.
pub open spec fn offspring_target_spec(s: Settings, n: int) -> int {
    let diff: int = if s.replace_percent > s.elitist_percent {
        s.replace_percent - s.elitist_percent
    } else {
        0
    };
    let t = (diff * n) / (PROB_DENOM as int);
    if t < 1 {
        1
    } else {
        t
    }
}

/// Computes the offspring target, with its `max(1, ...)` floor.
pub fn offspring_target(settings: &Settings, n: usize) -> (r: usize)
    requires
        settings.wf(),
    ensures
        r == offspring_target_spec(*settings, n as int),
        r >= 1,
        n >= 1 ==> r <= n,
        settings.elitist_percent > 0 && n >= 2 ==> r <= n - 1,
{
    let diff: u64 = if settings.replace_percent > settings.elitist_percent {
        (settings.replace_percent - settings.elitist_percent) as u64
    } else {
        0
    };
    proof {
        assert((diff as int) * (n as int) <= 1_000_000 * 0xffff_ffff_ffff_ffff)
            by (nonlinear_arith)
            requires 0 <= diff <= 1_000_000, 0 <= n <= 0xffff_ffff_ffff_ffff;
    }
    let t = (diff as u128) * (n as u128) / (PROB_DENOM as u128);
    proof {
        lemma_mul_inequality(diff as int, PROB_DENOM as int, n as int);
        lemma_div_le((diff as int) * (n as int), n as int, PROB_DENOM as int);
        assert((PROB_DENOM as int) * (n as int) == (n as int) * (PROB_DENOM as int))
            by (nonlinear_arith);
        if settings.elitist_percent > 0 && n >= 2 {
            lemma_mul_inequality(diff as int, PROB_DENOM as int - 1, n as int);
            assert((PROB_DENOM as int - 1) * (n as int) < (n as int) * (PROB_DENOM as int))
                by (nonlinear_arith)
                requires n >= 1;
            lemma_div_lt((diff as int) * (n as int), n as int, PROB_DENOM as int);
        }
    }
    if t < 1 {
        1
    } else {
        t as usize
    }
}

/// Positionwise exchange: each gene of the recombined pair is either kept
/// in place or exchanged with its counterpart; nothing else ever happens to
/// a pair of genomes under recombination.
pub open spec fn exchange_of(a0: Seq<u64>, b0: Seq<u64>, a1: Seq<u64>, b1: Seq<u64>) -> bool {
    &&& a1.len() == a0.len()
    &&& b1.len() == b0.len()
    &&& a0.len() == b0.len()
    &&& forall|k: int| 0 <= k < a0.len() ==> ((#[trigger] a1[k] == a0[k] && b1[k] == b0[k])
        || (a1[k] == b0[k] && b1[k] == a0[k]))
}

/// A slice exchange is a positionwise exchange.
pub proof fn lemma_spliced_exchange(a: Seq<u64>, b: Seq<u64>, s: int, e: int)
    requires
        0 <= s <= e <= a.len(),
        a.len() == b.len(),
    ensures
        exchange_of(a, b, spliced(a, b, s, e), spliced(b, a, s, e)),
{
}

/// Positionwise exchanges compose.
pub proof fn lemma_exchange_trans(
    a0: Seq<u64>, b0: Seq<u64>, a1: Seq<u64>, b1: Seq<u64>, a2: Seq<u64>, b2: Seq<u64>,
)
    requires
        exchange_of(a0, b0, a1, b1),
        exchange_of(a1, b1, a2, b2),
    ensures
        exchange_of(a0, b0, a2, b2),
{
}

/// The randomized k-segment strategy: cuts the genome into roughly equal
/// segments at perturbed boundaries and exchanges every interval.
pub struct KPoint {
    count: usize,
}

impl KPoint {
    /// The number of interior boundaries walked: the configured segment
    /// count minus one.
    pub closed spec fn segments(&self) -> int {
        self.count as int
    }

    /// The stored count is bounded, keeping the boundary arithmetic exact.
    pub open spec fn wf(&self) -> bool {
        self.segments() <= 0x4000_0000
    }

    /// Builds the strategy for `count` segments; a count of one always
    /// takes the single-cut-point branch of `recombine`.
    pub fn new(count: usize) -> (r: KPoint)
        requires
            1 <= count <= 0x4000_0000,
        ensures
            r.segments() == count - 1,
            r.wf(),
    {
        KPoint { count: count - 1 }
    }

    /// One cut drawn uniformly; the suffix from the cut is exchanged.
    fn single_point(first: &mut Chromosome, second: &mut Chromosome) -> (cut: Ghost<int>)
        requires
            old(first).compat(old(second)),
        ensures
            0 <= cut@ <= old(first).glen(),
            old(first).glen() > 0 ==> cut@ < old(first).glen(),
            final(first).genes() == spliced(
                old(first).genes(), old(second).genes(), cut@, old(first).glen()),
            final(second).genes() == spliced(
                old(second).genes(), old(first).genes(), cut@, old(first).glen()),
            final(first).compat(final(second)),
            final(first).compat(old(first)),
            final(second).compat(old(second)),
            old(first).wf() && old(second).wf() ==> final(first).wf() && final(second).wf(),
            forall|pts: Seq<Point>| #[trigger] final(first).matches_map(pts)
                == old(first).matches_map(pts),
            forall|pts: Seq<Point>| #[trigger] final(second).matches_map(pts)
                == old(second).matches_map(pts),
    {
        let len = first.len();
        if len == 0 {
            first.crossover(second, 0, 0);
            Ghost(0)
        } else {
            let cut = rand_index(len);
            first.crossover(second, cut, len);
            Ghost(cut as int)
        }
    }
}

/// The uniform run-swap strategy: a random copy flag is toggled with the
/// configured probability at each locus, and each run during which it was
/// set is exchanged whole.
pub struct Uniform {
    weight: u32,
}

impl Uniform {
    /// The per-locus toggle probability, as a fraction of `PROB_DENOM`.
    pub closed spec fn spec_weight(&self) -> int {
        self.weight as int
    }

    /// The weight lies in (0, 1/2].
    pub open spec fn wf(&self) -> bool {
        0 < self.spec_weight() <= HALF_DENOM as int
    }

    /// The balanced strategy: a toggle probability of one half.
    pub fn new() -> (r: Uniform)
        ensures
            r.spec_weight() == HALF_DENOM as int,
            r.wf(),
    {
        Uniform { weight: HALF_DENOM }
    }

    /// A strategy with the given toggle probability, which must lie in
    /// (0, 1/2].
    pub fn weighted(weight: u32) -> (r: Uniform)
        requires
            0 < weight <= HALF_DENOM,
        ensures
            r.spec_weight() == weight as int,
            r.wf(),
    {
        Uniform { weight }
    }
}

/// A pluggable recombination strategy.
pub enum Recombinator {
    KPoint(KPoint),
    Uniform(Uniform),
}

impl Recombinator {
    /// The held strategy is well formed.
    pub open spec fn wf(&self) -> bool {
        match self {
            Recombinator::KPoint(k) => k.wf(),
            Recombinator::Uniform(u) => u.wf(),
        }
    }

    /// Recombines two genomes of equal length in place. Every outcome is a
    /// positionwise exchange; the single-segment k-point strategy always
    /// performs exactly one suffix exchange at a uniformly drawn cut.
    pub fn recombine(&self, first: &mut Chromosome, second: &mut Chromosome)
        requires
            self.wf(),
            old(first).compat(old(second)),
            old(first).wf(),
            old(second).wf(),
        ensures
            exchange_of(old(first).genes(), old(second).genes(), final(first).genes(),
                final(second).genes()),
            final(first).compat(final(second)),
            final(first).compat(old(first)),
            final(second).compat(old(second)),
            final(first).wf(),
            final(second).wf(),
            forall|pts: Seq<Point>| #[trigger] final(first).matches_map(pts)
                == old(first).matches_map(pts),
            forall|pts: Seq<Point>| #[trigger] final(second).matches_map(pts)
                == old(second).matches_map(pts),
            *self is KPoint && self->KPoint_0.segments() == 0 ==> exists|cut: int|
                0 <= cut <= old(first).glen()
                && (old(first).glen() > 0 ==> cut < old(first).glen())
                && final(first).genes() == spliced(old(first).genes(), old(second).genes(),
                    cut, old(first).glen())
                && final(second).genes() == spliced(old(second).genes(), old(first).genes(),
                    cut, old(first).glen()),
    {
        match self {
            Recombinator::KPoint(k) => {
                if k.count == 0 {
                    let cut = KPoint::single_point(first, second);
                    proof {
                        lemma_spliced_exchange(old(first).genes(), old(second).genes(), cut@,
                            old(first).glen());
                    }
                    return;
                }
                let len = first.len();
                if len == 0 {
                    proof {
                        assert(first.genes() =~= spliced(first.genes(), second.genes(), 0, 0));
                        assert(second.genes() =~= spliced(second.genes(), first.genes(), 0, 0));
                    }
                    return;
                }
                proof {
                    lemma_wf_glen_bound(first);
                }
                let s = k.count;
                let den: u128 = s as u128 + 1;
                let d0 = rand_below(len as u64);
                let f0 = (d0 as u128) / den;
                let mut prev: usize = if f0 >= len as u128 {
                    len
                } else {
                    f0 as usize
                };
                let mut i: usize = 1;
                while i <= s
                    invariant
                        1 <= i <= s + 1,
                        s <= 0x4000_0000,
                        den == s as u128 + 1,
                        1 <= len <= 0x8000_0000,
                        prev <= len,
                        first.glen() == len as int,
                        second.glen() == len as int,
                        first.compat(second),
                        first.compat(old(first)),
                        second.compat(old(second)),
                        first.wf(),
                        second.wf(),
                        exchange_of(old(first).genes(), old(second).genes(), first.genes(),
                            second.genes()),
                        forall|pts: Seq<Point>| #[trigger] first.matches_map(pts)
                            == old(first).matches_map(pts),
                        forall|pts: Seq<Point>| #[trigger] second.matches_map(pts)
                            == old(second).matches_map(pts),
                    decreases s + 1 - i,
                {
                    let ghost pre_first = first.genes();
                    let ghost pre_second = second.genes();
                    let d = rand_below(len as u64);
                    proof {
                        assert((i as int) * (len as int) <= 0x4000_0001 * 0x8000_0000)
                            by (nonlinear_arith)
                            requires 0 <= i <= 0x4000_0001, 0 <= len <= 0x8000_0000;
                    }
                    let raw: u128 = d as u128 + (i as u128) * (len as u128);
                    let rounded = (2 * raw + den) / (2 * den);
                    let end = if rounded >= len as u128 {
                        len
                    } else {
                        rounded as usize
                    };
                    let start = if prev > end {
                        end
                    } else {
                        prev
                    };
                    first.crossover(second, start, end);
                    proof {
                        lemma_spliced_exchange(pre_first, pre_second, start as int, end as int);
                        lemma_exchange_trans(old(first).genes(), old(second).genes(), pre_first,
                            pre_second, first.genes(), second.genes());
                    }
                    let f = raw / den;
                    prev = if f >= len as u128 {
                        len
                    } else {
                        f as usize
                    };
                    i += 1;
                }
            },
            Recombinator::Uniform(u) => {
                let len = first.len();
                let mut copy = rand_bool();
                let mut last_index: usize = 0;
                let mut i: usize = 1;
                while i < len
                    invariant
                        1 <= i,
                        i <= len || len == 0,
                        last_index < i,
                        last_index == 0 || last_index < len,
                        first.glen() == len as int,
                        second.glen() == len as int,
                        first.compat(second),
                        first.compat(old(first)),
                        second.compat(old(second)),
                        first.wf(),
                        second.wf(),
                        exchange_of(old(first).genes(), old(second).genes(), first.genes(),
                            second.genes()),
                        forall|pts: Seq<Point>| #[trigger] first.matches_map(pts)
                            == old(first).matches_map(pts),
                        forall|pts: Seq<Point>| #[trigger] second.matches_map(pts)
                            == old(second).matches_map(pts),
                    decreases len - i,
                {
                    if rand_below(PROB_DENOM as u64) < u.weight as u64 {
                        if copy {
                            let ghost pre_first = first.genes();
                            let ghost pre_second = second.genes();
                            first.crossover(second, last_index, i);
                            proof {
                                lemma_spliced_exchange(pre_first, pre_second, last_index as int,
                                    i as int);
                                lemma_exchange_trans(old(first).genes(), old(second).genes(),
                                    pre_first, pre_second, first.genes(), second.genes());
                            }
                        }
                        copy = !copy;
                        last_index = i;
                    }
                    i += 1;
                }
                if copy {
                    let ghost pre_first = first.genes();
                    let ghost pre_second = second.genes();
                    first.crossover(second, last_index, len);
                    proof {
                        lemma_spliced_exchange(pre_first, pre_second, last_index as int,
                            len as int);
                        lemma_exchange_trans(old(first).genes(), old(second).genes(), pre_first,
                            pre_second, first.genes(), second.genes());
                    }
                }
            },
        }
    }
}

/// Every genome of `pop` is well formed, defined over `pts`, and pairwise
/// compatible: the invariant the engine preserves across generations.
pub open spec fn pop_wf(pop: Seq<Chromosome>, pts: Seq<Point>) -> bool {
    &&& forall|i: int| 0 <= i < pop.len() ==> (#[trigger] pop[i]).wf()
    &&& forall|i: int| 0 <= i < pop.len() ==> (#[trigger] pop[i]).matches_map(pts)
    &&& forall|i: int, j: int|
        #![trigger pop[i], pop[j]]
        0 <= i < pop.len() && 0 <= j < pop.len() ==> pop[i].compat(&pop[j])
}

/// `g` is one of the genomes of `src`.
pub open spec fn member_of(g: Chromosome, src: Seq<Chromosome>) -> bool {
    exists|m: int| 0 <= m < src.len() && src[m] == g
}

/// The smallest loss over a population.
pub open spec fn min_loss_of(pop: Seq<Chromosome>, pts: Seq<Point>) -> int
    decreases pop.len(),
{
    if pop.len() == 0 {
        0
    } else if pop.len() == 1 {
        pop[0].loss(pts)
    } else {
        let m = min_loss_of(pop.drop_last(), pts);
        if pop.last().loss(pts) < m {
            pop.last().loss(pts)
        } else {
            m
        }
    }
}

/// The minimum loss bounds every member and is attained by one.
pub proof fn lemma_min_loss_of(pop: Seq<Chromosome>, pts: Seq<Point>)
    requires
        pop.len() >= 1,
    ensures
        forall|i: int| 0 <= i < pop.len() ==> min_loss_of(pop, pts) <= (#[trigger] pop[i]).loss(
            pts),
        exists|i: int| 0 <= i < pop.len() && min_loss_of(pop, pts) == (#[trigger] pop[i]).loss(
            pts),
    decreases pop.len(),
{
    if pop.len() == 1 {
        assert(min_loss_of(pop, pts) == pop[0].loss(pts));
    } else {
        let head = pop.drop_last();
        lemma_min_loss_of(head, pts);
        assert(forall|i: int| 0 <= i < head.len() ==> head[i] == pop[i]);
        if pop.last().loss(pts) < min_loss_of(head, pts) {
            assert(min_loss_of(pop, pts) == pop[pop.len() - 1].loss(pts));
        } else {
            let w = choose|i: int|
                0 <= i < head.len() && min_loss_of(head, pts) == (#[trigger] head[i]).loss(pts);
            assert(min_loss_of(pop, pts) == pop[w].loss(pts));
        }
    }
}

/// Compatibility is carried through a shared anchor genome.
pub proof fn lemma_compat_trans(x: &Chromosome, y: &Chromosome, a: &Chromosome)
    requires
        x.compat(a),
        y.compat(a),
    ensures
        x.compat(y),
        y.compat(x),
{
}

/// Evaluates every genome's loss, in population order.
pub fn loss_vector(population: &Vec<Chromosome>, map: &PointMap) -> (r: Vec<u64>)
    requires
        map.wf(),
        pop_wf(population@, map@),
    ensures
        r@.len() == population@.len(),
        forall|k: int| 0 <= k < r@.len() ==> (#[trigger] r@[k]) as int == population@[k].loss(
            map@),
{
    let n = population.len();
    let mut r: Vec<u64> = Vec::new();
    let mut i: usize = 0;
    while i < n
        invariant
            map.wf(),
            pop_wf(population@, map@),
            n == population@.len(),
            i <= n,
            r@.len() == i,
            forall|k: int| 0 <= k < i ==> (#[trigger] r@[k]) as int == population@[k].loss(map@),
        decreases n - i,
    {
        let l = population[i].evaluate(map);
        r.push(l);
        i += 1;
    }
    r
}

/// One weighted draw: a uniform threshold below `total` walked against the
/// cumulative losses, skipping `exclude` when asked, falling back to the
/// last index when the walk runs out. A zero total degenerates to a
/// uniform draw.
fn select_parent(losses: &Vec<u64>, total: u128, exclude: usize, use_exclude: bool) -> (r: usize)
    requires
        losses@.len() >= 1,
    ensures
        r < losses@.len(),
{
    let n = losses.len();
    if total == 0 {
        return rand_index(n);
    }
    let mut random = rand_below_wide(total);
    let mut j: usize = 0;
    while j < n
        invariant
            n == losses@.len(),
            j <= n,
        decreases n - j,
    {
        let w = losses[j] as u128;
        if random < w && !(use_exclude && j == exclude) {
            return j;
        }
        if random >= w {
            random = random - w;
        } else {
            random = 0;
        }
        j += 1;
    }
    n - 1
}

/// Relies on std's slice::sort_by_key, a stable sort ascending by key: the
/// result holds the same pairs, ordered by ascending loss.
#[verifier::external_body]
fn sort_by_loss(v: &mut Vec<(u64, Chromosome)>)
    ensures
        final(v)@.len() == old(v)@.len(),
        final(v)@.to_multiset() == old(v)@.to_multiset(),
        forall|i: int, j: int| 0 <= i < j < final(v)@.len()
            ==> (#[trigger] final(v)@[i]).0 <= (#[trigger] final(v)@[j]).0,
{
    v.sort_by_key(|p: &(u64, Chromosome)| p.0)
}

/// Sorts the population ascending by loss, the loss vector alongside it:
/// the elitist step's decorate-sort-undecorate. Every genome that comes
/// out went in, still paired with its own loss, and every loss value that
/// went in comes out.
fn sort_population(map: &PointMap, population: &mut Vec<Chromosome>, losses: &Vec<u64>) -> (r:
    Vec<u64>)
    requires
        map.wf(),
        losses@.len() == old(population)@.len(),
        forall|k: int| 0 <= k < losses@.len() ==> (#[trigger] losses@[k]) as int == old(
            population)@[k].loss(map@),
    ensures
        final(population)@.len() == old(population)@.len(),
        r@.len() == old(population)@.len(),
        forall|k: int| 0 <= k < r@.len() ==> (#[trigger] r@[k]) as int == final(population)@[
            k].loss(map@),
        forall|i: int, j: int| 0 <= i < j < r@.len() ==> (#[trigger] r@[i]) <= (#[trigger] r@[
            j]),
        forall|k: int| 0 <= k < final(population)@.len() ==> #[trigger] member_of(final(
            population)@[k], old(population)@),
        forall|v: u64| losses@.contains(v) ==> r@.contains(v),
{
    broadcast use group_to_multiset_ensures;

    let n = population.len();
    let ghost pop0 = old(population)@;
    let mut pairs: Vec<(u64, Chromosome)> = Vec::new();
    let mut k: usize = 0;
    while population.len() > 0
        invariant
            n == pop0.len(),
            n == losses@.len(),
            k + population@.len() == n,
            k == pairs@.len(),
            population@ =~= pop0.skip(k as int),
            forall|j: int|
                #![trigger pairs@[j]]
                0 <= j < k ==> pairs@[j].0 == losses@[j] && pairs@[j].1 == pop0[j],
        decreases population@.len(),
    {
        proof {
            assert(population@[0] == pop0[k as int]);
            assert(pop0.skip(k as int).drop_first() =~= pop0.skip(k as int + 1));
        }
        let g = population.remove(0);
        let l = losses[k];
        pairs.push((l, g));
        k += 1;
    }
    let ghost pre_pairs = pairs@;
    sort_by_loss(&mut pairs);
    let ghost sorted_pairs = pairs@;
    proof {
        assert forall|j: int|
            #![trigger sorted_pairs[j]]
            0 <= j < sorted_pairs.len() implies {
            &&& sorted_pairs[j].0 as int == sorted_pairs[j].1.loss(map@)
            &&& exists|m: int| 0 <= m < n && pop0[m] == sorted_pairs[j].1
        } by {
            let x = sorted_pairs[j];
            assert(sorted_pairs.contains(x));
            assert(sorted_pairs.to_multiset().count(x) > 0);
            assert(pre_pairs.to_multiset().count(x) > 0);
            assert(pre_pairs.contains(x));
            let m = choose|m: int| 0 <= m < pre_pairs.len() && (#[trigger] pre_pairs[m]) == x;
            assert(x.0 == losses@[m] && x.1 == pop0[m]);
            assert(pop0[m] == sorted_pairs[j].1);
        }
    }
    let mut r: Vec<u64> = Vec::new();
    let mut taken: usize = 0;
    while pairs.len() > 0
        invariant
            taken + pairs@.len() == n,
            n == sorted_pairs.len(),
            pairs@ =~= sorted_pairs.skip(taken as int),
            r@.len() == taken,
            population@.len() == taken,
            forall|j: int|
                #![trigger r@[j]]
                0 <= j < taken ==> r@[j] == sorted_pairs[j].0,
            forall|j: int|
                #![trigger population@[j]]
                0 <= j < taken ==> population@[j] == sorted_pairs[j].1,
        decreases pairs@.len(),
    {
        proof {
            assert(pairs@[0] == sorted_pairs[taken as int]);
            assert(sorted_pairs.skip(taken as int).drop_first() =~= sorted_pairs.skip(
                taken as int + 1));
        }
        let p = pairs.remove(0);
        r.push(p.0);
        population.push(p.1);
        taken += 1;
    }
    proof {
        assert forall|k2: int| 0 <= k2 < population@.len() implies #[trigger] member_of(
            population@[k2], old(population)@) by {
            assert(population@[k2] == sorted_pairs[k2].1);
            let m = choose|m: int| 0 <= m < n && (#[trigger] pop0[m]) == sorted_pairs[k2].1;
            assert(old(population)@[m] == population@[k2]);
        }
        assert forall|v: u64| losses@.contains(v) implies r@.contains(v) by {
            let m = choose|m: int| 0 <= m < losses@.len() && (#[trigger] losses@[m]) == v;
            let wp = pre_pairs[m];
            assert(wp.0 == v);
            assert(pre_pairs.contains(wp));
            assert(pre_pairs.to_multiset().count(wp) > 0);
            assert(sorted_pairs.to_multiset().count(wp) > 0);
            assert(sorted_pairs.contains(wp));
            let q = choose|q: int| 0 <= q < sorted_pairs.len() && (#[trigger] sorted_pairs[
                q]) == wp;
            assert(r@[q] == v);
        }
    }
    r
}

/// The selection/replacement engine.
pub struct RouletteWheelSelection;

impl RouletteWheelSelection {
    /// Runs one generation: evaluates every genome, sorts the population
    /// ascending by loss when elitism is on, produces the offspring target
    /// by weighted selection, recombination, mutation and optional repair,
    /// and trims the pre-offspring tail back to the original size. Returns
    /// the minimum loss observed this generation; the population keeps its
    /// size, and with elitism on the best pre-generation loss survives.
    pub fn evolve(
        settings: &Settings,
        map: &PointMap,
        population: &mut Vec<Chromosome>,
        recombinator: &Recombinator,
        repair: bool,
    ) -> (r: u64)
        requires
            settings.wf(),
            map.wf(),
            recombinator.wf(),
            old(population)@.len() >= 1,
            pop_wf(old(population)@, map@),
        ensures
            final(population)@.len() == old(population)@.len(),
            pop_wf(final(population)@, map@),
            r as int <= min_loss_of(old(population)@, map@),
            forall|i: int| 0 <= i < final(population)@.len() ==> r as int <= (#[trigger] final(
                population)@[i]).loss(map@),
            settings.elitist_percent > 0 && old(population)@.len() >= 2 ==> exists|i: int|
                0 <= i < final(population)@.len() && (#[trigger] final(population)@[i]).loss(map@)
                    == min_loss_of(old(population)@, map@),
            forall|i: int| 0 <= i < final(population)@.len() ==> (#[trigger] final(population)@[
                i]).compat(&old(population)@[0]),
            forall|i: int| 0 <= i < old(population)@.len() - offspring_target_spec(*settings,
                old(population)@.len() as int) ==> #[trigger] member_of(final(population)@[i],
                old(population)@),
            settings.elitist_percent == 0 ==> forall|i: int| 0 <= i < old(population)@.len()
                - offspring_target_spec(*settings, old(population)@.len() as int) ==> (
                #[trigger] final(population)@[i]) == old(population)@[i],
            settings.elitist_percent > 0 ==> forall|i: int, j: int|
                #![trigger final(population)@[i], final(population)@[j]]
                0 <= i < j < old(population)@.len() - offspring_target_spec(*settings,
                    old(population)@.len() as int) ==> final(population)@[i].loss(map@)
                    <= final(population)@[j].loss(map@),
            r as int == min_loss_of(old(population)@, map@) || (exists|i: int|
                0 <= i < final(population)@.len() && (#[trigger] final(population)@[i]).loss(
                map@) == r as int) || offspring_target_spec(*settings,
                old(population)@.len() as int) % 2 == 1,
    {
        broadcast use group_to_multiset_ensures;

        let n = population.len();
        let ghost pop0 = population@;
        let ghost anchor = pop0[0];

        // Step 1: the loss vector, its sum, and the running minimum.
        let mut losses = loss_vector(population, map);
        let ghost losses_init = losses@;
        let mut total: u128 = 0;
        let mut min_loss: u64 = u64::MAX;
        let mut i: usize = 0;
        while i < n
            invariant
                n == losses@.len(),
                losses@ == losses_init,
                i <= n,
                total as int <= (i as int) * 0xffff_ffff_ffff_ffff,
                i == 0 ==> min_loss == u64::MAX,
                forall|k: int| 0 <= k < i ==> min_loss as int <= (#[trigger] losses@[k]) as int,
                i >= 1 ==> exists|k: int| 0 <= k < i && min_loss as int == (#[trigger] losses@[
                    k]) as int,
            decreases n - i,
        {
            let l = losses[i];
            if l < min_loss {
                min_loss = l;
            } else {
                proof {
                    if i == 0 {
                        assert(min_loss == l);
                    }
                }
            }
            proof {
                assert((i as int) * 0xffff_ffff_ffff_ffff + 0xffff_ffff_ffff_ffff == (
                    i as int + 1) * 0xffff_ffff_ffff_ffff) by (nonlinear_arith);
            }
            total = total + l as u128;
            i += 1;
        }
        proof {
            lemma_min_loss_of(pop0, map@);
            let w = choose|k: int|
                0 <= k < n && min_loss as int == (#[trigger] losses_init[k]) as int;
            let m = choose|k: int|
                0 <= k < pop0.len() && min_loss_of(pop0, map@) == (#[trigger] pop0[k]).loss(map@);
            assert(min_loss as int <= losses_init[m] as int);
            assert(min_loss_of(pop0, map@) <= pop0[w].loss(map@));
            assert(min_loss as int == min_loss_of(pop0, map@));
            assert(forall|k: int| 0 <= k < n ==> (#[trigger] losses_init[k]) as int == pop0[
                k].loss(map@));
        }

        // Steps 2 and 3: when elitism is on, sort the loss vector and the
        // population together, ascending by loss.
        let ghost mut base = pop0;
        if settings.elitist_percent > 0 {
            let sorted = sort_population(map, population, &losses);
            losses = sorted;
            proof {
                base = population@;
            }
        }
        proof {
            assert(base.len() == n);
            assert forall|k: int|
                #![trigger base[k]]
                #![trigger losses@[k]]
                0 <= k < n implies {
                &&& losses@[k] as int == base[k].loss(map@)
                &&& base[k].wf()
                &&& base[k].matches_map(map@)
                &&& base[k].compat(&anchor)
                &&& min_loss as int <= losses@[k] as int
                &&& member_of(base[k], pop0)
            } by {
                if settings.elitist_percent > 0 {
                    assert(base[k] == population@[k]);
                    assert(member_of(population@[k], pop0));
                    let m = choose|m: int| 0 <= m < pop0.len() && (#[trigger] pop0[m])
                        == population@[k];
                    assert(pop0[m].wf() && pop0[m].matches_map(map@) && pop0[m].compat(&anchor));
                    assert(losses_init[m] as int == pop0[m].loss(map@));
                    assert(min_loss as int <= losses_init[m] as int);
                } else {
                    assert(base[k] == pop0[k]);
                    assert(losses@ == losses_init);
                }
            }
            if settings.elitist_percent > 0 {
                // the sorted order still attains the minimum, so it sits first
                let w = choose|k2: int|
                    0 <= k2 < n && min_loss as int == (#[trigger] losses_init[k2]) as int;
                assert(losses_init.contains(losses_init[w]));
                assert(losses@.contains(losses_init[w]));
                let wq = choose|q: int| 0 <= q < losses@.len() && (#[trigger] losses@[q])
                    == losses_init[w];
                assert(losses@[0] <= losses@[wq]);
                assert(losses@[0] as int == min_loss as int);
                assert(base[0].loss(map@) == min_loss as int);
            }
            assert(population@ == base);
        }

        // Step 4: the offspring target.
        let target = offspring_target(settings, n);

        // Step 5: selection, recombination, mutation, optional repair.
        let mut offspring_count: usize = 0;
        while offspring_count < target
            invariant
                settings.wf(),
                map.wf(),
                recombinator.wf(),
                n >= 1,
                n == base.len(),
                n == losses@.len(),
                target >= 1,
                target <= n,
                offspring_count <= target,
                population@.len() == n + offspring_count,
                population@.take(n as int) =~= base,
                forall|k: int| 0 <= k < population@.len() ==> (#[trigger] population@[k]).wf(),
                forall|k: int| 0 <= k < population@.len() ==> (#[trigger] population@[
                    k]).matches_map(map@),
                forall|k: int| 0 <= k < population@.len() ==> (#[trigger] population@[k]).compat(
                    &anchor),
                forall|k: int| 0 <= k < n ==> (#[trigger] losses@[k]) as int == base[k].loss(
                    map@),
                forall|k: int| 0 <= k < population@.len() ==> min_loss as int <= (
                    #[trigger] population@[k]).loss(map@),
                min_loss as int <= min_loss_of(pop0, map@),
                offspring_count % 2 == 0 || offspring_count == target,
                min_loss as int == min_loss_of(pop0, map@) || (exists|k: int|
                    n <= k < population@.len() && (#[trigger] population@[k]).loss(map@)
                        == min_loss as int) || target % 2 == 1,
                settings.elitist_percent > 0 && n >= 2 ==> base[0].loss(map@) == min_loss_of(
                    pop0, map@),
                settings.elitist_percent > 0 && n >= 2 ==> target <= n - 1,
            decreases target - offspring_count,
        {
            let ghost entry_pop = population@;
            let ghost c0 = offspring_count;
            let ghost min_pre = min_loss;
            let sel0 = select_parent(&losses, total, 0, false);
            let sel1 = select_parent(&losses, total, sel0, true);
            proof {
                assert(population@[sel0 as int] == base[sel0 as int]);
                assert(population@[sel1 as int] == base[sel1 as int]);
            }
            let mut first = population[sel0].duplicate();
            let mut second = population[sel1].duplicate();
            proof {
                lemma_compat_trans(&first, &second, &anchor);
            }
            if rand_below(PROB_DENOM as u64) < settings.crossover_prob as u64 {
                recombinator.recombine(&mut first, &mut second);
            }
            if first.len() > 0 && rand_below(PROB_DENOM as u64) < settings.mutate_prob as u64 {
                let idx = rand_index(first.len());
                first.point_mutation(idx);
            }
            if second.len() > 0 && rand_below(PROB_DENOM as u64) < settings.mutate_prob as u64 {
                let idx = rand_index(second.len());
                second.point_mutation(idx);
            }
            if repair {
                first.fix(map);
                second.fix(map);
            }
            let l1 = first.evaluate(map);
            if l1 < min_loss {
                min_loss = l1;
            }
            let l2 = second.evaluate(map);
            if l2 < min_loss {
                min_loss = l2;
            }
            let ghost pre = population@;
            let ghost g1 = first;
            let ghost g2 = second;
            population.push(first);
            proof {
                assert(population@.take(n as int) =~= pre.take(n as int));
            }
            offspring_count += 1;
            if offspring_count < target {
                let ghost pre2 = population@;
                population.push(second);
                proof {
                    assert(population@.take(n as int) =~= pre2.take(n as int));
                }
                offspring_count += 1;
            }
            proof {
                if min_loss as int != min_loss_of(pop0, map@) && target % 2 != 1 {
                    if min_loss != min_pre {
                        if min_loss == l1 {
                            assert(population@[(n + c0) as int] == g1);
                            assert(g1.loss(map@) == l1 as int);
                        } else {
                            assert(min_loss == l2);
                            assert(offspring_count == c0 + 2);
                            assert(population@[(n + c0 + 1) as int] == g2);
                            assert(g2.loss(map@) == l2 as int);
                        }
                    } else {
                        let k = choose|k: int|
                            n <= k < entry_pop.len() && (#[trigger] entry_pop[k]).loss(map@)
                                == min_pre as int;
                        assert(population@[k] == entry_pop[k]);
                    }
                }
            }
        }

        // Step 6: trim the pre-offspring tail back to size n.
        let ghost off = population@.skip(n as int);
        proof {
            assert(population@ =~= base.take(n as int - target as int + (population@.len()
                - target) as int - (n as int - target as int)) + off);
            assert(population@ =~= base.take((population@.len() - target) as int) + off);
            assert(min_loss as int == min_loss_of(pop0, map@) || (exists|k2: int|
                0 <= k2 < off.len() && (#[trigger] off[k2]).loss(map@) == min_loss as int)
                || target % 2 == 1) by {
                if min_loss as int != min_loss_of(pop0, map@) && target % 2 != 1 {
                    let k = choose|k: int|
                        n <= k < population@.len() && (#[trigger] population@[k]).loss(map@)
                            == min_loss as int;
                    assert(off[k - n] == population@[k]);
                }
            }
        }
        let mut index: usize = n - 1;
        while population.len() > n
            invariant
                n >= 1,
                n == base.len(),
                target >= 1,
                target <= n,
                off.len() == target,
                n <= population@.len() <= n + target,
                population@ =~= base.take((population@.len() - target) as int) + off,
                population@.len() > n ==> index == population@.len() - target - 1,
                forall|k: int| 0 <= k < population@.len() ==> (#[trigger] population@[k]).wf(),
                forall|k: int| 0 <= k < population@.len() ==> (#[trigger] population@[
                    k]).matches_map(map@),
                forall|k: int| 0 <= k < population@.len() ==> (#[trigger] population@[k]).compat(
                    &anchor),
                forall|k: int| 0 <= k < population@.len() ==> min_loss as int <= (
                    #[trigger] population@[k]).loss(map@),
                min_loss as int <= min_loss_of(pop0, map@),
                settings.elitist_percent > 0 && n >= 2 ==> base[0].loss(map@) == min_loss_of(
                    pop0, map@),
                settings.elitist_percent > 0 && n >= 2 ==> target <= n - 1,
            decreases population@.len(),
        {
            let ghost pre = population@;
            population.remove(index);
            proof {
                let keep = pre.len() - target;
                assert(pre =~= base.take(keep as int) + off);
                assert(population@ =~= base.take(keep as int - 1) + off);
            }
            if index > 0 {
                index -= 1;
            }
        }

        proof {
            let keep = n - target;
            assert(population@ =~= base.take(keep as int) + off);
            assert(population@.len() == n);
            assert forall|x: int, y: int|
                #![trigger population@[x], population@[y]]
                0 <= x < population@.len() && 0 <= y < population@.len() implies population@[
                x].compat(&population@[y]) by {
                lemma_compat_trans(&population@[x], &population@[y], &anchor);
            }
            if settings.elitist_percent > 0 && n >= 2 {
                assert(population@[0] == base[0]);
            }
            assert forall|i: int| 0 <= i < keep implies #[trigger] member_of(population@[i],
                pop0) by {
                assert(population@[i] == base[i]);
                assert(member_of(base[i], pop0));
            }
            if settings.elitist_percent == 0 {
                assert forall|i: int| 0 <= i < keep implies (#[trigger] population@[i]) == pop0[
                    i] by {
                    assert(population@[i] == base[i]);
                }
            }
            if settings.elitist_percent > 0 {
                assert forall|i: int, j: int|
                    #![trigger population@[i], population@[j]]
                    0 <= i < j < keep implies population@[i].loss(map@) <= population@[j].loss(
                    map@) by {
                    assert(population@[i] == base[i]);
                    assert(population@[j] == base[j]);
                    assert(losses@[i] as int == base[i].loss(map@));
                    assert(losses@[j] as int == base[j].loss(map@));
                    assert(losses@[i] <= losses@[j]);
                }
            }
            if min_loss as int != min_loss_of(pop0, map@) && target % 2 != 1 {
                let k2 = choose|k2: int|
                    0 <= k2 < off.len() && (#[trigger] off[k2]).loss(map@) == min_loss as int;
                assert(population@[keep + k2] == off[k2]);
            }
        }
        min_loss
    }
}

} // verus!
