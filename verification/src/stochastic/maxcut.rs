//! Max-Cut: the value of a cut, the problem instances with a closed-form
//! optimum, and the proofs of those optima.

use crate::stochastic::graphs::{complete, complete_bipartite, cycle, petersen, random_regular};
use crate::stochastic::graphs::{crossing, draws_fit, fan, fans, pairing, petersen_edges, ring, simple};
use crate::stochastic::graphs::{Edge, Graph};
use vstd::prelude::*;

verus! {

/// Whether `s` assigns a spin (-1 or +1) to each of `n` vertices.
pub open spec fn spins(s: Seq<i8>, n: int) -> bool {
    &&& s.len() == n
    &&& forall|i: int| 0 <= i < n ==> #[trigger] s[i] == 1 || s[i] == -1
}

/// Weight that an edge adds to a cut.
pub open spec fn edge_cut(e: Edge, s: Seq<i8>) -> int {
    if s[e.0 as int] != s[e.1 as int] {
        e.2 as int
    } else {
        0
    }
}

/// Value of a cut: the weight of the edges whose ends have different spins.
pub open spec fn cut_of(edges: Seq<Edge>, s: Seq<i8>) -> int
    decreases edges.len(),
{
    if edges.len() == 0 {
        0
    } else {
        cut_of(edges.drop_last(), s) + edge_cut(edges.last(), s)
    }
}

/// Sum of all edge weights.
pub open spec fn weight_of(edges: Seq<Edge>) -> int
    decreases edges.len(),
{
    if edges.len() == 0 {
        0
    } else {
        weight_of(edges.drop_last()) + edges.last().2
    }
}

/// Whether `v` is the greatest value of a cut.
pub open spec fn is_max_cut(edges: Seq<Edge>, n: int, v: int) -> bool {
    &&& forall|s: Seq<i8>| #[trigger] spins(s, n) ==> cut_of(edges, s) <= v
    &&& exists|s: Seq<i8>| #[trigger] spins(s, n) && cut_of(edges, s) == v
}

/// Cut value of a spin assignment.
pub fn cut_value(g: &Graph, s: &Vec<i8>) -> (r: i128)
    requires
        g.wf(),
        spins(s@, g.n as int),
    ensures
        r == cut_of(g.edges@, s@),
{
    let n: usize = g.edges.len();
    let mut total: i128 = 0;
    let mut e: usize = 0;
    assert(g.edges@.take(0) =~= Seq::empty());
    while e < n
        invariant
            e <= n,
            n == g.edges@.len(),
            g.wf(),
            spins(s@, g.n as int),
            total == cut_of(g.edges@.take(e as int), s@),
            -0x8000_0000 * e <= total <= 0x8000_0000 * e,
        decreases n - e,
    {
        let (i, j, w) = g.edges[e];
        assert(g.edges@[e as int].0 < g.n);
        assert(g.edges@.take(e + 1).drop_last() =~= g.edges@.take(e as int));
        if s[i as usize] != s[j as usize] {
            total = total + w as i128;
        }
        e += 1;
    }
    assert(g.edges@.take(n as int) =~= g.edges@);
    total
}

/// Sum of all edge weights.
pub fn total_weight(g: &Graph) -> (r: i128)
    ensures
        r == weight_of(g.edges@),
{
    let n: usize = g.edges.len();
    let mut total: i128 = 0;
    let mut e: usize = 0;
    assert(g.edges@.take(0) =~= Seq::empty());
    while e < n
        invariant
            e <= n,
            n == g.edges@.len(),
            total == weight_of(g.edges@.take(e as int)),
            -0x8000_0000 * e <= total <= 0x8000_0000 * e,
        decreases n - e,
    {
        assert(g.edges@.take(e + 1).drop_last() =~= g.edges@.take(e as int));
        total = total + g.edges[e].2 as i128;
        e += 1;
    }
    assert(g.edges@.take(n as int) =~= g.edges@);
    total
}

/// Problem instances. Closed-form instances carry their known optimum.
#[derive(Debug, Clone, Copy, PartialEq, Eq, Structural)]
pub enum ProblemSpec {
    Complete { n: usize },
    Cycle { n: usize },
    CompleteBipartite { a: usize, b: usize },
    Petersen,
    RandomRegular { n: usize, degree: usize, seed: u64 },
}

impl ProblemSpec {
    /// Vertices and edges can be counted; a regular graph has an even number
    /// of edge ends and fewer neighbours than vertices.
    pub open spec fn valid(&self) -> bool {
        match *self {
            ProblemSpec::Complete { n } => n <= u32::MAX,
            ProblemSpec::Cycle { n } => n <= u32::MAX,
            ProblemSpec::CompleteBipartite { a, b } => a + b <= u32::MAX && a * b <= usize::MAX,
            ProblemSpec::Petersen => true,
            ProblemSpec::RandomRegular { n, degree, .. } => n <= u32::MAX && degree < n && n
                * degree <= usize::MAX && (n * degree) % 2 == 0,
        }
    }

    /// Edges of an instance with a closed form.
    pub open spec fn closed_edges(&self) -> Seq<Edge> {
        match *self {
            ProblemSpec::Complete { n } => fans(n as int, n as int),
            ProblemSpec::Cycle { n } => ring(n as int),
            ProblemSpec::CompleteBipartite { a, b } => crossing(a as int, b as int),
            _ => petersen_edges(),
        }
    }

    /// Vertices of an instance.
    pub open spec fn vertices(&self) -> int {
        match *self {
            ProblemSpec::Complete { n } => n as int,
            ProblemSpec::Cycle { n } => n as int,
            ProblemSpec::CompleteBipartite { a, b } => a + b,
            ProblemSpec::Petersen => 10,
            ProblemSpec::RandomRegular { n, .. } => n as int,
        }
    }

    /// `r` is the graph of the instance: its closed form, or the first of the
    /// attempts at a random regular graph that is simple.
    pub open spec fn builds(&self, attempts: Seq<Vec<usize>>, r: Option<Graph>) -> bool {
        &&& r is Some ==> r->0.wf() && r->0.n == self.vertices()
        &&& match *self {
            ProblemSpec::RandomRegular { n, degree, .. } => match r {
                Some(g) => simple(g.edges@) && exists|t: int|
                    #![trigger attempts[t]]
                    0 <= t < attempts.len() && g.edges@ == pairing(
                        n as int,
                        degree as int,
                        attempts[t]@,
                    ) && forall|u: int|
                        0 <= u < t ==> !simple(
                            pairing(n as int, degree as int, (#[trigger] attempts[u])@),
                        ),
                None => forall|u: int|
                    0 <= u < attempts.len() ==> !simple(
                        pairing(n as int, degree as int, (#[trigger] attempts[u])@),
                    ),
            },
            _ => r is Some && r->0.edges@ == self.closed_edges(),
        }
    }

    /// The draws of every attempt at a random regular graph are in range.
    pub open spec fn attempts_fit(&self, attempts: Seq<Vec<usize>>) -> bool {
        match *self {
            ProblemSpec::RandomRegular { n, degree, .. } => forall|t: int|
                0 <= t < attempts.len() ==> draws_fit((#[trigger] attempts[t])@, n * degree),
            _ => true,
        }
    }

    /// Builds the graph. A random regular graph takes its shuffles from
    /// `attempts`, and is `None` where none of them gives a simple graph.
    pub fn build(&self, attempts: &Vec<Vec<usize>>) -> (r: Option<Graph>)
        requires
            self.valid(),
            self.attempts_fit(attempts@),
        ensures
            self.builds(attempts@, r),
    {
        match *self {
            ProblemSpec::Complete { n } => Some(complete(n)),
            ProblemSpec::Cycle { n } => Some(cycle(n)),
            ProblemSpec::CompleteBipartite { a, b } => Some(complete_bipartite(a, b)),
            ProblemSpec::Petersen => Some(petersen()),
            ProblemSpec::RandomRegular { n, degree, .. } => random_regular(n, degree, attempts),
        }
    }

    /// What [`ProblemSpec::known_optimum`] returns where there is a closed form.
    pub open spec fn optimum(&self) -> int {
        match *self {
            ProblemSpec::Complete { n } => (n as int / 2) * ((n + 1) / 2),
            ProblemSpec::Cycle { n } => if n % 2 == 0 {
                n as int
            } else {
                n - 1
            },
            ProblemSpec::CompleteBipartite { a, b } => a * b,
            _ => 12,
        }
    }

    /// Closed-form Max-Cut optimum where one exists.
    pub fn known_optimum(&self) -> (r: Option<u64>)
        requires
            self.valid(),
        ensures
            r is None <==> self is RandomRegular,
            r is Some ==> r->0 == self.optimum(),
    {
        match *self {
            ProblemSpec::Complete { n } => {
                let half: u64 = n as u64 / 2;
                let rest: u64 = (n as u64 + 1) / 2;
                proof {
                    assert(half * rest <= 0x8000_0000 * 0x8000_0000) by (nonlinear_arith)
                        requires
                            0 <= half <= 0x8000_0000,
                            0 <= rest <= 0x8000_0000,
                    ;
                }
                Some(half * rest)
            },
            ProblemSpec::Cycle { n } => Some(
                if n % 2 == 0 {
                    n as u64
                } else {
                    (n - 1) as u64
                },
            ),
            ProblemSpec::CompleteBipartite { a, b } => Some((a * b) as u64),
            ProblemSpec::Petersen => Some(12),
            ProblemSpec::RandomRegular { .. } => None,
        }
    }
}

proof fn lemma_cut_add(a: Seq<Edge>, b: Seq<Edge>, s: Seq<i8>)
    ensures
        cut_of(a + b, s) == cut_of(a, s) + cut_of(b, s),
    decreases b.len(),
{
    if b.len() == 0 {
        assert(a + b =~= a);
    } else {
        assert((a + b).drop_last() =~= a + b.drop_last());
        lemma_cut_add(a, b.drop_last(), s);
    }
}

/// Unit edges cut at most their number.
proof fn lemma_cut_bounded(edges: Seq<Edge>, s: Seq<i8>)
    requires
        forall|e: int| 0 <= e < edges.len() ==> (#[trigger] edges[e]).2 == 1,
    ensures
        0 <= cut_of(edges, s) <= edges.len(),
    decreases edges.len(),
{
    if edges.len() > 0 {
        let t = edges.drop_last();
        assert forall|e: int| 0 <= e < t.len() implies (#[trigger] t[e]).2 == 1 by {
            assert(edges[e].2 == 1);
        }
        lemma_cut_bounded(t, s);
        assert(edges[edges.len() - 1].2 == 1);
    }
}

/// Unit edges that are all cut.
proof fn lemma_all_cut(edges: Seq<Edge>, s: Seq<i8>)
    requires
        forall|e: int|
            0 <= e < edges.len() ==> (#[trigger] edges[e]).2 == 1 && s[edges[e].0 as int]
                != s[edges[e].1 as int],
    ensures
        cut_of(edges, s) == edges.len(),
    decreases edges.len(),
{
    if edges.len() > 0 {
        let t = edges.drop_last();
        assert forall|e: int| 0 <= e < t.len() implies (#[trigger] t[e]).2 == 1 && s[t[e].0 as int]
            != s[t[e].1 as int] by {
            assert(edges[e].2 == 1);
        }
        lemma_all_cut(t, s);
        assert(edges[edges.len() - 1].2 == 1);
    }
}

/// How many of the spins from `i` up to `j` are `x`.
spec fn count_from(s: Seq<i8>, i: int, j: int, x: int) -> int
    decreases j - i,
{
    if i >= j {
        0
    } else {
        count_from(s, i, j - 1, x) + if s[j - 1] == x {
            1int
        } else {
            0
        }
    }
}

proof fn lemma_count_front(s: Seq<i8>, i: int, j: int, x: int)
    requires
        i < j,
    ensures
        count_from(s, i, j, x) == count_from(s, i + 1, j, x) + if s[i] == x {
            1int
        } else {
            0
        },
    decreases j - i,
{
    if i + 1 < j {
        lemma_count_front(s, i, j - 1, x);
    } else {
        assert(count_from(s, i, i, x) == 0);
        assert(count_from(s, i + 1, j, x) == 0);
    }
}

proof fn lemma_count_total(s: Seq<i8>, n: int, i: int, j: int)
    requires
        spins(s, n),
        0 <= i <= j <= n,
    ensures
        count_from(s, i, j, 1) + count_from(s, i, j, -1) == j - i,
        count_from(s, i, j, 1) >= 0,
        count_from(s, i, j, -1) >= 0,
    decreases j - i,
{
    if i < j {
        lemma_count_total(s, n, i, j - 1);
        assert(s[j - 1] == 1 || s[j - 1] == -1);
    }
}

/// The fan of a vertex cuts one edge per later vertex of the other spin.
proof fn lemma_fan_cut(s: Seq<i8>, n: int, i: int, j: int)
    requires
        spins(s, n),
        0 <= i < n,
        i + 1 <= j <= n <= u32::MAX,
    ensures
        cut_of(fan(i, j), s) == count_from(
            s,
            i + 1,
            j,
            if s[i] == 1 {
                -1int
            } else {
                1int
            },
        ),
    decreases j,
{
    assert(s[i] == 1 || s[i] == -1);
    if j > i + 1 {
        lemma_fan_cut(s, n, i, j - 1);
        assert(fan(i, j).drop_last() =~= fan(i, j - 1));
        assert(s[j - 1] == 1 || s[j - 1] == -1);
    }
}

/// The cut of the first fans and the mixed pairs left over make a constant.
proof fn lemma_fans_cut(s: Seq<i8>, n: int, k: int)
    requires
        spins(s, n),
        0 <= k <= n <= u32::MAX,
    ensures
        cut_of(fans(n, k), s) + count_from(s, k, n, 1) * count_from(s, k, n, -1) == count_from(
            s,
            0,
            n,
            1,
        ) * count_from(s, 0, n, -1),
    decreases k,
{
    if k > 0 {
        let i = k - 1;
        lemma_fans_cut(s, n, i);
        lemma_cut_add(fans(n, i), fan(i, n), s);
        lemma_fan_cut(s, n, i, n);
        lemma_count_front(s, i, n, 1);
        lemma_count_front(s, i, n, -1);
        assert(s[i] == 1 || s[i] == -1);
        let (p, m) = (count_from(s, k, n, 1), count_from(s, k, n, -1));
        assert((p + 1) * m == p * m + m) by (nonlinear_arith);
        assert(p * (m + 1) == p * m + p) by (nonlinear_arith);
    }
}

/// Of two numbers with a given sum, the most even split has the greatest
/// product.
proof fn lemma_even_split(p: int, m: int, n: int)
    requires
        p >= 0,
        m >= 0,
        p + m == n,
    ensures
        p * m <= (n / 2) * ((n + 1) / 2),
{
    let h = n / 2;
    let g = (n + 1) / 2;
    assert(h + g == n);
    if p <= h {
        assert(p * m <= h * g) by (nonlinear_arith)
            requires
                p + m == h + g,
                0 <= p <= h,
                h <= g,
        ;
    } else {
        assert(p * m <= h * g) by (nonlinear_arith)
            requires
                p + m == h + g,
                0 <= m <= h,
                h <= g,
        ;
    }
}

/// The Max-Cut of the complete graph on `n` vertices is the product of the two
/// halves of `n`.
pub proof fn complete_optimum(n: int)
    requires
        0 <= n <= u32::MAX,
    ensures
        is_max_cut(fans(n, n), n, (n / 2) * ((n + 1) / 2)),
{
    assert forall|s: Seq<i8>| #[trigger] spins(s, n) implies cut_of(fans(n, n), s) <= (n / 2) * ((n
        + 1) / 2) by {
        lemma_fans_cut(s, n, n);
        lemma_count_total(s, n, 0, n);
        assert(0 * count_from(s, n, n, -1) == 0);
        lemma_even_split(count_from(s, 0, n, 1), count_from(s, 0, n, -1), n);
    }
    let h = n / 2;
    let s = Seq::new(
        n as nat,
        |i: int|
            if i < h {
                1i8
            } else {
                -1i8
            },
    );
    assert(spins(s, n));
    lemma_fans_cut(s, n, n);
    lemma_split_count(s, h, n, n);
    assert(count_from(s, n, n, 1) * count_from(s, n, n, -1) == 0) by (nonlinear_arith)
        requires
            count_from(s, n, n, 1) == 0,
    ;
    lemma_count_total(s, n, 0, n);
    assert(n - h == (n + 1) / 2);
}

proof fn lemma_split_count(s: Seq<i8>, h: int, n: int, j: int)
    requires
        0 <= h <= n,
        0 <= j <= n,
        s.len() == n,
        forall|i: int|
            0 <= i < n ==> #[trigger] s[i] == if i < h {
                1i8
            } else {
                -1i8
            },
    ensures
        count_from(s, 0, j, 1) == if j < h {
            j
        } else {
            h
        },
    decreases j,
{
    if j > 0 {
        lemma_split_count(s, h, n, j - 1);
        assert(s[j - 1] == if j - 1 < h {
            1i8
        } else {
            -1i8
        });
    }
}

/// Along a path the number of changes has the parity of whether the ends
/// differ.
proof fn lemma_ring_parity(s: Seq<i8>, n: int, k: int)
    requires
        spins(s, n),
        1 <= n <= u32::MAX,
        0 <= k <= n,
    ensures
        cut_of(ring(n).take(k), s) % 2 == (if s[0] != s[k % n] {
            1int
        } else {
            0
        }),
        cut_of(ring(n).take(k), s) <= k,
    decreases k,
{
    if k == 0 {
        assert(ring(n).take(0) =~= Seq::empty());
        vstd::arithmetic::div_mod::lemma_small_mod(0, n as nat);
    } else {
        lemma_ring_parity(s, n, k - 1);
        vstd::arithmetic::div_mod::lemma_small_mod((k - 1) as nat, n as nat);
        let r = ring(n).take(k);
        assert(r.drop_last() =~= ring(n).take(k - 1));
        assert(r.last() == ((k - 1) as u32, (k % n) as u32, 1i32));
        vstd::arithmetic::div_mod::lemma_mod_bound(k, n);
        assert(s[0] == 1 || s[0] == -1);
        assert(s[k - 1] == 1 || s[k - 1] == -1);
        assert(s[k % n] == 1 || s[k % n] == -1);
    }
}

/// The Max-Cut of a cycle is all of its edges where their number is even, and
/// all but one where it is odd.
pub proof fn cycle_optimum(n: int)
    requires
        0 <= n <= u32::MAX,
    ensures
        is_max_cut(
            ring(n),
            n,
            if n % 2 == 0 {
                n
            } else {
                n - 1
            },
        ),
{
    let best = if n % 2 == 0 {
        n
    } else {
        n - 1
    };
    assert(ring(n).take(n) =~= ring(n));
    assert forall|s: Seq<i8>| #[trigger] spins(s, n) implies cut_of(ring(n), s) <= best by {
        if n >= 1 {
            lemma_ring_parity(s, n, n);
            vstd::arithmetic::div_mod::lemma_mod_self_0(n);
        }
    }
    let s = Seq::new(
        n as nat,
        |i: int|
            if i % 2 == 0 {
                1i8
            } else {
                -1i8
            },
    );
    assert(spins(s, n));
    if n >= 1 {
        lemma_alternating(s, n, n - 1);
        let r = ring(n);
        assert(r.take(n - 1) =~= r.drop_last());
        vstd::arithmetic::div_mod::lemma_mod_self_0(n);
        assert(r.last() == ((n - 1) as u32, 0u32, 1i32));
    } else {
        assert(ring(n) =~= Seq::empty());
    }
}

proof fn lemma_alternating(s: Seq<i8>, n: int, k: int)
    requires
        1 <= n <= u32::MAX,
        0 <= k < n,
        s.len() == n,
        forall|i: int|
            0 <= i < n ==> #[trigger] s[i] == if i % 2 == 0 {
                1i8
            } else {
                -1i8
            },
    ensures
        cut_of(ring(n).take(k), s) == k,
    decreases k,
{
    if k == 0 {
        assert(ring(n).take(0) =~= Seq::empty());
    } else {
        lemma_alternating(s, n, k - 1);
        let r = ring(n).take(k);
        assert(r.drop_last() =~= ring(n).take(k - 1));
        vstd::arithmetic::div_mod::lemma_small_mod(k as nat, n as nat);
        assert(r.last() == ((k - 1) as u32, k as u32, 1i32));
        assert(s[k - 1] != s[k]);
    }
}

/// The Max-Cut of a complete bipartite graph is all of its edges.
pub proof fn bipartite_optimum(a: int, b: int)
    requires
        0 <= a,
        0 <= b,
        a + b <= u32::MAX,
    ensures
        is_max_cut(crossing(a, b), a + b, a * b),
{
    let edges = crossing(a, b);
    let n = a + b;
    assert(a * b >= 0) by (nonlinear_arith)
        requires
            a >= 0,
            b >= 0,
    ;
    assert forall|s: Seq<i8>| #[trigger] spins(s, n) implies cut_of(edges, s) <= a * b by {
        lemma_cut_bounded(edges, s);
    }
    let s = Seq::new(
        n as nat,
        |i: int|
            if i < a {
                1i8
            } else {
                -1i8
            },
    );
    assert(spins(s, n));
    assert forall|e: int| 0 <= e < edges.len() implies (#[trigger] edges[e]).2 == 1
        && s[edges[e].0 as int] != s[edges[e].1 as int] by {
        assert(b >= 1) by (nonlinear_arith)
            requires
                0 <= e < a * b,
                b >= 0,
        ;
        vstd::arithmetic::div_mod::lemma_fundamental_div_mod(e, b);
        let (x, y) = (e / b, e % b);
        assert(0 <= x < a) by (nonlinear_arith)
            requires
                e == b * x + y,
                0 <= y < b,
                0 <= e < a * b,
                b >= 1,
        ;
    }
    lemma_all_cut(edges, s);
}

/// 1 where two spins differ.
spec fn differ(s: Seq<i8>, i: int, j: int) -> int {
    if s[i] != s[j] {
        1
    } else {
        0
    }
}

/// A cycle of five spins changes at most four times.
proof fn lemma_pentagon(s: Seq<i8>, a: int, b: int, c: int, d: int, e: int)
    requires
        spins(s, 10),
        0 <= a < 10,
        0 <= b < 10,
        0 <= c < 10,
        0 <= d < 10,
        0 <= e < 10,
    ensures
        differ(s, a, b) + differ(s, b, c) + differ(s, c, d) + differ(s, d, e) + differ(s, e, a)
            <= 4,
{
    assert(s[a] == 1 || s[a] == -1);
    assert(s[b] == 1 || s[b] == -1);
    assert(s[c] == 1 || s[c] == -1);
    assert(s[d] == 1 || s[d] == -1);
    assert(s[e] == 1 || s[e] == -1);
}

proof fn lemma_petersen_cut(s: Seq<i8>)
    ensures
        cut_of(petersen_edges(), s) == differ(s, 0, 1) + differ(s, 5, 7) + differ(s, 0, 5) + differ(
            s,
            1,
            2,
        ) + differ(s, 6, 8) + differ(s, 1, 6) + differ(s, 2, 3) + differ(s, 7, 9) + differ(
            s,
            2,
            7,
        ) + differ(s, 3, 4) + differ(s, 8, 5) + differ(s, 3, 8) + differ(s, 4, 0) + differ(
            s,
            9,
            6,
        ) + differ(s, 4, 9),
{
    let p = petersen_edges();
    assert(p.take(15) =~= p);
    assert(p.take(0) =~= Seq::empty());
    assert forall|k: int| 0 < k <= 15 implies #[trigger] cut_of(p.take(k), s) == cut_of(
        p.take(k - 1),
        s,
    ) + edge_cut(p[k - 1], s) by {
        assert(p.take(k).drop_last() =~= p.take(k - 1));
    }
    assert(cut_of(p.take(1), s) == differ(s, 0, 1));
    assert(cut_of(p.take(2), s) == cut_of(p.take(1), s) + differ(s, 5, 7));
    assert(cut_of(p.take(3), s) == cut_of(p.take(2), s) + differ(s, 0, 5));
    assert(cut_of(p.take(4), s) == cut_of(p.take(3), s) + differ(s, 1, 2));
    assert(cut_of(p.take(5), s) == cut_of(p.take(4), s) + differ(s, 6, 8));
    assert(cut_of(p.take(6), s) == cut_of(p.take(5), s) + differ(s, 1, 6));
    assert(cut_of(p.take(7), s) == cut_of(p.take(6), s) + differ(s, 2, 3));
    assert(cut_of(p.take(8), s) == cut_of(p.take(7), s) + differ(s, 7, 9));
    assert(cut_of(p.take(9), s) == cut_of(p.take(8), s) + differ(s, 2, 7));
    assert(cut_of(p.take(10), s) == cut_of(p.take(9), s) + differ(s, 3, 4));
    assert(cut_of(p.take(11), s) == cut_of(p.take(10), s) + differ(s, 8, 5));
    assert(cut_of(p.take(12), s) == cut_of(p.take(11), s) + differ(s, 3, 8));
    assert(cut_of(p.take(13), s) == cut_of(p.take(12), s) + differ(s, 4, 0));
    assert(cut_of(p.take(14), s) == cut_of(p.take(13), s) + differ(s, 9, 6));
    assert(cut_of(p.take(15), s) == cut_of(p.take(14), s) + differ(s, 4, 9));
}

/// The Max-Cut of the Petersen graph is 12: it has twelve pentagons, every edge
/// lies on four of them, and a pentagon has at most four cut edges.
pub proof fn petersen_optimum()
    ensures
        is_max_cut(petersen_edges(), 10, 12),
{
    assert forall|s: Seq<i8>| #[trigger] spins(s, 10) implies cut_of(petersen_edges(), s) <= 12 by {
        lemma_petersen_cut(s);
        lemma_pentagon(s, 0, 1, 2, 3, 4);
        lemma_pentagon(s, 5, 7, 9, 6, 8);
        lemma_pentagon(s, 0, 1, 2, 7, 5);
        lemma_pentagon(s, 1, 2, 3, 8, 6);
        lemma_pentagon(s, 2, 3, 4, 9, 7);
        lemma_pentagon(s, 3, 4, 0, 5, 8);
        lemma_pentagon(s, 4, 0, 1, 6, 9);
        lemma_pentagon(s, 0, 1, 6, 8, 5);
        lemma_pentagon(s, 1, 2, 7, 9, 6);
        lemma_pentagon(s, 2, 3, 8, 5, 7);
        lemma_pentagon(s, 3, 4, 9, 6, 8);
        lemma_pentagon(s, 4, 0, 5, 7, 9);
    }
    let s = seq![1i8, 1i8, -1i8, 1i8, -1i8, -1i8, -1i8, 1i8, 1i8, 1i8];
    assert(spins(s, 10));
    lemma_petersen_cut(s);
}

/// The optimum that an instance carries is its Max-Cut.
pub proof fn known_optimum_is_max_cut(p: ProblemSpec)
    requires
        p.valid(),
        !(p is RandomRegular),
    ensures
        is_max_cut(p.closed_edges(), p.vertices(), p.optimum()),
{
    match p {
        ProblemSpec::Complete { n } => complete_optimum(n as int),
        ProblemSpec::Cycle { n } => cycle_optimum(n as int),
        ProblemSpec::CompleteBipartite { a, b } => bipartite_optimum(a as int, b as int),
        _ => petersen_optimum(),
    }
}

} // verus!
