//! Graph constructors with closed-form Max-Cut optima, plus random regular
//! graphs by the pairing model.

use std::collections::HashSet;
use vstd::prelude::*;

verus! {

/// An undirected edge: two vertices and a weight.
pub type Edge = (u32, u32, i32);

/// Undirected weighted graph.
#[derive(Debug, Clone)]
pub struct Graph {
    pub n: usize,
    pub edges: Vec<Edge>,
}

/// Whether every edge joins vertices below `n`.
pub open spec fn edges_below(edges: Seq<Edge>, n: int) -> bool {
    forall|e: int| 0 <= e < edges.len() ==> (#[trigger] edges[e]).0 < n && edges[e].1 < n
}

impl Graph {
    pub open spec fn wf(&self) -> bool {
        edges_below(self.edges@, self.n as int)
    }
}

/// Unit edges from `i` to every vertex between `i` and `j`.
pub open spec fn fan(i: int, j: int) -> Seq<Edge>
    decreases j - i,
{
    if j <= i + 1 {
        Seq::empty()
    } else {
        fan(i, j - 1).push((i as u32, (j - 1) as u32, 1i32))
    }
}

/// Unit edges from each of the first `k` vertices to every later vertex below `n`.
pub open spec fn fans(n: int, k: int) -> Seq<Edge>
    decreases k,
{
    if k <= 0 {
        Seq::empty()
    } else {
        fans(n, k - 1) + fan(k - 1, n)
    }
}

/// Complete graph on `n` vertices, unit weights. Max-Cut is the balanced
/// bipartition.
pub fn complete(n: usize) -> (g: Graph)
    requires
        n <= u32::MAX,
    ensures
        g.wf(),
        g.n == n,
        g.edges@ == fans(n as int, n as int),
{
    let mut edges: Vec<Edge> = Vec::new();
    let mut i: usize = 0;
    while i < n
        invariant
            i <= n <= u32::MAX,
            edges@ == fans(n as int, i as int),
            edges_below(edges@, n as int),
        decreases n - i,
    {
        let ghost before = edges@;
        let mut j: usize = i + 1;
        assert(before + fan(i as int, i + 1) =~= before);
        while j < n
            invariant
                i < j <= n <= u32::MAX,
                edges@ == before + fan(i as int, j as int),
                edges_below(edges@, n as int),
            decreases n - j,
        {
            edges.push((i as u32, j as u32, 1));
            j += 1;
            assert(edges@ =~= before + fan(i as int, j as int));
        }
        i += 1;
    }
    Graph { n, edges }
}

/// Edges of a cycle on `n` vertices.
pub open spec fn ring(n: int) -> Seq<Edge> {
    Seq::new(n as nat, |i: int| (i as u32, ((i + 1) % n) as u32, 1i32))
}

/// Cycle on `n` vertices, unit weights. Max-Cut is `n` for even `n`, else
/// `n - 1`.
pub fn cycle(n: usize) -> (g: Graph)
    requires
        n <= u32::MAX,
    ensures
        g.wf(),
        g.n == n,
        g.edges@ == ring(n as int),
{
    let mut edges: Vec<Edge> = Vec::new();
    let mut i: usize = 0;
    while i < n
        invariant
            i <= n <= u32::MAX,
            edges@.len() == i,
            edges_below(edges@, n as int),
            forall|k: int|
                0 <= k < i ==> #[trigger] edges@[k] == (
                    k as u32,
                    ((k + 1) % n as int) as u32,
                    1i32,
                ),
        decreases n - i,
    {
        let next: usize = if i + 1 < n {
            i + 1
        } else {
            0
        };
        proof {
            if i + 1 < n {
                vstd::arithmetic::div_mod::lemma_small_mod((i + 1) as nat, n as nat);
            } else {
                vstd::arithmetic::div_mod::lemma_mod_self_0(n as int);
            }
        }
        edges.push((i as u32, next as u32, 1));
        i += 1;
    }
    assert(edges@ =~= ring(n as int));
    Graph { n, edges }
}

/// Edges of a complete bipartite graph with sides of `a` and `b` vertices.
pub open spec fn crossing(a: int, b: int) -> Seq<Edge> {
    Seq::new((a * b) as nat, |q: int| ((q / b) as u32, (a + q % b) as u32, 1i32))
}

/// Complete bipartite graph, unit weights. Max-Cut is `a.b` (cut everything).
pub fn complete_bipartite(a: usize, b: usize) -> (g: Graph)
    requires
        a + b <= u32::MAX,
        a * b <= usize::MAX,
    ensures
        g.wf(),
        g.n == a + b,
        g.edges@ == crossing(a as int, b as int),
{
    let total: usize = a * b;
    let mut edges: Vec<Edge> = Vec::new();
    let mut q: usize = 0;
    while q < total
        invariant
            q <= total,
            total == a * b,
            a + b <= u32::MAX,
            edges@.len() == q,
            edges_below(edges@, a + b),
            forall|k: int|
                0 <= k < q ==> #[trigger] edges@[k] == (
                    (k / b as int) as u32,
                    (a + k % b as int) as u32,
                    1i32,
                ),
        decreases total - q,
    {
        proof {
            assert(b >= 1) by (nonlinear_arith)
                requires
                    0 <= q < a * b,
                    b >= 0,
            ;
            vstd::arithmetic::div_mod::lemma_fundamental_div_mod(q as int, b as int);
            let (x, y) = (q as int / b as int, q as int % b as int);
            assert(x < a) by (nonlinear_arith)
                requires
                    q == b * x + y,
                    0 <= y,
                    q < a * b,
                    b >= 1,
            ;
        }
        edges.push(((q / b) as u32, (a + q % b) as u32, 1));
        q += 1;
    }
    assert(edges@ =~= crossing(a as int, b as int));
    Graph { n: a + b, edges }
}

/// Edges of the Petersen graph: five rounds of an outer edge, an inner edge
/// and a spoke.
pub open spec fn petersen_edges() -> Seq<Edge> {
    seq![
        (0u32, 1u32, 1i32),
        (5u32, 7u32, 1i32),
        (0u32, 5u32, 1i32),
        (1u32, 2u32, 1i32),
        (6u32, 8u32, 1i32),
        (1u32, 6u32, 1i32),
        (2u32, 3u32, 1i32),
        (7u32, 9u32, 1i32),
        (2u32, 7u32, 1i32),
        (3u32, 4u32, 1i32),
        (8u32, 5u32, 1i32),
        (3u32, 8u32, 1i32),
        (4u32, 0u32, 1i32),
        (9u32, 6u32, 1i32),
        (4u32, 9u32, 1i32),
    ]
}

/// The Petersen graph (10 vertices, 15 edges, 3-regular): outer 5-cycle, inner
/// pentagram, spokes. Max-Cut is 12.
pub fn petersen() -> (g: Graph)
    ensures
        g.wf(),
        g.n == 10,
        g.edges@ == petersen_edges(),
{
    let mut edges: Vec<Edge> = Vec::new();
    let mut i: u32 = 0;
    while i < 5
        invariant
            i <= 5,
            edges@ == petersen_edges().take(3 * i),
        decreases 5 - i,
    {
        edges.push((i, (i + 1) % 5, 1));
        edges.push((5 + i, 5 + (i + 2) % 5, 1));
        edges.push((i, 5 + i, 1));
        i += 1;
        assert(edges@ =~= petersen_edges().take(3 * i));
    }
    assert(edges@ =~= petersen_edges());
    Graph { n: 10, edges }
}

/// Every vertex below `n` listed `d` times.
pub open spec fn stub_list(n: int, d: int) -> Seq<u32> {
    Seq::new((n * d) as nat, |q: int| (q / d) as u32)
}

/// The list after the shuffle steps at places `len - 1` down to `i + 1`: step
/// `m` exchanges place `m` with place `draws[len - 1 - m]`.
pub open spec fn shuffled(s: Seq<u32>, draws: Seq<usize>, i: int) -> Seq<u32>
    decreases s.len() - i,
{
    if i >= s.len() - 1 || i < 0 {
        s
    } else {
        let t = shuffled(s, draws, i + 1);
        let j = draws[s.len() - 2 - i] as int;
        t.update(i + 1, t[j]).update(j, t[i + 1])
    }
}

/// Whether the draws are places that a shuffle of `len` items can use.
pub open spec fn draws_fit(draws: Seq<usize>, len: int) -> bool {
    &&& draws.len() + 1 == len || (len == 0 && draws.len() == 0)
    &&& forall|k: int| 0 <= k < draws.len() ==> #[trigger] draws[k] <= len - 1 - k
}

/// The edge that a pair of stubs makes: the smaller vertex first.
pub open spec fn pair_edge(s: Seq<u32>, k: int) -> Edge {
    let (a, b) = (s[2 * k], s[2 * k + 1]);
    if a < b {
        (a, b, 1i32)
    } else {
        (b, a, 1i32)
    }
}

/// The edges that the first `k` pairs of stubs make.
pub open spec fn pair_edges(s: Seq<u32>, k: int) -> Seq<Edge> {
    Seq::new(k as nat, |i: int| pair_edge(s, i))
}

/// Whether no edge joins a vertex to itself and no two edges join the same
/// vertices.
pub open spec fn simple(edges: Seq<Edge>) -> bool {
    &&& forall|e: int| 0 <= e < edges.len() ==> (#[trigger] edges[e]).0 < edges[e].1
    &&& forall|e: int, f: int|
        0 <= e < f < edges.len() ==> (#[trigger] edges[e]).0 != (#[trigger] edges[f]).0 || edges[e].1
            != edges[f].1
}

/// How often `v` is an end of an edge.
pub open spec fn vertex_degree(edges: Seq<Edge>, v: u32) -> int
    decreases edges.len(),
{
    if edges.len() == 0 {
        0
    } else {
        let e = edges.last();
        vertex_degree(edges.drop_last(), v) + (if e.0 == v {
            1int
        } else {
            0
        }) + (if e.1 == v {
            1int
        } else {
            0
        })
    }
}

/// One attempt of the pairing model: list every vertex `d` times, shuffle with
/// the given draws, pair neighbours. `None` where a pair joins a vertex to
/// itself or repeats an edge.
pub fn pair_stubs(n: usize, d: usize, draws: &Vec<usize>) -> (r: Option<Graph>)
    requires
        n <= u32::MAX,
        n * d <= usize::MAX,
        (n * d) % 2 == 0,
        draws_fit(draws@, n * d),
    ensures
        ({
            let edges = pair_edges(
                shuffled(stub_list(n as int, d as int), draws@, 0),
                (n * d) / 2,
            );
            match r {
                Some(g) => simple(edges) && g.n == n && g.edges@ == edges && g.wf(),
                None => !simple(edges),
            }
        }),
{
    let stubs = shuffle(n, d, draws);
    let ghost all = stubs@;
    let m: usize = stubs.len() / 2;
    let ghost edges_all = pair_edges(all, m as int);
    let mut seen: HashSet<u64> = HashSet::new();
    let mut edges: Vec<Edge> = Vec::new();
    broadcast use vstd::std_specs::hash::group_hash_axioms;

    let mut k: usize = 0;
    while k < m
        invariant
            k <= m,
            m == all.len() / 2,
            stubs@ == all,
            all.len() <= usize::MAX,
            forall|q: int| 0 <= q < all.len() ==> (#[trigger] all[q]) < n,
            all == shuffled(stub_list(n as int, d as int), draws@, 0),
            m == (n * d) / 2,
            edges_all == pair_edges(all, m as int),
            edges@ == pair_edges(all, k as int),
            edges_below(edges@, n as int),
            simple(edges@),
            forall|e: int|
                0 <= e < k ==> seen@.contains(
                    edge_code((#[trigger] edges@[e]).0, edges@[e].1),
                ),
            forall|c: u64|
                #[trigger] seen@.contains(c) ==> exists|e: int|
                    0 <= e < k && c == edge_code((#[trigger] edges@[e]).0, edges@[e].1),
        decreases m - k,
    {
        let a: u32 = stubs[2 * k];
        let b: u32 = stubs[2 * k + 1];
        assert(all[2 * k] < n && all[2 * k + 1] < n);
        let ghost next = pair_edge(all, k as int);
        assert(edges_all[k as int] == next);
        if a == b {
            assert(!(edges_all[k as int].0 < edges_all[k as int].1));
            return None;
        }
        let (x, y): (u32, u32) = if a < b {
            (a, b)
        } else {
            (b, a)
        };
        let code: u64 = ends_code(x, y);
        if !seen.insert(code) {
            proof {
                let e = choose|e: int|
                    0 <= e < k && code == edge_code((#[trigger] edges@[e]).0, edges@[e].1);
                lemma_code_injective(x, y, edges@[e].0, edges@[e].1);
                assert(edges_all[e] == edges@[e]);
                assert(edges_all[e].0 == edges_all[k as int].0 && edges_all[e].1
                    == edges_all[k as int].1);
            }
            return None;
        }
        let ghost before = edges@;
        edges.push((x, y, 1));
        proof {
            assert(edges@ =~= pair_edges(all, k + 1));
            assert forall|e: int, f: int| 0 <= e < f < edges@.len() implies (#[trigger] edges@[e]).0
                != (#[trigger] edges@[f]).0 || edges@[e].1 != edges@[f].1 by {
                if f == k {
                    assert(edges@[e] == before[e]);
                    assert(seen@.contains(edge_code(before[e].0, before[e].1)));
                    if edges@[e].0 == x && edges@[e].1 == y {
                        assert(edge_code(before[e].0, before[e].1) == code);
                    }
                } else {
                    assert(before[e].0 != before[f].0 || before[e].1 != before[f].1);
                }
            }
            assert forall|c: u64| #[trigger] seen@.contains(c) implies exists|e: int|
                0 <= e < k + 1 && c == edge_code((#[trigger] edges@[e]).0, edges@[e].1) by {
                if c == code {
                    assert(c == edge_code(edges@[k as int].0, edges@[k as int].1));
                } else {
                    let e = choose|e: int|
                        0 <= e < k && c == edge_code((#[trigger] before[e]).0, before[e].1);
                    assert(edges@[e] == before[e]);
                }
            }
            assert forall|e: int| 0 <= e < k + 1 implies seen@.contains(
                edge_code((#[trigger] edges@[e]).0, edges@[e].1),
            ) by {
                if e < k {
                    assert(edges@[e] == before[e]);
                }
            }
        }
        k += 1;
    }
    Some(Graph { n, edges })
}

/// One number for an edge.
pub open spec fn edge_code(a: u32, b: u32) -> u64 {
    (a as int * 0x1_0000_0000 + b as int) as u64
}

fn ends_code(a: u32, b: u32) -> (c: u64)
    ensures
        c == edge_code(a, b),
{
    a as u64 * 0x1_0000_0000 + b as u64
}

proof fn lemma_code_injective(a: u32, b: u32, c: u32, d: u32)
    requires
        edge_code(a, b) == edge_code(c, d),
    ensures
        a == c,
        b == d,
{
}

/// The shuffled list of stubs.
fn shuffle(n: usize, d: usize, draws: &Vec<usize>) -> (s: Vec<u32>)
    requires
        n <= u32::MAX,
        n * d <= usize::MAX,
        draws_fit(draws@, n * d),
    ensures
        s@ == shuffled(stub_list(n as int, d as int), draws@, 0),
        s@.len() == n * d,
        forall|q: int| 0 <= q < s@.len() ==> (#[trigger] s@[q]) < n,
{
    let total: usize = n * d;
    let mut s: Vec<u32> = Vec::new();
    let ghost list = stub_list(n as int, d as int);
    let mut q: usize = 0;
    while q < total
        invariant
            q <= total,
            total == n * d,
            n <= u32::MAX,
            list == stub_list(n as int, d as int),
            s@.len() == q,
            forall|k: int| 0 <= k < q ==> (#[trigger] s@[k]) == list[k] && s@[k] < n,
        decreases total - q,
    {
        proof {
            assert(d >= 1) by (nonlinear_arith)
                requires
                    0 <= q < n * d,
                    d >= 0,
            ;
            vstd::arithmetic::div_mod::lemma_fundamental_div_mod(q as int, d as int);
            let (x, y) = (q as int / d as int, q as int % d as int);
            assert(x < n) by (nonlinear_arith)
                requires
                    q == d * x + y,
                    0 <= y,
                    q < n * d,
                    d >= 1,
            ;
        }
        s.push((q / d) as u32);
        q += 1;
    }
    assert(s@ =~= list);
    if total == 0 {
        return s;
    }
    let mut i: usize = total - 1;
    while i > 0
        invariant
            i < total,
            total == n * d,
            list.len() == total,
            draws_fit(draws@, total as int),
            s@.len() == total,
            s@ == shuffled(list, draws@, i as int),
            forall|k: int| 0 <= k < total ==> (#[trigger] s@[k]) < n,
        decreases i,
    {
        let j: usize = draws[total - 1 - i];
        assert(draws@[total - 1 - i] <= total - 1 - (total - 1 - i));
        let a: u32 = s[i];
        let b: u32 = s[j];
        s.set(i, b);
        s.set(j, a);
        i -= 1;
        assert(s@ =~= shuffled(list, draws@, i as int));
    }
    s
}

/// Random `d`-regular graph: the first attempt of the pairing model that gives
/// a simple graph. `None` where none of the attempts does.
pub fn random_regular(n: usize, d: usize, attempts: &Vec<Vec<usize>>) -> (r: Option<Graph>)
    requires
        n <= u32::MAX,
        d < n,
        n * d <= usize::MAX,
        (n * d) % 2 == 0,
        forall|t: int| 0 <= t < attempts@.len() ==> draws_fit((#[trigger] attempts@[t])@, n * d),
    ensures
        match r {
            Some(g) => exists|t: int|
                #![trigger attempts@[t]]
                0 <= t < attempts@.len() && g.n == n && g.wf() && simple(g.edges@) && g.edges@
                    == pairing(n as int, d as int, attempts@[t]@) && forall|u: int|
                    0 <= u < t ==> !simple(
                        pairing(n as int, d as int, (#[trigger] attempts@[u])@),
                    ),
            None => forall|u: int|
                0 <= u < attempts@.len() ==> !simple(
                    pairing(n as int, d as int, (#[trigger] attempts@[u])@),
                ),
        },
{
    let mut t: usize = 0;
    while t < attempts.len()
        invariant
            t <= attempts@.len(),
            n <= u32::MAX,
            n * d <= usize::MAX,
            (n * d) % 2 == 0,
            forall|u: int|
                0 <= u < attempts@.len() ==> draws_fit((#[trigger] attempts@[u])@, n * d),
            forall|u: int|
                0 <= u < t ==> !simple(
                    pairing(n as int, d as int, (#[trigger] attempts@[u])@),
                ),
        decreases attempts@.len() - t,
    {
        match pair_stubs(n, d, &attempts[t]) {
            Some(g) => {
                return Some(g);
            },
            None => {},
        }
        t += 1;
    }
    None
}

/// The edges of one attempt of the pairing model.
pub open spec fn pairing(n: int, d: int, draws: Seq<usize>) -> Seq<Edge> {
    pair_edges(shuffled(stub_list(n, d), draws, 0), (n * d) / 2)
}

/// How often `v` stands in a list.
pub open spec fn occurrences(s: Seq<u32>, v: u32) -> int
    decreases s.len(),
{
    if s.len() == 0 {
        0
    } else {
        occurrences(s.drop_last(), v) + if s.last() == v {
            1int
        } else {
            0
        }
    }
}

proof fn lemma_occurrences_update(s: Seq<u32>, i: int, x: u32, v: u32)
    requires
        0 <= i < s.len(),
    ensures
        occurrences(s.update(i, x), v) == occurrences(s, v) - (if s[i] == v {
            1int
        } else {
            0
        }) + (if x == v {
            1int
        } else {
            0
        }),
    decreases s.len(),
{
    let t = s.update(i, x);
    if i == s.len() - 1 {
        assert(t.drop_last() =~= s.drop_last());
    } else {
        assert(t.drop_last() =~= s.drop_last().update(i, x));
        lemma_occurrences_update(s.drop_last(), i, x, v);
    }
}

proof fn lemma_shuffle_keeps(s: Seq<u32>, draws: Seq<usize>, i: int, v: u32)
    requires
        draws_fit(draws, s.len() as int),
        0 <= i,
    ensures
        shuffled(s, draws, i).len() == s.len(),
        occurrences(shuffled(s, draws, i), v) == occurrences(s, v),
    decreases s.len() - i,
{
    if i < s.len() - 1 {
        lemma_shuffle_keeps(s, draws, i + 1, v);
        let t = shuffled(s, draws, i + 1);
        let k = s.len() - 2 - i;
        assert(draws[k] <= s.len() - 1 - k);
        let j = draws[k] as int;
        lemma_occurrences_update(t, i + 1, t[j], v);
        lemma_occurrences_update(t.update(i + 1, t[j]), j, t[i + 1], v);
    }
}

proof fn lemma_stub_occurrences(n: int, d: int, v: int, m: int)
    requires
        0 <= v < n <= u32::MAX,
        d >= 1,
        0 <= m <= n * d,
    ensures
        occurrences(stub_list(n, d).take(m), v as u32) == (if m <= v * d {
            0
        } else if m >= (v + 1) * d {
            d
        } else {
            m - v * d
        }),
    decreases m,
{
    assert(v * d <= (v + 1) * d && (v + 1) * d == v * d + d) by (nonlinear_arith)
        requires
            d >= 1,
    ;
    assert(0 <= v * d) by (nonlinear_arith)
        requires
            0 <= v,
            d >= 1,
    ;
    if m > 0 {
        lemma_stub_occurrences(n, d, v, m - 1);
        let s = stub_list(n, d);
        assert(s.take(m).drop_last() =~= s.take(m - 1));
        let q = m - 1;
        vstd::arithmetic::div_mod::lemma_fundamental_div_mod(q, d);
        let (x, y) = (q / d, q % d);
        assert(0 <= x < n) by (nonlinear_arith)
            requires
                q == d * x + y,
                0 <= y < d,
                0 <= q < n * d,
                d >= 1,
        ;
        assert(x == v <==> v * d <= q < (v + 1) * d) by (nonlinear_arith)
            requires
                q == d * x + y,
                0 <= y < d,
                d >= 1,
        ;
    }
}

proof fn lemma_degree_is_occurrences(s: Seq<u32>, k: int, v: u32)
    requires
        0 <= k,
        2 * k <= s.len(),
    ensures
        vertex_degree(pair_edges(s, k), v) == occurrences(s.take(2 * k), v),
    decreases k,
{
    if k > 0 {
        lemma_degree_is_occurrences(s, k - 1, v);
        assert(pair_edges(s, k).drop_last() =~= pair_edges(s, k - 1));
        let a = s.take(2 * k);
        assert(a.drop_last().drop_last() =~= s.take(2 * (k - 1)));
        assert(a.last() == s[2 * k - 1]);
        assert(a.drop_last().last() == s[2 * k - 2]);
        reveal_with_fuel(occurrences, 3);
        assert(pair_edges(s, k).last() == pair_edge(s, k - 1));
    } else {
        assert(s.take(0) =~= Seq::empty());
        assert(pair_edges(s, 0) =~= Seq::empty());
    }
}

/// What the pairing model gives is regular: every vertex is an end of exactly
/// `d` edges, whatever the draws.
pub proof fn pairing_is_regular(n: int, d: int, draws: Seq<usize>, v: int)
    requires
        0 <= v < n <= u32::MAX,
        d >= 0,
        (n * d) % 2 == 0,
        draws_fit(draws, n * d),
    ensures
        vertex_degree(pairing(n, d, draws), v as u32) == d,
        pairing(n, d, draws).len() == (n * d) / 2,
{
    let list = stub_list(n, d);
    assert(n * d >= 0) by (nonlinear_arith)
        requires
            n >= 0,
            d >= 0,
    ;
    let s = shuffled(list, draws, 0);
    lemma_shuffle_keeps(list, draws, 0, v as u32);
    let k = (n * d) / 2;
    lemma_degree_is_occurrences(s, k, v as u32);
    assert(s.take(2 * k) =~= s);
    assert(list.take(n * d) =~= list);
    if d >= 1 {
        lemma_stub_occurrences(n, d, v, n * d);
        assert((v + 1) * d <= n * d) by (nonlinear_arith)
            requires
                v + 1 <= n,
                d >= 1,
        ;
        assert(v * d < n * d) by (nonlinear_arith)
            requires
                v < n,
                d >= 1,
        ;
    } else {
        assert(n * d == 0) by (nonlinear_arith)
            requires
                d == 0,
        ;
        assert(list =~= Seq::empty());
    }
}

} // verus!
