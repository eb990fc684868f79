//! Edge lists: simplicity, vertex count and degrees.
use vstd::prelude::*;

verus! {

/// An edge with its smaller end first.
pub open spec fn normalize(e: (u32, u32)) -> (u32, u32) {
    if e.0 > e.1 {
        (e.1, e.0)
    } else {
        e
    }
}

/// Every edge with its smaller end first, in the same order.
pub open spec fn normalized(es: Seq<(u32, u32)>) -> Seq<(u32, u32)> {
    Seq::new(es.len(), |i: int| normalize(es[i]))
}

/// Some edge joins a vertex to itself.
pub open spec fn has_self_loop(es: Seq<(u32, u32)>) -> bool {
    exists|i: int| 0 <= i < es.len() && es[i].0 == es[i].1
}

/// Two edges join the same pair of vertices (in either direction).
pub open spec fn has_parallel_edges(es: Seq<(u32, u32)>) -> bool {
    exists|i: int, j: int| 0 <= i < j < es.len() && normalize(es[i]) == normalize(es[j])
}

/// The edge list describes a simple graph.
pub open spec fn is_simple(es: Seq<(u32, u32)>) -> bool {
    !has_self_loop(es) && !has_parallel_edges(es)
}

/// The largest vertex index named by the edges (0 for no edges).
pub open spec fn max_vertex(es: Seq<(u32, u32)>) -> u32
    decreases es.len(),
{
    if es.len() == 0 {
        0
    } else {
        let m = max_vertex(es.drop_last());
        let e = es.last();
        let k = if e.0 > e.1 {
            e.0
        } else {
            e.1
        };
        if m > k {
            m
        } else {
            k
        }
    }
}

/// The number of vertices: one more than the largest index.
pub open spec fn vertex_count(es: Seq<(u32, u32)>) -> nat {
    (max_vertex(es) + 1) as nat
}

/// The number of edges incident to `v`.
pub open spec fn degree(es: Seq<(u32, u32)>, v: u32) -> nat
    decreases es.len(),
{
    if es.len() == 0 {
        0
    } else {
        degree(es.drop_last(), v) + if es.last().0 == v || es.last().1 == v {
            1nat
        } else {
            0nat
        }
    }
}

pub proof fn lemma_degree_bound(es: Seq<(u32, u32)>, v: u32)
    ensures
        degree(es, v) <= es.len(),
    decreases es.len(),
{
    if es.len() > 0 {
        lemma_degree_bound(es.drop_last(), v);
    }
}

pub proof fn lemma_max_vertex(es: Seq<(u32, u32)>)
    ensures
        forall|i: int| 0 <= i < es.len() ==> es[i].0 <= max_vertex(es) && es[i].1 <= max_vertex(es),
    decreases es.len(),
{
    if es.len() > 0 {
        lemma_max_vertex(es.drop_last());
        assert forall|i: int| 0 <= i < es.len() implies es[i].0 <= max_vertex(es) && es[i].1
            <= max_vertex(es) by {
            if i < es.len() - 1 {
                assert(es[i] == es.drop_last()[i]);
            }
        }
    }
}

pub proof fn lemma_max_vertex_bound(es: Seq<(u32, u32)>, b: u32)
    requires
        b > 0,
        forall|i: int| 0 <= i < es.len() ==> es[i].0 < b && es[i].1 < b,
    ensures
        max_vertex(es) < b,
    decreases es.len(),
{
    if es.len() > 0 {
        let rest = es.drop_last();
        assert forall|i: int| 0 <= i < rest.len() implies rest[i].0 < b && rest[i].1 < b by {
            assert(rest[i] == es[i]);
        }
        lemma_max_vertex_bound(rest, b);
        assert(es.last() == es[es.len() - 1]);
    }
}

/// Whether the edge list describes a simple graph.
pub fn check_simple(edges: &Vec<(u32, u32)>) -> (r: bool)
    ensures
        r == is_simple(edges@),
{
    let n = edges.len();
    let mut i: usize = 0;
    while i < n
        invariant
            n == edges.len(),
            i <= n,
            forall|k: int| 0 <= k < i ==> edges@[k].0 != edges@[k].1,
            forall|k: int, l: int|
                0 <= k < i && k < l < n ==> normalize(edges@[k]) != normalize(edges@[l]),
        decreases n - i,
    {
        let (a, b) = edges[i];
        if a == b {
            assert(has_self_loop(edges@));
            return false;
        }
        let (p, q) = if a > b {
            (b, a)
        } else {
            (a, b)
        };
        let mut j: usize = i + 1;
        while j < n
            invariant
                n == edges.len(),
                i < n,
                i < j <= n,
                (p, q) == normalize(edges@[i as int]),
                forall|l: int| i < l < j ==> normalize(edges@[i as int]) != normalize(edges@[l]),
            decreases n - j,
        {
            let (c, d) = edges[j];
            let (s, t) = if c > d {
                (d, c)
            } else {
                (c, d)
            };
            if p == s && q == t {
                assert(normalize(edges@[i as int]) == normalize(edges@[j as int]));
                assert(has_parallel_edges(edges@));
                return false;
            }
            j = j + 1;
        }
        i = i + 1;
    }
    true
}

/// The largest vertex index named by the edges.
pub fn max_vertex_of(edges: &Vec<(u32, u32)>) -> (m: u32)
    ensures
        m == max_vertex(edges@),
{
    let mut m: u32 = 0;
    let mut i: usize = 0;
    while i < edges.len()
        invariant
            i <= edges.len(),
            m == max_vertex(edges@.subrange(0, i as int)),
        decreases edges.len() - i,
    {
        assert(edges@.subrange(0, i + 1 as int).drop_last() == edges@.subrange(0, i as int));
        let (a, b) = edges[i];
        let k = if a > b {
            a
        } else {
            b
        };
        if k > m {
            m = k;
        }
        i = i + 1;
    }
    assert(edges@.subrange(0, edges.len() as int) == edges@);
    m
}

/// The degree of every vertex below `n`.
pub fn count_degrees(edges: &Vec<(u32, u32)>, n: u32) -> (d: Vec<u32>)
    requires
        edges.len() < u32::MAX,
        forall|i: int| 0 <= i < edges.len() ==> edges@[i].0 < n && edges@[i].1 < n,
    ensures
        d.len() == n,
        forall|v: int| 0 <= v < n ==> d@[v] == degree(edges@, v as u32),
{
    let mut d: Vec<u32> = Vec::new();
    let mut v: u32 = 0;
    while v < n
        invariant
            v <= n,
            d.len() == v,
            forall|w: int| 0 <= w < v ==> d@[w] == 0,
        decreases n - v,
    {
        d.push(0);
        v = v + 1;
    }
    let mut i: usize = 0;
    while i < edges.len()
        invariant
            i <= edges.len() < u32::MAX,
            d.len() == n,
            forall|k: int| 0 <= k < edges.len() ==> edges@[k].0 < n && edges@[k].1 < n,
            forall|w: int|
                0 <= w < n ==> d@[w] == degree(edges@.subrange(0, i as int), w as u32),
        decreases edges.len() - i,
    {
        let ghost pre = edges@.subrange(0, i as int);
        let ghost post = edges@.subrange(0, i + 1 as int);
        assert(post.drop_last() == pre);
        proof {
            assert forall|w: u32| w < n implies degree(pre, w) <= i by {
                lemma_degree_bound(pre, w);
            }
        }
        let (a, b) = edges[i];
        let da = d[a as usize];
        d.set(a as usize, da + 1);
        if b != a {
            let db = d[b as usize];
            d.set(b as usize, db + 1);
        }
        assert forall|w: int| 0 <= w < n implies d@[w] == degree(post, w as u32) by {
        }
        i = i + 1;
    }
    assert(edges@.subrange(0, edges.len() as int) == edges@);
    d
}

} // verus!
