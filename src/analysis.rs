use vstd::prelude::*;
use std::collections::HashMap;
use crate::graph::{rows_in_range, Graph};

verus! {

broadcast use vstd::std_specs::hash::group_hash_axioms;

/// An exact fraction `num / den`.
#[derive(Clone, Copy, Debug, PartialEq, Eq, Structural)]
pub struct Ratio {
    pub num: u128,
    pub den: u128,
}

/// The number of vertices among the first `k` whose degree is `d`.
pub open spec fn degree_count(adj: Seq<Seq<usize>>, d: int, k: int) -> nat
    decreases k,
{
    if k <= 0 {
        0
    } else {
        degree_count(adj, d, k - 1) + if adj[k - 1].len() == d {
            1nat
        } else {
            0nat
        }
    }
}

/// How many entries of `row` are listed in `set`.
pub open spec fn count_members(row: Seq<usize>, set: Seq<usize>) -> nat
    decreases row.len(),
{
    if row.len() == 0 {
        0
    } else {
        count_members(row.drop_last(), set) + if set.contains(row.last()) {
            1nat
        } else {
            0nat
        }
    }
}

/// Over the vertices `xs`, the total number of their neighbours listed in
/// `set`.
pub open spec fn sum_counts(adj: Seq<Seq<usize>>, xs: Seq<usize>, set: Seq<usize>) -> nat
    decreases xs.len(),
{
    if xs.len() == 0 {
        0
    } else {
        sum_counts(adj, xs.drop_last(), set) + count_members(adj[xs.last() as int], set)
    }
}

proof fn lemma_degree_count_le(adj: Seq<Seq<usize>>, d: int, k: int)
    requires
        k >= 0,
    ensures
        degree_count(adj, d, k) <= k,
    decreases k,
{
    if k > 0 {
        lemma_degree_count_le(adj, d, k - 1);
    }
}

proof fn lemma_count_members_le(row: Seq<usize>, set: Seq<usize>)
    ensures
        count_members(row, set) <= row.len(),
    decreases row.len(),
{
    if row.len() > 0 {
        lemma_count_members_le(row.drop_last(), set);
    }
}

/// Maps each degree that occurs to the number of vertices having it.
pub fn degree_distribution(graph: &Graph) -> (r: HashMap<usize, usize>)
    requires
        graph.wf(),
    ensures
        forall|d: usize|
            #![trigger r@.contains_key(d)]
            r@.contains_key(d) <==> degree_count(graph.adj(), d as int, graph.num_vertices() as int)
                > 0,
        forall|d: usize|
            r@.contains_key(d) ==> r@[d] == degree_count(
                graph.adj(),
                d as int,
                graph.num_vertices() as int,
            ),
{
    let ghost adj = graph.adj();
    let n = graph.num_vertices_exec();
    let mut counts: HashMap<usize, usize> = HashMap::new();
    let mut i: usize = 0;
    while i < n
        invariant
            graph.wf(),
            adj == graph.adj(),
            n == graph.num_vertices(),
            i <= n,
            forall|d: usize|
                #![trigger counts@.contains_key(d)]
                counts@.contains_key(d) <==> degree_count(adj, d as int, i as int) > 0,
            forall|d: usize|
                counts@.contains_key(d) ==> counts@[d] == degree_count(adj, d as int, i as int),
        decreases n - i,
    {
        let d = graph.neighbors(i).len();
        let ghost before = counts@;
        proof {
            lemma_degree_count_le(adj, d as int, i as int);
            assert(adj[i as int].len() == d);
        }
        match counts.get(&d) {
            Some(c) => {
                let c = *c;
                assert(before.contains_key(d) && before[d] == c);
                counts.insert(d, c + 1);
            },
            None => {
                assert(!before.contains_key(d));
                counts.insert(d, 1);
            },
        }
        proof {
            assert forall|e: usize| #![trigger counts@.contains_key(e)]
                (counts@.contains_key(e) <==> degree_count(adj, e as int, i + 1) > 0)
                && (counts@.contains_key(e) ==> counts@[e] == degree_count(adj, e as int, i + 1)) by {
                assert(degree_count(adj, e as int, i + 1) == degree_count(adj, e as int, i as int)
                    + if adj[i as int].len() == e {
                    1nat
                } else {
                    0nat
                });
                if e != d {
                    assert(counts@.contains_key(e) == before.contains_key(e));
                }
            }
        }
        i = i + 1;
    }
    counts
}


/// `r` holds exactly the fraction `p.0 / p.1`, unreduced.
pub open spec fn ratio_is(r: Ratio, p: (int, int)) -> bool {
    r.num == p.0 && r.den == p.1
}

/// Twice the number of links among the neighbours of `v`: each neighbour
/// pair that is linked is counted once from each side.
pub open spec fn links(adj: Seq<Seq<usize>>, v: int) -> nat {
    sum_counts(adj, adj[v], adj[v])
}

/// The ordered neighbour pairs of a vertex of degree `d`.
pub open spec fn triplets(d: nat) -> nat {
    if d >= 2 {
        d * (d - 1) as nat
    } else {
        0
    }
}

/// The local clustering coefficient of `v`, as `links / (d * (d - 1))`,
/// and `0 / 1` below degree two.
pub open spec fn local_clustering(adj: Seq<Seq<usize>>, v: int) -> (int, int) {
    let d = adj[v].len();
    if d < 2 {
        (0, 1)
    } else {
        (links(adj, v) as int, (d * (d - 1)) as int)
    }
}

/// The sum of the degrees of the first `k` vertices.
pub open spec fn total_degree(adj: Seq<Seq<usize>>, k: int) -> nat
    decreases k,
{
    if k <= 0 {
        0
    } else {
        total_degree(adj, k - 1) + adj[k - 1].len()
    }
}

/// The sum of `links` over the first `k` vertices.
pub open spec fn total_links(adj: Seq<Seq<usize>>, k: int) -> nat
    decreases k,
{
    if k <= 0 {
        0
    } else {
        total_links(adj, k - 1) + links(adj, k - 1)
    }
}

/// The sum of `triplets` of the degrees of the first `k` vertices.
pub open spec fn total_triplets(adj: Seq<Seq<usize>>, k: int) -> nat
    decreases k,
{
    if k <= 0 {
        0
    } else {
        total_triplets(adj, k - 1) + triplets(adj[k - 1].len())
    }
}

proof fn lemma_sum_counts_le(adj: Seq<Seq<usize>>, xs: Seq<usize>, set: Seq<usize>, b: nat)
    requires
        forall|k: int| 0 <= k < xs.len() ==> adj[#[trigger] xs[k] as int].len() <= b,
    ensures
        sum_counts(adj, xs, set) <= xs.len() * b,
    decreases xs.len(),
{
    if xs.len() > 0 {
        let ys = xs.drop_last();
        assert forall|k: int| 0 <= k < ys.len() implies adj[#[trigger] ys[k] as int].len() <= b by {
            assert(ys[k] == xs[k]);
        }
        lemma_sum_counts_le(adj, ys, set, b);
        lemma_count_members_le(adj[xs.last() as int], set);
        assert(xs.len() * b == ys.len() * b + b) by (nonlinear_arith)
            requires
                xs.len() == ys.len() + 1,
        ;
    }
}

/// A duplicate-free row of entries below `n` has at most `n` entries.
proof fn lemma_row_len_le(row: Seq<usize>, n: nat)
    requires
        row.no_duplicates(),
        forall|k: int| 0 <= k < row.len() ==> #[trigger] row[k] < n,
    ensures
        row.len() <= n,
{
    let f = |x: usize| x as int;
    let m = row.map_values(f);
    assert(vstd::relations::injective(f));
    row.lemma_no_duplicates_injective(f);
    m.unique_seq_to_set();
    let r = vstd::set_lib::set_int_range(0, n as int);
    vstd::set_lib::lemma_int_range(0, n as int);
    assert(m.to_set().subset_of(r)) by {
        assert forall|x: int| m.to_set().contains(x) implies r.contains(x) by {
            let k = choose|k: int| 0 <= k < m.len() && m[k] == x;
            assert(row[k] < n);
        }
    }
    vstd::set_lib::lemma_len_subset(m.to_set(), r);
}

/// Whether `x` is an entry of `v`.
fn contains(v: &Vec<usize>, x: usize) -> (r: bool)
    ensures
        r == v@.contains(x),
{
    let mut k: usize = 0;
    while k < v.len()
        invariant
            k <= v@.len(),
            forall|m: int| 0 <= m < k ==> v@[m] != x,
        decreases v@.len() - k,
    {
        if v[k] == x {
            assert(v@[k as int] == x);
            return true;
        }
        k = k + 1;
    }
    false
}

/// How many entries of `row` are listed in `set`.
fn count_members_exec(row: &Vec<usize>, set: &Vec<usize>) -> (c: usize)
    ensures
        c == count_members(row@, set@),
{
    let mut c: usize = 0;
    let mut k: usize = 0;
    while k < row.len()
        invariant
            k <= row@.len(),
            c == count_members(row@.subrange(0, k as int), set@),
            c <= k,
        decreases row@.len() - k,
    {
        assert(row@.subrange(0, k + 1).drop_last() =~= row@.subrange(0, k as int));
        if contains(set, row[k]) {
            c = c + 1;
        }
        k = k + 1;
    }
    assert(row@.subrange(0, row@.len() as int) =~= row@);
    c
}

/// Over the vertices `xs`, the total number of their neighbours listed in
/// `set`.
fn sum_counts_exec(graph: &Graph, xs: &Vec<usize>, set: &Vec<usize>) -> (c: u128)
    requires
        graph.wf(),
        forall|k: int| 0 <= k < xs@.len() ==> #[trigger] xs@[k] < graph.num_vertices(),
    ensures
        c == sum_counts(graph.adj(), xs@, set@),
{
    let ghost adj = graph.adj();
    let mut c: u128 = 0;
    let mut k: usize = 0;
    while k < xs.len()
        invariant
            graph.wf(),
            adj == graph.adj(),
            forall|m: int| 0 <= m < xs@.len() ==> #[trigger] xs@[m] < graph.num_vertices(),
            k <= xs@.len(),
            c == sum_counts(adj, xs@.subrange(0, k as int), set@),
            c <= k * (usize::MAX as int),
        decreases xs@.len() - k,
    {
        assert(xs@.subrange(0, k + 1).drop_last() =~= xs@.subrange(0, k as int));
        assert(xs@[k as int] < graph.num_vertices());
        let m = count_members_exec(graph.neighbors(xs[k]), set);
        assert(c + m <= (k + 1) * (usize::MAX as int)) by (nonlinear_arith)
            requires
                c <= k * (usize::MAX as int),
                m <= usize::MAX,
        ;
        assert((k + 1) * (usize::MAX as int) <= usize::MAX * (usize::MAX as int)) by (nonlinear_arith)
            requires
                k + 1 <= usize::MAX,
        ;
        c = c + m as u128;
        k = k + 1;
    }
    assert(xs@.subrange(0, xs@.len() as int) =~= xs@);
    c
}

/// The local clustering coefficient of vertex `v`.
fn local_clustering_at(graph: &Graph, v: usize) -> (r: Ratio)
    requires
        graph.wf(),
        v < graph.num_vertices(),
    ensures
        ratio_is(r, local_clustering(graph.adj(), v as int)),
{
    let row = graph.neighbors(v);
    let d = row.len();
    if d < 2 {
        return Ratio { num: 0, den: 1 };
    }
    proof {
        assert(rows_in_range(graph.adj(), graph.num_vertices()));
        assert forall|k: int| 0 <= k < row@.len() implies #[trigger] row@[k] < graph.num_vertices() by {
            assert(graph.adj()[v as int][k] < graph.num_vertices());
        }
    }
    let l = sum_counts_exec(graph, row, row);
    let dd = d as u128;
    assert(dd * (dd - 1) <= u128::MAX) by (nonlinear_arith)
        requires
            dd <= usize::MAX,
            dd >= 2,
    ;
    Ratio { num: l, den: dd * (dd - 1) }
}

/// The local clustering coefficient of the vertex labelled `node`:
/// the fraction of its neighbour pairs that are themselves linked, and
/// `0` below degree two. `None` when no vertex has that label.
pub fn clustering_coefficient(graph: &Graph, node: &str) -> (r: Option<Ratio>)
    requires
        graph.wf(),
    ensures
        r.is_some() == graph.names().contains(node@),
        match r {
            Some(c) => ratio_is(c, local_clustering(graph.adj(), graph.names().index_of(node@))),
            None => true,
        },
{
    let s = node.to_owned();
    match graph.index_of(&s) {
        None => None,
        Some(v) => {
            proof {
                graph.lemma_index_of_label(v as int);
            }
            Some(local_clustering_at(graph, v))
        },
    }
}

/// The local clustering coefficient of every vertex, by index.
pub fn clustering_coefficients(graph: &Graph) -> (r: Vec<Ratio>)
    requires
        graph.wf(),
    ensures
        r@.len() == graph.num_vertices(),
        forall|v: int|
            0 <= v < graph.num_vertices() ==> ratio_is(
                #[trigger] r@[v],
                local_clustering(graph.adj(), v),
            ),
{
    let n = graph.num_vertices_exec();
    let mut out: Vec<Ratio> = Vec::new();
    let mut v: usize = 0;
    while v < n
        invariant
            graph.wf(),
            n == graph.num_vertices(),
            v <= n,
            out@.len() == v,
            forall|u: int| 0 <= u < v ==> ratio_is(#[trigger] out@[u], local_clustering(graph.adj(), u)),
        decreases n - v,
    {
        let c = local_clustering_at(graph, v);
        out.push(c);
        v = v + 1;
    }
    out
}

/// The mean degree, as the sum of the degrees over the number of vertices;
/// `0 / 1` for an empty graph.
pub fn average_degree(graph: &Graph) -> (r: Ratio)
    requires
        graph.wf(),
    ensures
        graph.num_vertices() == 0 ==> ratio_is(r, (0, 1)),
        graph.num_vertices() > 0 ==> ratio_is(
            r,
            (total_degree(graph.adj(), graph.num_vertices() as int) as int, graph.num_vertices() as int),
        ),
{
    let ghost adj = graph.adj();
    let n = graph.num_vertices_exec();
    if n == 0 {
        return Ratio { num: 0, den: 1 };
    }
    let mut total: u128 = 0;
    let mut v: usize = 0;
    while v < n
        invariant
            graph.wf(),
            adj == graph.adj(),
            n == graph.num_vertices(),
            v <= n,
            total == total_degree(adj, v as int),
            total <= v * (usize::MAX as int),
        decreases n - v,
    {
        let d = graph.neighbors(v).len();
        assert(total + d <= (v + 1) * (usize::MAX as int)) by (nonlinear_arith)
            requires
                total <= v * (usize::MAX as int),
                d <= usize::MAX,
        ;
        assert((v + 1) * (usize::MAX as int) <= usize::MAX * (usize::MAX as int)) by (nonlinear_arith)
            requires
                v + 1 <= usize::MAX,
        ;
        total = total + d as u128;
        v = v + 1;
    }
    Ratio { num: total, den: n as u128 }
}


/// No vertex has more neighbours than the graph has vertices.
proof fn lemma_degree_le(graph: &Graph, i: int)
    requires
        graph.wf(),
        0 <= i < graph.num_vertices(),
    ensures
        graph.adj()[i].len() <= graph.num_vertices(),
{
    let row = graph.adj()[i];
    assert forall|k: int| 0 <= k < row.len() implies #[trigger] row[k] < graph.num_vertices() by {
        assert(graph.adj()[i][k] < graph.num_vertices());
    }
    lemma_row_len_le(row, graph.num_vertices());
}

/// `links` of vertex `v` is at most the square of the number of vertices.
proof fn lemma_links_le(graph: &Graph, v: int)
    requires
        graph.wf(),
        0 <= v < graph.num_vertices(),
    ensures
        links(graph.adj(), v) <= graph.num_vertices() * graph.num_vertices(),
{
    let n = graph.num_vertices();
    let adj = graph.adj();
    let row = adj[v];
    assert forall|k: int| 0 <= k < row.len() implies adj[#[trigger] row[k] as int].len() <= n by {
        assert(adj[v][k] < n);
        lemma_degree_le(graph, row[k] as int);
    }
    lemma_sum_counts_le(adj, row, row, n);
    lemma_degree_le(graph, v);
    assert(row.len() * n <= n * n) by (nonlinear_arith)
        requires
            row.len() <= n,
    ;
}

/// The transitivity of the graph: over all vertices, the sum of `links`
/// over the sum of `triplets`; `0 / 1` when no vertex has degree two or
/// more. The graph may have at most `u32::MAX` vertices, so that the sums
/// fit in 128 bits.
pub fn global_clustering_coefficient(graph: &Graph) -> (r: Ratio)
    requires
        graph.wf(),
        graph.num_vertices() <= u32::MAX,
    ensures
        total_triplets(graph.adj(), graph.num_vertices() as int) == 0 ==> ratio_is(r, (0, 1)),
        total_triplets(graph.adj(), graph.num_vertices() as int) > 0 ==> ratio_is(
            r,
            (
                total_links(graph.adj(), graph.num_vertices() as int) as int,
                total_triplets(graph.adj(), graph.num_vertices() as int) as int,
            ),
        ),
{
    let ghost adj = graph.adj();
    let n = graph.num_vertices_exec();
    let ghost nn = n as int;
    let mut triangles: u128 = 0;
    let mut triples: u128 = 0;
    let mut v: usize = 0;
    while v < n
        invariant
            graph.wf(),
            adj == graph.adj(),
            n == graph.num_vertices(),
            nn == n,
            n <= u32::MAX,
            v <= n,
            triangles == total_links(adj, v as int),
            triples == total_triplets(adj, v as int),
            triangles <= v * (nn * nn),
            triples <= v * (nn * nn),
        decreases n - v,
    {
        let row = graph.neighbors(v);
        proof {
            lemma_links_le(graph, v as int);
            lemma_degree_le(graph, v as int);
            assert forall|k: int| 0 <= k < row@.len() implies #[trigger] row@[k] < graph.num_vertices() by {
                assert(adj[v as int][k] < n);
            }
        }
        let l = sum_counts_exec(graph, row, row);
        let d = row.len();
        assert(v * (nn * nn) + nn * nn <= nn * (nn * nn)) by (nonlinear_arith)
            requires
                v < nn,
                nn >= 0,
        ;
        assert(nn * (nn * nn) <= 0x1_0000_0000 * (0x1_0000_0000 * 0x1_0000_0000int)) by (nonlinear_arith)
            requires
                0 <= nn <= 0x1_0000_0000,
        ;
        triangles = triangles + l;
        if d >= 2 {
            let dd = d as u128;
            assert(dd * (dd - 1) <= nn * nn) by (nonlinear_arith)
                requires
                    dd <= nn,
                    dd >= 2,
            ;
            triples = triples + dd * (dd - 1);
        }
        assert((v + 1) * (nn * nn) == v * (nn * nn) + nn * nn) by (nonlinear_arith);
        v = v + 1;
    }
    if triples == 0 {
        Ratio { num: 0, den: 1 }
    } else {
        Ratio { num: triangles, den: triples }
    }
}


/// The entries of `row` other than `v`, in order.
pub open spec fn others(row: Seq<usize>, v: usize) -> Seq<usize>
    decreases row.len(),
{
    if row.len() == 0 {
        Seq::empty()
    } else if row.last() == v {
        others(row.drop_last(), v)
    } else {
        others(row.drop_last(), v).push(row.last())
    }
}

/// The closed neighbourhood of `v`: `v` itself, then its other neighbours.
pub open spec fn ego(adj: Seq<Seq<usize>>, v: int) -> Seq<usize> {
    seq![v as usize] + others(adj[v], v as usize)
}

/// The number of edges inside the closed neighbourhood of `v`: the links
/// counted from both ends, halved.
pub open spec fn ego_edges(adj: Seq<Seq<usize>>, v: int) -> nat {
    sum_counts(adj, ego(adj, v), ego(adj, v)) / 2
}

/// Among the closed neighbourhoods of the first `k` vertices, the first of
/// the densest by edges per vertex, as (vertex, edges, size); `(-1, 0, 1)`
/// when none has an edge.
pub open spec fn best_ego(adj: Seq<Seq<usize>>, k: int) -> (int, nat, nat)
    decreases k,
{
    if k <= 0 {
        (-1, 0, 1)
    } else {
        let b = best_ego(adj, k - 1);
        let e = ego_edges(adj, k - 1);
        let size = ego(adj, k - 1).len();
        if e * b.2 > b.1 * size {
            (k - 1, e, size)
        } else {
            b
        }
    }
}

proof fn lemma_others(row: Seq<usize>, v: usize)
    ensures
        others(row, v).len() <= row.len(),
        forall|k: int|
            0 <= k < others(row, v).len() ==> row.contains(#[trigger] others(row, v)[k]),
    decreases row.len(),
{
    if row.len() > 0 {
        let p = row.drop_last();
        lemma_others(p, v);
        assert forall|k: int|
            0 <= k < others(row, v).len() implies row.contains(#[trigger] others(row, v)[k]) by {
            if k < others(p, v).len() {
                let x = others(p, v)[k];
                assert(p.contains(x));
                let j = choose|j: int| 0 <= j < p.len() && p[j] == x;
                assert(row[j] == x);
            } else {
                assert(row[row.len() - 1] == row.last());
            }
        }
    }
}

/// The closed neighbourhood of `v`.
fn ego_exec(graph: &Graph, v: usize) -> (c: Vec<usize>)
    requires
        graph.wf(),
        v < graph.num_vertices(),
    ensures
        c@ == ego(graph.adj(), v as int),
        c@.len() <= graph.num_vertices() + 1,
        forall|k: int| 0 <= k < c@.len() ==> #[trigger] c@[k] < graph.num_vertices(),
{
    let row = graph.neighbors(v);
    let mut c: Vec<usize> = vec![v];
    let mut k: usize = 0;
    while k < row.len()
        invariant
            k <= row@.len(),
            c@ == seq![v] + others(row@.subrange(0, k as int), v),
        decreases row@.len() - k,
    {
        assert(row@.subrange(0, k + 1).drop_last() =~= row@.subrange(0, k as int));
        if row[k] != v {
            c.push(row[k]);
            assert(c@ =~= seq![v] + others(row@.subrange(0, k + 1), v));
        }
        k = k + 1;
    }
    assert(row@.subrange(0, row@.len() as int) =~= row@);
    proof {
        lemma_others(row@, v);
        lemma_degree_le(graph, v as int);
        let o = others(row@, v);
        assert forall|k: int| 0 <= k < c@.len() implies #[trigger] c@[k] < graph.num_vertices() by {
            if k > 0 {
                assert(c@[k] == o[k - 1]);
                assert(row@.contains(o[k - 1]));
                let j = choose|j: int| 0 <= j < row@.len() && row@[j] == o[k - 1];
                assert(graph.adj()[v as int][j] < graph.num_vertices());
            }
        }
    }
    c
}

/// A heuristic densest subgraph: of the closed neighbourhoods of all
/// vertices, taken in vertex order, the first with the most edges per
/// vertex, with that density as `edges / size`. Only one-hop
/// neighbourhoods are considered, so this is not the densest subgraph in
/// general. Returns no labels and `0 / 1` when no neighbourhood has an
/// edge. The graph may have at most `u32::MAX` vertices.
pub fn densest_subgraph(graph: &Graph) -> (r: (Vec<String>, Ratio))
    requires
        graph.wf(),
        graph.num_vertices() <= u32::MAX,
    ensures
        ({
            let b = best_ego(graph.adj(), graph.num_vertices() as int);
            &&& ratio_is(r.1, (b.1 as int, b.2 as int))
            &&& b.0 < 0 ==> r.0@.len() == 0
            &&& b.0 >= 0 ==> {
                &&& r.0@.len() == ego(graph.adj(), b.0).len()
                &&& forall|m: int|
                    0 <= m < r.0@.len() ==> (#[trigger] r.0@[m])@ == graph.names()[ego(
                        graph.adj(),
                        b.0,
                    )[m] as int]
            }
        }),
{
    let ghost adj = graph.adj();
    let n = graph.num_vertices_exec();
    let ghost nn = n as int;
    let mut found = false;
    let mut best_v: usize = 0;
    let mut best_edges: u128 = 0;
    let mut best_size: u128 = 1;
    let mut v: usize = 0;
    while v < n
        invariant
            graph.wf(),
            adj == graph.adj(),
            n == graph.num_vertices(),
            nn == n,
            n <= u32::MAX,
            v <= n,
            ({
                let b = best_ego(adj, v as int);
                &&& (if found {
                    best_v as int
                } else {
                    -1
                }) == b.0
                &&& best_edges == b.1
                &&& best_size == b.2
            }),
            found ==> best_v < n,
            best_edges <= (nn + 1) * nn,
            1 <= best_size <= nn + 1,
        decreases n - v,
    {
        let cand = ego_exec(graph, v);
        proof {
            assert forall|k: int| 0 <= k < cand@.len() implies adj[#[trigger] cand@[k] as int].len() <= nn by {
                lemma_degree_le(graph, cand@[k] as int);
            }
            lemma_sum_counts_le(adj, cand@, cand@, nn as nat);
        }
        let internal = sum_counts_exec(graph, &cand, &cand);
        let size = cand.len() as u128;
        assert(internal <= (nn + 1) * nn) by (nonlinear_arith)
            requires
                internal <= cand@.len() * nn,
                cand@.len() <= nn + 1,
                nn >= 0,
        ;
        let e = internal / 2;
        assert(e * best_size <= (nn + 1) * nn * (nn + 1)) by (nonlinear_arith)
            requires
                e <= (nn + 1) * nn,
                best_size <= nn + 1,
                nn >= 0,
        ;
        assert(best_edges * size <= (nn + 1) * nn * (nn + 1)) by (nonlinear_arith)
            requires
                best_edges <= (nn + 1) * nn,
                size <= nn + 1,
                nn >= 0,
        ;
        assert((nn + 1) * nn * (nn + 1) <= 0x1_0000_0001 * 0x1_0000_0000 * 0x1_0000_0001int)
            by (nonlinear_arith)
            requires
                0 <= nn <= 0x1_0000_0000,
        ;
        if e * best_size > best_edges * size {
            found = true;
            best_v = v;
            best_edges = e;
            best_size = size;
        }
        v = v + 1;
    }
    let mut labels: Vec<String> = Vec::new();
    if found {
        let cand = ego_exec(graph, best_v);
        let mut k: usize = 0;
        while k < cand.len()
            invariant
                graph.wf(),
                k <= cand@.len(),
                forall|m: int| 0 <= m < cand@.len() ==> #[trigger] cand@[m] < graph.num_vertices(),
                labels@.len() == k,
                forall|m: int|
                    0 <= m < k ==> (#[trigger] labels@[m])@ == graph.names()[cand@[m] as int],
            decreases cand@.len() - k,
        {
            let ghost before = labels@;
            labels.push(graph.label(cand[k]));
            assert forall|m: int| 0 <= m < k + 1 implies (#[trigger] labels@[m])@ == graph.names()[cand@[m] as int] by {
                if m < k {
                    assert(labels@[m] == before[m]);
                }
            }
            k = k + 1;
        }
    }
    (labels, Ratio { num: best_edges, den: best_size })
}


/// Two duplicate-free rows with the same entries have the same length.
proof fn lemma_same_entries_same_len(r1: Seq<usize>, r2: Seq<usize>)
    requires
        r1.no_duplicates(),
        r2.no_duplicates(),
        forall|x: usize| r1.contains(x) <==> r2.contains(x),
    ensures
        r1.len() == r2.len(),
{
    r1.unique_seq_to_set();
    r2.unique_seq_to_set();
    assert(r1.to_set() =~= r2.to_set());
}

proof fn lemma_degree_count_eq(a1: Seq<Seq<usize>>, a2: Seq<Seq<usize>>, d: int, k: int)
    requires
        0 <= k <= a1.len(),
        a1.len() == a2.len(),
        forall|i: int| 0 <= i < a1.len() ==> (#[trigger] a1[i]).len() == a2[i].len(),
    ensures
        degree_count(a1, d, k) == degree_count(a2, d, k),
    decreases k,
{
    if k > 0 {
        lemma_degree_count_eq(a1, a2, d, k - 1);
        assert(a1[k - 1].len() == a2[k - 1].len());
    }
}

/// Adding the same edge a second time leaves the vertices and the degree
/// distribution as the first addition left them.
pub proof fn lemma_add_edge_idempotent(
    g0: Graph,
    g1: Graph,
    g2: Graph,
    u: Seq<char>,
    v: Seq<char>,
)
    requires
        g0.wf(),
        g1.wf(),
        g2.wf(),
        Graph::edge_added(g0, g1, u, v),
        Graph::edge_added(g1, g2, u, v),
    ensures
        g2.names() == g1.names(),
        forall|d: int|
            #[trigger] degree_count(g2.adj(), d, g2.num_vertices() as int) == degree_count(
                g1.adj(),
                d,
                g1.num_vertices() as int,
            ),
{
    let n0 = g0.names();
    let n1 = g1.names();
    let m0 = crate::graph::with_label(n0, u);
    assert(m0.contains(u)) by {
        if !n0.contains(u) {
            assert(m0[m0.len() - 1] == u);
        }
    }
    assert(n1.contains(u)) by {
        let k = choose|k: int| 0 <= k < m0.len() && m0[k] == u;
        if !m0.contains(v) {
            assert(n1[k] == u);
        }
    }
    assert(n1.contains(v)) by {
        if !m0.contains(v) {
            assert(n1[n1.len() - 1] == v);
        }
    }
    let n = g1.num_vertices();
    assert(g2.names() == n1);
    assert forall|i: int| 0 <= i < n implies (#[trigger] g1.adj()[i]).len() == g2.adj()[i].len() by {
        assert forall|x: usize| g1.adj()[i].contains(x) <==> g2.adj()[i].contains(x) by {
            if g1.adj()[i].contains(x) {
                let k = choose|k: int| 0 <= k < g1.adj()[i].len() && g1.adj()[i][k] == x;
                assert(g1.adj()[i][k] < n);
                assert(g1.has_edge(i, x as int));
                assert(g2.has_edge(i, x as int));
            }
            if g2.adj()[i].contains(x) {
                let k = choose|k: int| 0 <= k < g2.adj()[i].len() && g2.adj()[i][k] == x;
                assert(g2.adj()[i][k] < n);
                assert(g2.has_edge(i, x as int));
                let j = x as int;
                if !g1.has_edge(i, j) {
                    assert((n1[i] == u && n1[j] == v) || (n1[i] == v && n1[j] == u));
                    assert(g1.has_edge(i, j));
                }
                let c = choose|c: int| 0 <= c < g1.adj()[i].len() && g1.adj()[i][c] == j;
                assert(g1.adj()[i][c] == x);
            }
        }
        lemma_same_entries_same_len(g1.adj()[i], g2.adj()[i]);
    }
    assert forall|d: int|
        #[trigger] degree_count(g2.adj(), d, g2.num_vertices() as int) == degree_count(
            g1.adj(),
            d,
            g1.num_vertices() as int,
        ) by {
        lemma_degree_count_eq(g1.adj(), g2.adj(), d, n as int);
    }
}

} // verus!
