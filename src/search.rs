use vstd::prelude::*;
use vstd::set_lib::*;

verus! {

/// The neighbour lists held by `adj`, as sequences.
pub open spec fn rows(adj: &Vec<Vec<usize>>) -> Seq<Seq<usize>> {
    adj@.map_values(|r: Vec<usize>| r@)
}

/// Every entry of every row names a vertex of the relation.
pub open spec fn entries_in_range(a: Seq<Seq<usize>>) -> bool {
    forall|u: int, k: int| 0 <= u < a.len() && 0 <= k < a[u].len() ==> (#[trigger] a[u][k]) < a.len()
}

/// `v` is listed in the row of `u`.
pub open spec fn step(a: Seq<Seq<usize>>, u: int, v: int) -> bool {
    0 <= u < a.len() && exists|k: int| 0 <= k < a[u].len() && a[u][k] == v
}

/// `p` is a walk from `s` to `e`: consecutive vertices are related by `a`.
pub open spec fn is_path(a: Seq<Seq<usize>>, p: Seq<usize>, s: int, e: int) -> bool {
    &&& p.len() > 0
    &&& p[0] == s
    &&& p.last() == e
    &&& forall|k: int| 0 <= k < p.len() - 1 ==> #[trigger] step(a, p[k] as int, p[k + 1] as int)
}

/// `v` can be reached from `s` in at most `k` steps.
pub open spec fn within(a: Seq<Seq<usize>>, s: int, v: int, k: nat) -> bool
    decreases k,
{
    if k == 0 {
        v == s
    } else {
        within(a, s, v, (k - 1) as nat) || exists|u: int|
            0 <= u < a.len() && within(a, s, u, (k - 1) as nat) && #[trigger] step(a, u, v)
    }
}

/// What is reached within `k` steps is reached within any larger number.
pub proof fn lemma_within_monotone(a: Seq<Seq<usize>>, s: int, v: int, k: nat, k2: nat)
    requires
        within(a, s, v, k),
        k <= k2,
    ensures
        within(a, s, v, k2),
    decreases k2,
{
    if k < k2 {
        lemma_within_monotone(a, s, v, k, (k2 - 1) as nat);
    }
}

/// Only vertices of the relation are ever reached.
pub proof fn lemma_within_in_range(a: Seq<Seq<usize>>, s: int, v: int, k: nat)
    requires
        entries_in_range(a),
        0 <= s < a.len(),
        within(a, s, v, k),
    ensures
        0 <= v < a.len(),
    decreases k,
{
    if k > 0 {
        if within(a, s, v, (k - 1) as nat) {
            lemma_within_in_range(a, s, v, (k - 1) as nat);
        } else {
            let u = choose|u: int|
                0 <= u < a.len() && within(a, s, u, (k - 1) as nat) && #[trigger] step(a, u, v);
            let m = choose|m: int| 0 <= m < a[u].len() && a[u][m] == v;
            assert(0 <= u < a.len() && 0 <= m < a[u].len());
            assert(a[u][m] < a.len());
        }
    }
}

/// The last vertex of a walk of `p.len()` vertices is reached within
/// `p.len() - 1` steps.
pub proof fn lemma_path_within(a: Seq<Seq<usize>>, p: Seq<usize>, s: int, e: int)
    requires
        is_path(a, p, s, e),
    ensures
        within(a, s, e, (p.len() - 1) as nat),
    decreases p.len(),
{
    if p.len() > 1 {
        let q = p.drop_last();
        let u = q.last() as int;
        assert forall|k: int| 0 <= k < q.len() - 1 implies #[trigger] step(
            a,
            q[k] as int,
            q[k + 1] as int,
        ) by {
            assert(step(a, p[k] as int, p[k + 1] as int));
        }
        lemma_path_within(a, q, s, u);
        let k = p.len() - 2;
        assert(step(a, p[k] as int, p[k + 1] as int));
        assert(within(a, s, u, k as nat));
    }
}

/// Once one more step reaches nothing new, no number of steps does.
pub proof fn lemma_within_stable(a: Seq<Seq<usize>>, s: int, level: nat, k: nat)
    requires
        forall|v: int| #[trigger] within(a, s, v, level + 1) == within(a, s, v, level),
        level <= k,
    ensures
        forall|v: int| #[trigger] within(a, s, v, k) == within(a, s, v, level),
    decreases k,
{
    if level < k {
        lemma_within_stable(a, s, level, (k - 1) as nat);
        assert forall|v: int| #[trigger] within(a, s, v, k) == within(a, s, v, level) by {
            if within(a, s, v, k) && !within(a, s, v, (k - 1) as nat) {
                let k1 = (k - 1) as nat;
                let u = choose|u: int| 0 <= u < a.len() && within(a, s, u, k1) && #[trigger] step(a, u, v);
                assert(within(a, s, u, level));
                assert(within(a, s, v, level + 1));
            }
        }
    }
}


/// The vertices marked in `vis`.
pub open spec fn marked(vis: Seq<bool>) -> Set<int> {
    Set::new(|v: int| 0 <= v < vis.len() && vis[v])
}

/// Facts the search keeps of a marked vertex `v`: its recorded distance is
/// the least number of steps from `s`, and its recorded predecessor is a
/// marked vertex one step closer.
pub open spec fn labelled(
    a: Seq<Seq<usize>>,
    s: int,
    vis: Seq<bool>,
    dist: Seq<usize>,
    pred: Seq<usize>,
    v: int,
) -> bool {
    vis[v] ==> {
        &&& within(a, s, v, dist[v] as nat)
        &&& dist[v] == 0 ==> v == s
        &&& dist[v] > 0 ==> {
            &&& !within(a, s, v, (dist[v] - 1) as nat)
            &&& pred[v] < a.len()
            &&& vis[pred[v] as int]
            &&& dist[pred[v] as int] + 1 == dist[v]
            &&& step(a, pred[v] as int, v)
        }
    }
}

/// The state of the search once every vertex within `level` steps is marked.
pub open spec fn search_state(
    a: Seq<Seq<usize>>,
    s: int,
    vis: Seq<bool>,
    dist: Seq<usize>,
    pred: Seq<usize>,
    level: nat,
) -> bool {
    &&& entries_in_range(a)
    &&& vis.len() == a.len()
    &&& dist.len() == a.len()
    &&& pred.len() == a.len()
    &&& 0 <= s < a.len()
    &&& vis[s]
    &&& dist[s] == 0
    &&& forall|v: int| 0 <= v < a.len() ==> #[trigger] labelled(a, s, vis, dist, pred, v)
    &&& forall|v: int| 0 <= v < a.len() ==> (#[trigger] vis[v] <==> within(a, s, v, level))
    &&& forall|v: int| 0 <= v < a.len() && vis[v] ==> #[trigger] dist[v] <= level
}

proof fn lemma_marked_finite(vis: Seq<bool>)
    ensures
        marked(vis).finite(),
        marked(vis).len() <= vis.len(),
{
    let r = set_int_range(0, vis.len() as int);
    lemma_int_range(0, vis.len() as int);
    assert(marked(vis).subset_of(r));
    lemma_len_subset(marked(vis), r);
}

proof fn lemma_mark_one(vis: Seq<bool>, w: int)
    requires
        0 <= w < vis.len(),
        !vis[w],
    ensures
        marked(vis.update(w, true)) == marked(vis).insert(w),
        marked(vis.update(w, true)).len() == marked(vis).len() + 1,
{
    assert(marked(vis.update(w, true)) =~= marked(vis).insert(w));
    lemma_marked_finite(vis);
}

/// Marks every unmarked vertex listed in the rows of `frontier`, at distance
/// `level + 1`, and returns them.
#[verifier::loop_isolation(false)]
fn expand(
    adj: &Vec<Vec<usize>>,
    frontier: &Vec<usize>,
    visited: &mut Vec<bool>,
    dist: &mut Vec<usize>,
    pred: &mut Vec<usize>,
    level: usize,
    Ghost(s): Ghost<int>,
) -> (next: Vec<usize>)
    requires
        search_state(rows(adj), s, old(visited)@, old(dist)@, old(pred)@, level as nat),
        level < adj@.len(),
        forall|k: int|
            0 <= k < frontier@.len() ==> #[trigger] frontier@[k] < adj@.len()
                && old(dist)@[frontier@[k] as int] == level && old(visited)@[frontier@[k] as int],
        forall|v: int|
            0 <= v < adj@.len() && old(visited)@[v] && old(dist)@[v] == level
                ==> #[trigger] frontier@.contains(v as usize),
    ensures
        search_state(rows(adj), s, final(visited)@, final(dist)@, final(pred)@, (level + 1) as nat),
        forall|k: int|
            0 <= k < next@.len() ==> #[trigger] next@[k] < adj@.len()
                && final(dist)@[next@[k] as int] == level + 1 && final(visited)@[next@[k] as int],
        forall|v: int|
            0 <= v < adj@.len() && final(visited)@[v] && final(dist)@[v] == level + 1
                ==> #[trigger] next@.contains(v as usize),
        marked(final(visited)@).len() == marked(old(visited)@).len() + next@.len(),
{
    let ghost a = rows(adj);
    let ghost n = a.len();
    let ghost vis0 = visited@;
    let ghost dist0 = dist@;
    let size = adj.len();
    assert(level + 1 <= size);
    let mut next: Vec<usize> = Vec::new();
    let mut fi: usize = 0;
    while fi < frontier.len()
        invariant
            0 <= fi <= frontier@.len(),
            visited@.len() == n,
            dist@.len() == n,
            pred@.len() == n,
            visited@[s],
            dist@[s] == 0,
            forall|v: int| 0 <= v < n ==> #[trigger] labelled(a, s, visited@, dist@, pred@, v),
            forall|v: int|
                0 <= v < n ==> (#[trigger] visited@[v] <==> (within(a, s, v, level as nat) || exists|f: int|
                    0 <= f < fi && #[trigger] step(a, frontier@[f] as int, v))),
            forall|v: int| 0 <= v < n && vis0[v] ==> #[trigger] dist@[v] == dist0[v],
            forall|v: int| 0 <= v < n && visited@[v] && !vis0[v] ==> #[trigger] dist@[v] == level + 1,
            forall|k: int|
                0 <= k < next@.len() ==> #[trigger] next@[k] < n && dist@[next@[k] as int] == level
                    + 1 && visited@[next@[k] as int],
            forall|v: int|
                0 <= v < n && visited@[v] && !vis0[v] ==> #[trigger] next@.contains(v as usize),
            marked(visited@).len() == marked(vis0).len() + next@.len(),
        decreases frontier@.len() - fi,
    {
        let u = frontier[fi];
        let row = &adj[u];
        assert(row@ == a[u as int]);
        let mut wi: usize = 0;
        while wi < row.len()
            invariant
                0 <= wi <= row@.len(),
                visited@.len() == n,
                dist@.len() == n,
                pred@.len() == n,
                visited@[s],
                dist@[s] == 0,
                forall|v: int| 0 <= v < n ==> #[trigger] labelled(a, s, visited@, dist@, pred@, v),
                forall|v: int|
                    0 <= v < n ==> (#[trigger] visited@[v] <==> (within(a, s, v, level as nat)
                        || (exists|f: int| 0 <= f < fi && #[trigger] step(a, frontier@[f] as int, v))
                        || (exists|k: int| 0 <= k < wi && row@[k] == v))),
                forall|v: int| 0 <= v < n && vis0[v] ==> #[trigger] dist@[v] == dist0[v],
                forall|v: int|
                    0 <= v < n && visited@[v] && !vis0[v] ==> #[trigger] dist@[v] == level + 1,
                forall|k: int|
                    0 <= k < next@.len() ==> #[trigger] next@[k] < n && dist@[next@[k] as int]
                        == level + 1 && visited@[next@[k] as int],
                forall|v: int|
                    0 <= v < n && visited@[v] && !vis0[v] ==> #[trigger] next@.contains(v as usize),
                marked(visited@).len() == marked(vis0).len() + next@.len(),
            decreases row@.len() - wi,
        {
            let w = row[wi];
            assert(a[u as int][wi as int] < n);
            if !visited[w] {
                let ghost vis_before = visited@;
                let ghost dist_before = dist@;
                let ghost pred_before = pred@;
                let ghost next_before = next@;
                proof {
                    lemma_mark_one(visited@, w as int);
                    assert(labelled(a, s, visited@, dist@, pred@, u as int));
                    assert(step(a, u as int, w as int));
                    assert(!within(a, s, w as int, level as nat));
                }
                visited.set(w, true);
                dist.set(w, level + 1);
                pred.set(w, u);
                next.push(w);
                proof {
                    assert(within(a, s, w as int, (level + 1) as nat));
                    assert forall|v: int| 0 <= v < n implies #[trigger] labelled(
                        a,
                        s,
                        visited@,
                        dist@,
                        pred@,
                        v,
                    ) by {
                        assert(labelled(a, s, vis_before, dist_before, pred_before, v));
                        if v != w && vis_before[v] && dist_before[v] > 0 {
                            assert(vis_before[pred_before[v] as int]);
                        }
                    }
                    assert forall|v: int|
                        0 <= v < n && visited@[v] && !vis0[v] implies #[trigger] next@.contains(
                        v as usize,
                    ) by {
                        if v == w {
                            assert(next@[next@.len() - 1] == w);
                        } else {
                            assert(next_before.contains(v as usize));
                            let k = choose|k: int|
                                0 <= k < next_before.len() && next_before[k] == v as usize;
                            assert(next@[k] == v as usize);
                        }
                    }
                    assert forall|v: int|
                        0 <= v < n implies (#[trigger] visited@[v] <==> (within(
                        a,
                        s,
                        v,
                        level as nat,
                    ) || (exists|f: int| 0 <= f < fi && #[trigger] step(a, frontier@[f] as int, v))
                        || (exists|k: int| 0 <= k < wi + 1 && row@[k] == v))) by {
                        if v == w {
                            assert(row@[wi as int] == v);
                        }
                    }
                }
            } else {
                proof {
                    assert forall|v: int|
                        0 <= v < n implies (#[trigger] visited@[v] <==> (within(
                        a,
                        s,
                        v,
                        level as nat,
                    ) || (exists|f: int| 0 <= f < fi && #[trigger] step(a, frontier@[f] as int, v))
                        || (exists|k: int| 0 <= k < wi + 1 && row@[k] == v))) by {
                        if v == w {
                            assert(row@[wi as int] == v);
                        }
                    }
                }
            }
            wi = wi + 1;
        }
        proof {
            assert forall|v: int|
                0 <= v < n implies (#[trigger] visited@[v] <==> (within(a, s, v, level as nat)
                    || exists|f: int| 0 <= f < fi + 1 && #[trigger] step(a, frontier@[f] as int, v)))
                by {
                if step(a, u as int, v) {
                    let k = choose|k: int| 0 <= k < a[u as int].len() && a[u as int][k] == v;
                    assert(row@[k] == v);
                }
                if exists|k: int| 0 <= k < row@.len() && row@[k] == v {
                    let k = choose|k: int| 0 <= k < row@.len() && row@[k] == v;
                    assert(step(a, frontier@[fi as int] as int, v));
                }
                if exists|f: int| 0 <= f < fi && #[trigger] step(a, frontier@[f] as int, v) {
                    let f = choose|f: int| 0 <= f < fi && #[trigger] step(a, frontier@[f] as int, v);
                    assert(step(a, frontier@[f] as int, v));
                }
            }
        }
        fi = fi + 1;
    }
    proof {
        assert forall|v: int| 0 <= v < n implies (#[trigger] visited@[v] <==> within(
            a,
            s,
            v,
            (level + 1) as nat,
        )) by {
            if exists|f: int|
                0 <= f < frontier@.len() && #[trigger] step(a, frontier@[f] as int, v) {
                let f = choose|f: int|
                    0 <= f < frontier@.len() && #[trigger] step(a, frontier@[f] as int, v);
                let u = frontier@[f] as int;
                assert(labelled(a, s, vis0, dist0, old(pred)@, u));
                assert(within(a, s, u, level as nat));
            }
            if within(a, s, v, (level + 1) as nat) && !within(a, s, v, level as nat) {
                let u = choose|u: int|
                    0 <= u < a.len() && within(a, s, u, level as nat) && #[trigger] step(a, u, v);
                assert(vis0[u]);
                assert(labelled(a, s, vis0, dist0, old(pred)@, u));
                if dist0[u] == level {
                    assert(frontier@.contains(u as usize));
                    let f = choose|f: int| 0 <= f < frontier@.len() && frontier@[f] == u as usize;
                    assert(step(a, frontier@[f] as int, v));
                } else {
                    assert(within(a, s, v, (dist0[u] + 1) as nat));
                    lemma_within_monotone(a, s, v, (dist0[u] + 1) as nat, level as nat);
                }
            }
        }
        assert forall|v: int| 0 <= v < n && visited@[v] implies #[trigger] dist@[v] <= level + 1 by {
            if vis0[v] {
                assert(dist0[v] <= level);
            }
        }
    }
    next
}


/// Breadth-first search from `start` to `end` over the relation in which
/// the neighbours of vertex `u` are the entries of `adj[u]`.
///
/// Returns the vertices of a shortest walk from `start` to `end`, both
/// included, or `None` when no walk connects them.
#[verifier::loop_isolation(false)]
pub fn connectivity_search(adj: &Vec<Vec<usize>>, start: usize, end: usize) -> (r: Option<
    Vec<usize>,
>)
    requires
        entries_in_range(rows(adj)),
        start < adj@.len(),
        end < adj@.len(),
    ensures
        match r {
            Some(p) => {
                &&& is_path(rows(adj), p@, start as int, end as int)
                &&& forall|q: Seq<usize>|
                    is_path(rows(adj), q, start as int, end as int) ==> p@.len() <= q.len()
            },
            None => forall|q: Seq<usize>| !is_path(rows(adj), q, start as int, end as int),
        },
{
    let ghost a = rows(adj);
    let ghost s = start as int;
    let n = adj.len();
    let mut visited: Vec<bool> = Vec::new();
    let mut dist: Vec<usize> = Vec::new();
    let mut pred: Vec<usize> = Vec::new();
    let mut i: usize = 0;
    while i < n
        invariant
            i <= n,
            visited@.len() == i,
            dist@.len() == i,
            pred@.len() == i,
            forall|k: int| 0 <= k < i ==> !(#[trigger] visited@[k]) && dist@[k] == 0,
        decreases n - i,
    {
        visited.push(false);
        dist.push(0);
        pred.push(0);
        i = i + 1;
    }
    proof {
        lemma_mark_one(visited@, s);
        assert(marked(visited@) =~= Set::empty());
    }
    visited.set(start, true);
    let mut frontier: Vec<usize> = vec![start];
    let mut level: usize = 0;
    proof {
        assert forall|v: int| 0 <= v < n implies #[trigger] labelled(
            a,
            s,
            visited@,
            dist@,
            pred@,
            v,
        ) by {}
        assert forall|v: int|
            0 <= v < n && visited@[v] && dist@[v] == 0 implies #[trigger] frontier@.contains(
            v as usize,
        ) by {
            assert(frontier@[0] == start);
        }
    }
    while !visited[end]
        invariant
            visited@.len() == n,
            search_state(a, s, visited@, dist@, pred@, level as nat),
            forall|k: int|
                0 <= k < frontier@.len() ==> #[trigger] frontier@[k] < n && dist@[frontier@[k] as int]
                    == level && visited@[frontier@[k] as int],
            forall|v: int|
                0 <= v < n && visited@[v] && dist@[v] == level ==> #[trigger] frontier@.contains(
                    v as usize,
                ),
            marked(visited@).len() >= level + 1,
        decreases n - marked(visited@).len(),
    {
        proof {
            lemma_marked_finite(visited@);
        }
        let ghost vis0 = visited@;
        let next = expand(adj, &frontier, &mut visited, &mut dist, &mut pred, level, Ghost(s));
        proof {
            lemma_marked_finite(visited@);
        }
        if next.len() == 0 {
            proof {
                assert forall|v: int| #[trigger]
                    within(a, s, v, (level + 1) as nat) == within(a, s, v, level as nat) by {
                    if within(a, s, v, (level + 1) as nat) {
                        lemma_within_in_range(a, s, v, (level + 1) as nat);
                        assert(visited@[v]);
                        assert(labelled(a, s, visited@, dist@, pred@, v));
                        if dist@[v] == level + 1 {
                            assert(next@.contains(v as usize));
                        }
                        lemma_within_monotone(a, s, v, dist@[v] as nat, level as nat);
                    }
                    if within(a, s, v, level as nat) {
                        lemma_within_monotone(a, s, v, level as nat, (level + 1) as nat);
                    }
                }
                assert forall|q: Seq<usize>| !is_path(a, q, s, end as int) by {
                    if is_path(a, q, s, end as int) {
                        lemma_path_within(a, q, s, end as int);
                        let m = (q.len() - 1) as nat;
                        if m >= level {
                            lemma_within_stable(a, s, level as nat, m);
                        } else {
                            lemma_within_monotone(a, s, end as int, m, level as nat);
                        }
                        assert(vis0[end as int]);
                    }
                }
            }
            return None;
        }
        frontier = next;
        level = level + 1;
    }
    let mut back: Vec<usize> = vec![end];
    let mut cur: usize = end;
    while cur != start
        invariant
            cur < n,
            visited@[cur as int],
            back@.len() > 0,
            back@[0] == end,
            back@.last() == cur,
            back@.len() + dist@[cur as int] == dist@[end as int] + 1,
            forall|k: int|
                0 <= k < back@.len() - 1 ==> #[trigger] step(a, back@[k + 1] as int, back@[k] as int),
        decreases dist@[cur as int],
    {
        assert(labelled(a, s, visited@, dist@, pred@, cur as int));
        let ghost before = back@;
        cur = pred[cur];
        back.push(cur);
        assert forall|k: int|
            0 <= k < back@.len() - 1 implies #[trigger] step(a, back@[k + 1] as int, back@[k] as int) by {
            if k < before.len() - 1 {
                assert(step(a, before[k + 1] as int, before[k] as int));
            }
        }
    }
    let mut path: Vec<usize> = Vec::new();
    let mut k: usize = back.len();
    while k > 0
        invariant
            k <= back@.len(),
            path@.len() + k == back@.len(),
            forall|j: int| 0 <= j < path@.len() ==> path@[j] == back@[back@.len() - 1 - j],
        decreases k,
    {
        k = k - 1;
        path.push(back[k]);
    }
    proof {
        let len = back@.len();
        assert forall|j: int| 0 <= j < path@.len() - 1 implies #[trigger] step(
            a,
            path@[j] as int,
            path@[j + 1] as int,
        ) by {
            let m = len - 2 - j;
            assert(step(a, back@[m + 1] as int, back@[m] as int));
        }
        assert(labelled(a, s, visited@, dist@, pred@, end as int));
        assert forall|q: Seq<usize>| is_path(a, q, s, end as int) implies path@.len() <= q.len() by {
            lemma_path_within(a, q, s, end as int);
            let m = (q.len() - 1) as nat;
            if m + 1 < path@.len() {
                lemma_within_monotone(a, s, end as int, m, (dist@[end as int] - 1) as nat);
            }
        }
    }
    Some(path)
}

} // verus!
