use vstd::prelude::*;
use crate::search::{connectivity_search, entries_in_range, is_path, rows, step};

verus! {

/// The labels after `s` has been registered: unchanged when `s` is already
/// present, otherwise `s` appended at the end.
pub open spec fn with_label(labels: Seq<Seq<char>>, s: Seq<char>) -> Seq<Seq<char>> {
    if labels.contains(s) {
        labels
    } else {
        labels.push(s)
    }
}

/// Each row lists vertex indices below `n`, without repetition.
pub open spec fn rows_in_range(adj: Seq<Seq<usize>>, n: nat) -> bool {
    &&& adj.len() == n
    &&& forall|i: int, k: int|
        0 <= i < n && 0 <= k < adj[i].len() ==> (#[trigger] adj[i][k]) < n
    &&& forall|i: int| 0 <= i < n ==> (#[trigger] adj[i]).no_duplicates()
}

/// An undirected graph over string-labelled vertices.
///
/// Vertices are numbered in the order in which they first appeared; row `i`
/// of the adjacency lists the indices of the neighbours of vertex `i`.
pub struct Graph {
    labels: Vec<String>,
    adjacency: Vec<Vec<usize>>,
}

impl Graph {
    /// The vertex labels, by index.
    pub closed spec fn names(&self) -> Seq<Seq<char>> {
        self.labels@.map_values(|s: String| s@)
    }

    /// The neighbour lists, by index.
    pub closed spec fn adj(&self) -> Seq<Seq<usize>> {
        self.adjacency@.map_values(|r: Vec<usize>| r@)
    }

    /// The number of vertices.
    pub open spec fn num_vertices(&self) -> nat {
        self.names().len()
    }

    /// Vertex `j` is a neighbour of vertex `i`.
    pub open spec fn has_edge(&self, i: int, j: int) -> bool {
        &&& 0 <= i < self.num_vertices()
        &&& 0 <= j < self.num_vertices()
        &&& exists|k: int| 0 <= k < self.adj()[i].len() && self.adj()[i][k] == j
    }

    /// The number of neighbours of vertex `i`.
    pub open spec fn degree(&self, i: int) -> nat {
        self.adj()[i].len()
    }

    /// Labels are distinct, rows are duplicate-free and in range, and the
    /// neighbour relation is symmetric.
    pub open spec fn wf(&self) -> bool {
        &&& rows_in_range(self.adj(), self.num_vertices())
        &&& forall|i: int, j: int|
            0 <= i < j < self.num_vertices() ==> self.names()[i] != self.names()[j]
        &&& forall|i: int, j: int| #[trigger]
            self.has_edge(i, j) ==> self.has_edge(j, i)
    }

    /// `new` is `old` with the undirected edge between labels `u` and `v`:
    /// missing labels are appended (first `u`, then `v`), and the edges are
    /// those of `old` plus the two directions of the new one.
    pub open spec fn edge_added(old: Graph, new: Graph, u: Seq<char>, v: Seq<char>) -> bool {
        &&& new.names() == with_label(with_label(old.names(), u), v)
        &&& forall|i: int, j: int|
            0 <= i < new.num_vertices() && 0 <= j < new.num_vertices() ==> (#[trigger] new.has_edge(i, j)
                <==> (old.has_edge(i, j) || (new.names()[i] == u && new.names()[j] == v)
                || (new.names()[i] == v && new.names()[j] == u)))
    }

    /// The vertex labelled `x` has the vertex labelled `y` as a neighbour.
    pub open spec fn linked(&self, x: Seq<char>, y: Seq<char>) -> bool {
        exists|i: int, j: int|
            #[trigger] self.has_edge(i, j) && self.names()[i] == x && self.names()[j] == y
    }

    /// `p` is a sequence of labels from `s` to `e` in which each label is
    /// linked to the next.
    pub open spec fn is_label_path(&self, p: Seq<Seq<char>>, s: Seq<char>, e: Seq<char>) -> bool {
        &&& p.len() > 0
        &&& p[0] == s
        &&& p.last() == e
        &&& forall|k: int| 0 <= k < p.len() - 1 ==> #[trigger] self.linked(p[k], p[k + 1])
    }

    /// There is a walk from the vertex labelled `s` to the one labelled `e`.
    pub open spec fn connected(&self, s: Seq<char>, e: Seq<char>) -> bool {
        &&& self.names().contains(s)
        &&& self.names().contains(e)
        &&& exists|q: Seq<usize>|
            is_path(self.adj(), q, self.names().index_of(s), self.names().index_of(e))
    }

    /// An empty graph.
    pub fn new() -> (g: Graph)
        ensures
            g.wf(),
            g.num_vertices() == 0,
    {
        Graph { labels: Vec::new(), adjacency: Vec::new() }
    }

    /// The number of vertices.
    pub fn num_vertices_exec(&self) -> (n: usize)
        ensures
            n == self.num_vertices(),
    {
        self.labels.len()
    }

    /// The label of vertex `i`.
    pub fn label(&self, i: usize) -> (s: String)
        requires
            i < self.num_vertices(),
        ensures
            s@ == self.names()[i as int],
    {
        self.labels[i].clone()
    }

    /// The neighbour list of vertex `i`.
    pub fn neighbors(&self, i: usize) -> (r: &Vec<usize>)
        requires
            self.wf(),
            i < self.num_vertices(),
        ensures
            r@ == self.adj()[i as int],
    {
        &self.adjacency[i]
    }

    /// Looks up the index of the vertex labelled `s`.
    pub fn index_of(&self, s: &String) -> (r: Option<usize>)
        requires
            self.wf(),
        ensures
            match r {
                Some(i) => i < self.num_vertices() && self.names()[i as int] == s@,
                None => !self.names().contains(s@),
            },
            r.is_some() == self.names().contains(s@),
    {
        let mut i: usize = 0;
        while i < self.labels.len()
            invariant
                0 <= i <= self.labels@.len(),
                self.names().len() == self.labels@.len(),
                forall|k: int| 0 <= k < i ==> self.names()[k] != s@,
            decreases self.labels@.len() - i,
        {
            if self.labels[i] == *s {
                assert(self.names()[i as int] == s@);
                return Some(i);
            }
            i = i + 1;
        }
        None
    }

    /// The labels of a shortest walk from the vertex labelled `start` to the
    /// one labelled `end`, both included; `None` when either label is not a
    /// vertex or no walk connects them.
    pub fn shortest_path(&self, start: &str, end: &str) -> (r: Option<Vec<String>>)
        requires
            self.wf(),
        ensures
            r.is_some() == self.connected(start@, end@),
            match r {
                Some(p) => {
                    &&& self.is_label_path(p@.map_values(|x: String| x@), start@, end@)
                    &&& forall|q: Seq<usize>|
                        is_path(
                            self.adj(),
                            q,
                            self.names().index_of(start@),
                            self.names().index_of(end@),
                        ) ==> p@.len() <= q.len()
                },
                None => true,
            },
    {
        let s = start.to_owned();
        let e = end.to_owned();
        let si = match self.index_of(&s) {
            Some(i) => i,
            None => return None,
        };
        let ei = match self.index_of(&e) {
            Some(i) => i,
            None => return None,
        };
        proof {
            self.lemma_index_of_label(si as int);
            self.lemma_index_of_label(ei as int);
            assert(rows(&self.adjacency) == self.adj());
        }
        match connectivity_search(&self.adjacency, si, ei) {
            None => None,
            Some(ip) => {
                proof {
                    assert forall|m: int| 0 <= m < ip@.len() implies #[trigger] ip@[m]
                        < self.num_vertices() by {
                        if m > 0 {
                            assert(step(self.adj(), ip@[m - 1] as int, ip@[(m - 1) + 1] as int));
                            let u = ip@[m - 1] as int;
                            let c = choose|c: int|
                                0 <= c < self.adj()[u].len() && self.adj()[u][c] == ip@[m];
                            assert(self.adj()[u][c] < self.num_vertices());
                        }
                    }
                }
                let mut out: Vec<String> = Vec::new();
                let mut k: usize = 0;
                while k < ip.len()
                    invariant
                        self.wf(),
                        is_path(self.adj(), ip@, si as int, ei as int),
                        k <= ip@.len(),
                        forall|m: int| 0 <= m < ip@.len() ==> #[trigger] ip@[m] < self.num_vertices(),
                        self.labels@.len() == self.num_vertices(),
                        out@.len() == k,
                        forall|m: int| 0 <= m < k ==> (#[trigger] out@[m])@ == self.names()[ip@[m] as int],
                    decreases ip@.len() - k,
                {
                    assert(ip@[k as int] < self.num_vertices());
                    let ghost before = out@;
                    out.push(self.labels[ip[k]].clone());
                    assert forall|m: int| 0 <= m < k + 1 implies (#[trigger] out@[m])@ == self.names()[ip@[m] as int] by {
                        if m < k {
                            assert(out@[m] == before[m]);
                        }
                    }
                    k = k + 1;
                }
                let ghost lp = out@.map_values(|x: String| x@);
                assert forall|m: int| 0 <= m < lp.len() - 1 implies #[trigger] self.linked(lp[m], lp[m + 1]) by {
                    assert(step(self.adj(), ip@[m] as int, ip@[m + 1] as int));
                    assert(out@[m]@ == self.names()[ip@[m] as int]);
                    assert(out@[m + 1]@ == self.names()[ip@[m + 1] as int]);
                    let u = ip@[m] as int;
                    let w = ip@[m + 1] as int;
                    let c = choose|c: int| 0 <= c < self.adj()[u].len() && self.adj()[u][c] == w;
                    assert(self.adj()[u][c] < self.num_vertices());
                    assert(self.has_edge(u, w));
                }
                assert(out@[0]@ == self.names()[ip@[0] as int]);
                assert(out@[out@.len() - 1]@ == self.names()[ip@[ip@.len() - 1] as int]);
                Some(out)
            },
        }
    }

    /// In a well-formed graph the label of vertex `i` is found at `i`.
    pub proof fn lemma_index_of_label(&self, i: int)
        requires
            self.wf(),
            0 <= i < self.num_vertices(),
        ensures
            self.names().index_of(self.names()[i]) == i,
    {
        let j = self.names().index_of(self.names()[i]);
        assert(self.names().contains(self.names()[i]));
        if j < i {
            assert(self.names()[j] != self.names()[i]);
        } else if i < j {
            assert(self.names()[i] != self.names()[j]);
        }
    }

    /// In a well-formed graph the neighbour relation is symmetric: the vertex
    /// labelled `y` is a neighbour of the one labelled `x` exactly when the
    /// vertex labelled `x` is a neighbour of the one labelled `y`.
    pub proof fn lemma_symmetric(&self, x: Seq<char>, y: Seq<char>)
        requires
            self.wf(),
        ensures
            self.linked(x, y) <==> self.linked(y, x),
    {
        if self.linked(x, y) {
            let (i, j) = choose|i: int, j: int|
                #[trigger] self.has_edge(i, j) && self.names()[i] == x && self.names()[j] == y;
            assert(self.has_edge(j, i));
        }
        if self.linked(y, x) {
            let (i, j) = choose|i: int, j: int|
                #[trigger] self.has_edge(i, j) && self.names()[i] == y && self.names()[j] == x;
            assert(self.has_edge(j, i));
        }
    }

    /// The index of the vertex labelled `s`, which is added without edges
    /// when missing.
    fn intern(&mut self, s: String) -> (i: usize)
        requires
            old(self).wf(),
            old(self).num_vertices() < usize::MAX,
        ensures
            final(self).wf(),
            final(self).names() == with_label(old(self).names(), s@),
            i < final(self).num_vertices(),
            final(self).names()[i as int] == s@,
            forall|a: int, b: int| #[trigger]
                final(self).has_edge(a, b) <==> old(self).has_edge(a, b),
    {
        match self.index_of(&s) {
            Some(i) => i,
            None => {
                let n = self.labels.len();
                self.labels.push(s);
                self.adjacency.push(Vec::new());
                assert(self.names() =~= old(self).names().push(s@));
                assert(self.adj() =~= old(self).adj().push(Seq::empty()));
                assert forall|a: int, b: int| #[trigger]
                    self.has_edge(a, b) <==> old(self).has_edge(a, b) by {
                    if a == n as int {
                        assert(self.adj()[a].len() == 0);
                    } else if 0 <= a < n {
                        assert(self.adj()[a] == old(self).adj()[a]);
                    }
                }
                n
            },
        }
    }

    /// Whether `j` appears in the row of `i`.
    fn row_contains(&self, i: usize, j: usize) -> (r: bool)
        requires
            i < self.adj().len(),
        ensures
            r == self.adj()[i as int].contains(j),
    {
        let row = &self.adjacency[i];
        assert(row@ == self.adj()[i as int]);
        let mut k: usize = 0;
        while k < row.len()
            invariant
                0 <= k <= row@.len(),
                row@ == self.adj()[i as int],
                forall|m: int| 0 <= m < k ==> row@[m] != j,
            decreases row@.len() - k,
        {
            if row[k] == j {
                assert(row@[k as int] == j);
                return true;
            }
            k = k + 1;
        }
        false
    }

    /// Appends `j` to the row of `i` when it is not there yet.
    fn link(&mut self, i: usize, j: usize)
        requires
            rows_in_range(old(self).adj(), old(self).num_vertices()),
            i < old(self).num_vertices(),
            j < old(self).num_vertices(),
        ensures
            rows_in_range(final(self).adj(), final(self).num_vertices()),
            final(self).names() == old(self).names(),
            forall|a: int, b: int| #[trigger]
                final(self).has_edge(a, b) <==> (old(self).has_edge(a, b) || (a == i && b
                    == j)),
    {
        let ghost adj0 = self.adj();
        if self.row_contains(i, j) {
            return;
        }
        assert(!adj0[i as int].contains(j));
        self.adjacency[i].push(j);
        assert(self.adj() =~= adj0.update(i as int, adj0[i as int].push(j)));
        assert forall|a: int, b: int| #[trigger]
            self.has_edge(a, b) <==> (old(self).has_edge(a, b) || (a == i && b == j)) by {
            if 0 <= a < self.num_vertices() && 0 <= b < self.num_vertices() {
                if a != i {
                    assert(self.adj()[a] == adj0[a]);
                } else {
                    let row = self.adj()[a];
                    assert(row == adj0[a].push(j));
                    if old(self).has_edge(a, b) {
                        let m = choose|m: int| 0 <= m < adj0[a].len() && adj0[a][m] == b;
                        assert(row[m] == b);
                    }
                    if self.has_edge(a, b) && b != j {
                        let m = choose|m: int| 0 <= m < row.len() && row[m] == b;
                        assert(adj0[a][m] == b);
                    }
                    if b == j {
                        assert(row[adj0[a].len() as int] == j);
                    }
                }
            }
        }
    }

    /// Adds the undirected edge between `node1` and `node2`, adding either
    /// vertex when it is missing. Adding an edge that is present changes
    /// nothing.
    pub fn add_edge(&mut self, node1: String, node2: String)
        requires
            old(self).wf(),
            old(self).num_vertices() + 2 <= usize::MAX,
        ensures
            final(self).wf(),
            Graph::edge_added(*old(self), *final(self), node1@, node2@),
    {
        let ghost u = node1@;
        let ghost v = node2@;
        let i = self.intern(node1);
        let j = self.intern(node2);
        let ghost g1 = *self;
        self.link(i, j);
        self.link(j, i);
        let ghost n = self.num_vertices();
        assert forall|a: int, b: int| 0 <= a < n && 0 <= b < n implies (#[trigger] self.has_edge(a, b)
            <==> (old(self).has_edge(a, b) || (self.names()[a] == u && self.names()[b] == v) || (
        self.names()[a] == v && self.names()[b] == u))) by {
            if self.names()[a] == u {
                assert(a == i);
            }
            if self.names()[a] == v {
                assert(a == j);
            }
            if self.names()[b] == u {
                assert(b == i);
            }
            if self.names()[b] == v {
                assert(b == j);
            }
        }
    }
}

} // verus!
