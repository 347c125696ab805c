use vstd::prelude::*;
use std::collections::HashSet;
use rand::Rng;
use vstd::string::StringExecFns;

verus! {

/// The mathematical content of a [`Graph`]: the name of each vertex, the
/// neighbour list of each vertex in the order the edges were added, and the
/// number of edges.
pub struct GraphModel {
    pub names: Seq<Seq<char>>,
    pub adj: Seq<Seq<usize>>,
    pub edges: nat,
}

/// The sum of the lengths of the lists.
pub open spec fn degree_sum(adj: Seq<Seq<usize>>) -> nat
    decreases adj.len(),
{
    if adj.len() == 0 {
        0
    } else {
        degree_sum(adj.drop_last()) + adj.last().len()
    }
}

impl GraphModel {
    pub open spec fn num_vertices(self) -> nat {
        self.adj.len()
    }

    pub open spec fn has_edge(self, u: int, v: int) -> bool {
        0 <= u < self.adj.len() && 0 <= v < self.adj.len() && self.adj[u].contains(v as usize)
    }

    pub open spec fn degree(self, v: int) -> nat {
        self.adj[v].len()
    }

    /// Indices are contiguous, names are unique, lists hold no repeats and no
    /// self-loops, every edge is seen from both ends, and each edge is counted
    /// once.
    pub open spec fn wf(self) -> bool {
        &&& self.adj.len() <= usize::MAX
        &&& self.names.len() == self.adj.len()
        &&& self.names.no_duplicates()
        &&& forall|u: int| 0 <= u < self.adj.len() ==> (#[trigger] self.adj[u]).no_duplicates()
        &&& forall|u: int, j: int|
            0 <= u < self.adj.len() && 0 <= j < self.adj[u].len() ==> (#[trigger] self.adj[u][j])
                < self.adj.len() && self.adj[u][j] as int != u
        &&& forall|u: int, v: int| #[trigger] self.has_edge(u, v) ==> self.has_edge(v, u)
        &&& 2 * self.edges == degree_sum(self.adj)
    }

    /// The graph with one more, isolated, vertex.
    pub open spec fn with_vertex(self, name: Seq<char>) -> GraphModel {
        GraphModel { names: self.names.push(name), adj: self.adj.push(seq![]), edges: self.edges }
    }

    /// The graph with the edge `u`–`v` added at the end of both lists.
    pub open spec fn with_edge(self, u: int, v: int) -> GraphModel {
        GraphModel {
            names: self.names,
            adj: self.adj.update(u, self.adj[u].push(v as usize)).update(
                v,
                self.adj[v].push(u as usize),
            ),
            edges: self.edges + 1,
        }
    }

    /// `u` comes before `v` when vertices are ordered by degree (largest first
    /// when `desc`, smallest first otherwise), equal degrees by index.
    pub open spec fn degree_precedes(self, desc: bool, u: int, v: int) -> bool {
        let du = self.degree(u);
        let dv = self.degree(v);
        if du == dv {
            u < v
        } else if desc {
            du > dv
        } else {
            du < dv
        }
    }

    /// `r` lists, in order, the first `s` vertices of the degree order.
    pub open spec fn is_degree_prefix(self, desc: bool, r: Seq<usize>, s: nat) -> bool {
        &&& r.len() == s
        &&& forall|i: int| 0 <= i < s ==> (#[trigger] r[i]) < self.num_vertices()
        &&& forall|i: int, j: int|
            0 <= i < j < s ==> self.degree_precedes(desc, #[trigger] r[i] as int, #[trigger] r[j] as int)
        &&& forall|v: int, i: int|
            0 <= v < self.num_vertices() && !r.contains(v as usize) && 0 <= i < s
                ==> #[trigger] self.degree_precedes(desc, r[i] as int, v)
    }

    /// `c` gives the two ends of every edge different colours.
    pub open spec fn is_two_coloring(self, c: Seq<bool>) -> bool {
        &&& c.len() == self.num_vertices()
        &&& forall|u: int, v: int| #[trigger] self.has_edge(u, v) ==> c[u] != c[v]
    }

    /// Some two-colouring exists.
    pub open spec fn is_bipartite(self) -> bool {
        exists|c: Seq<bool>| self.is_two_coloring(c)
    }

    /// `0 < edges` and `edges² < 64 · vertices³`.
    pub open spec fn is_sparse(self) -> bool {
        0 < self.edges && self.edges * self.edges < 64 * (self.num_vertices()
            * self.num_vertices() * self.num_vertices())
    }

    /// `v` is the first vertex with a neighbour.
    pub open spec fn is_first_nonisolated(self, v: int) -> bool {
        &&& 0 <= v < self.num_vertices()
        &&& self.adj[v].len() > 0
        &&& forall|u: int| 0 <= u < v ==> #[trigger] self.adj[u].len() == 0
    }

    /// `edges² > 64 · vertices³`.
    pub open spec fn is_dense(self) -> bool {
        self.edges * self.edges > 64 * (self.num_vertices() * self.num_vertices()
            * self.num_vertices())
    }

    /// `v` has the least degree, and the least index among those that do.
    pub open spec fn is_least_degree(self, v: int) -> bool {
        &&& 0 <= v < self.num_vertices()
        &&& forall|u: int|
            0 <= u < self.num_vertices() && u != v ==> #[trigger] self.degree_precedes(false, v, u)
    }

    /// The graph left after removing a least-degree vertex, again and again,
    /// until the graph is dense or has no vertices.
    pub open spec fn trimmed(self) -> GraphModel
        decreases self.adj.len(),
    {
        if self.is_dense() || self.adj.len() == 0 {
            self
        } else {
            let v = choose|v: int| self.is_least_degree(v);
            if 0 <= v < self.adj.len() {
                self.without_vertex(v).trimmed()
            } else {
                self
            }
        }
    }

    /// The index that vertex `a` of the graph without vertex `x` had before.
    pub open spec fn index_before_removal(a: int, x: int) -> int {
        if a < x {
            a
        } else {
            a + 1
        }
    }

    /// The graph without vertex `x` and its edges; the vertices above `x`
    /// move down by one.
    pub open spec fn without_vertex(self, x: int) -> GraphModel {
        GraphModel {
            names: self.names.remove(x),
            adj: self.adj.remove(x).map_values(|l: Seq<usize>| relabel(l, x as usize)),
            edges: (self.edges - self.adj[x].len()) as nat,
        }
    }
}

proof fn lemma_degree_sum_push(adj: Seq<Seq<usize>>, s: Seq<usize>)
    ensures
        degree_sum(adj.push(s)) == degree_sum(adj) + s.len(),
{
    assert(adj.push(s).drop_last() =~= adj);
}

proof fn lemma_degree_sum_update(adj: Seq<Seq<usize>>, i: int, s: Seq<usize>)
    requires
        0 <= i < adj.len(),
    ensures
        degree_sum(adj.update(i, s)) + adj[i].len() == degree_sum(adj) + s.len(),
    decreases adj.len(),
{
    let last = adj.len() - 1;
    if i == last {
        assert(adj.update(i, s).drop_last() =~= adj.drop_last());
    } else {
        lemma_degree_sum_update(adj.drop_last(), i, s);
        assert(adj.update(i, s).drop_last() =~= adj.drop_last().update(i, s));
    }
}

proof fn lemma_with_vertex_wf(g: GraphModel, name: Seq<char>)
    requires
        g.wf(),
        g.adj.len() < usize::MAX,
        !g.names.contains(name),
    ensures
        g.with_vertex(name).wf(),
{
    let h = g.with_vertex(name);
    lemma_degree_sum_push(g.adj, seq![]);
    assert forall|i: int, j: int| 0 <= i < h.names.len() && 0 <= j < h.names.len() && i != j implies h.names[i] != h.names[j] by {
        if i < g.names.len() && j < g.names.len() {
        } else if i < g.names.len() {
            assert(g.names.contains(g.names[i]));
        } else {
            assert(g.names.contains(g.names[j]));
        }
    }
    assert forall|u: int| 0 <= u < h.adj.len() implies (#[trigger] h.adj[u]).no_duplicates() by {
        if u < g.adj.len() {
            assert(h.adj[u] == g.adj[u]);
        }
    }
    assert forall|u: int, j: int|
        0 <= u < h.adj.len() && 0 <= j < h.adj[u].len() implies (#[trigger] h.adj[u][j])
            < h.adj.len() && h.adj[u][j] as int != u by {
        assert(u < g.adj.len());
        assert(h.adj[u] == g.adj[u]);
    }
    assert forall|u: int, v: int| #[trigger] h.has_edge(u, v) implies h.has_edge(v, u) by {
        assert(u < g.adj.len());
        assert(h.adj[u] == g.adj[u]);
        assert(g.has_edge(u, v));
        assert(g.has_edge(v, u));
    }
}

proof fn lemma_with_edge_wf(g: GraphModel, u: int, v: int)
    requires
        g.wf(),
        0 <= u < g.num_vertices(),
        0 <= v < g.num_vertices(),
        u != v,
        !g.has_edge(u, v),
    ensures
        g.with_edge(u, v).wf(),
        forall|a: int, b: int|
            #[trigger] g.with_edge(u, v).has_edge(a, b) <==> (g.has_edge(a, b) || (a == u && b
                == v) || (a == v && b == u)),
{
    let h = g.with_edge(u, v);
    let a1 = g.adj.update(u, g.adj[u].push(v as usize));
    lemma_degree_sum_update(g.adj, u, g.adj[u].push(v as usize));
    lemma_degree_sum_update(a1, v, g.adj[v].push(u as usize));
    assert(!g.has_edge(v, u));
    assert forall|a: int, b: int| #[trigger] h.has_edge(a, b) <==> (g.has_edge(a, b) || (a == u
        && b == v) || (a == v && b == u)) by {
        if 0 <= a < g.adj.len() && 0 <= b < g.adj.len() {
            vstd::seq_lib::lemma_seq_contains_after_push(g.adj[u], v as usize, b as usize);
            vstd::seq_lib::lemma_seq_contains_after_push(g.adj[v], u as usize, b as usize);
            if a == u {
                assert(h.adj[a] == g.adj[u].push(v as usize));
                assert(h.adj[a].contains(b as usize) <==> (g.adj[u].contains(b as usize) || b as usize == v as usize));
            } else if a == v {
                assert(h.adj[a] == g.adj[v].push(u as usize));
                assert(h.adj[a].contains(b as usize) <==> (g.adj[v].contains(b as usize) || b as usize == u as usize));
            } else {
                assert(h.adj[a] == g.adj[a]);
            }
            if g.has_edge(a, b) {
                assert(b < g.adj.len());
            }
        }
    }
    assert forall|a: int| 0 <= a < h.adj.len() implies (#[trigger] h.adj[a]).no_duplicates() by {
        if a != u && a != v {
            assert(h.adj[a] == g.adj[a]);
        } else if a == u {
            assert(h.adj[a] == g.adj[u].push(v as usize));
            assert(g.adj[u].no_duplicates());
        } else {
            assert(h.adj[a] == g.adj[v].push(u as usize));
            assert(g.adj[v].no_duplicates());
        }
    }
    assert forall|a: int, j: int|
        0 <= a < h.adj.len() && 0 <= j < h.adj[a].len() implies (#[trigger] h.adj[a][j])
            < h.adj.len() && h.adj[a][j] as int != a by {
        if a != u && a != v {
            assert(h.adj[a] == g.adj[a]);
        } else if a == u {
            assert(h.adj[a] == g.adj[u].push(v as usize));
            if j < g.adj[u].len() {
                assert(h.adj[a][j] == g.adj[u][j]);
            }
        } else {
            assert(h.adj[a] == g.adj[v].push(u as usize));
            if j < g.adj[v].len() {
                assert(h.adj[a][j] == g.adj[v][j]);
            }
        }
    }
}


/// `l` without `x`, with each entry above `x` lowered by one.
pub open spec fn relabel(l: Seq<usize>, x: usize) -> Seq<usize>
    decreases l.len(),
{
    if l.len() == 0 {
        seq![]
    } else {
        let rest = relabel(l.drop_last(), x);
        let v = l.last();
        if v == x {
            rest
        } else if v > x {
            rest.push((v - 1) as usize)
        } else {
            rest.push(v)
        }
    }
}

/// The number of lists that hold `x`.
pub open spec fn count_holding(adj: Seq<Seq<usize>>, x: usize) -> nat
    decreases adj.len(),
{
    if adj.len() == 0 {
        0
    } else {
        count_holding(adj.drop_last(), x) + if adj.last().contains(x) {
            1nat
        } else {
            0nat
        }
    }
}

proof fn lemma_relabel_contains(l: Seq<usize>, x: usize, w: usize)
    ensures
        relabel(l, x).contains(w) <==> ((w < x && l.contains(w)) || (w >= x && w < usize::MAX
            && l.contains((w + 1) as usize))),
    decreases l.len(),
{
    if l.len() > 0 {
        let p = l.drop_last();
        lemma_relabel_contains(p, x, w);
        let v = l.last();
        assert(l =~= p.push(v));
        vstd::seq_lib::lemma_seq_contains_after_push(p, v, w);
        if w < usize::MAX {
            vstd::seq_lib::lemma_seq_contains_after_push(p, v, (w + 1) as usize);
        }
        let rest = relabel(p, x);
        if v == x {
        } else if v > x {
            vstd::seq_lib::lemma_seq_contains_after_push(rest, (v - 1) as usize, w);
        } else {
            vstd::seq_lib::lemma_seq_contains_after_push(rest, v, w);
        }
    }
}

proof fn lemma_relabel_unique(l: Seq<usize>, x: usize)
    requires
        l.no_duplicates(),
    ensures
        relabel(l, x).no_duplicates(),
        relabel(l, x).len() + (if l.contains(x) {
            1int
        } else {
            0int
        }) == l.len(),
    decreases l.len(),
{
    if l.len() > 0 {
        let p = l.drop_last();
        let v = l.last();
        assert(l =~= p.push(v));
        assert(p.no_duplicates()) by {
            assert forall|i: int, j: int| 0 <= i < p.len() && 0 <= j < p.len() && i != j implies p[i] != p[j] by {
                assert(p[i] == l[i] && p[j] == l[j]);
            }
        }
        assert(!p.contains(v)) by {
            if p.contains(v) {
                let j = choose|j: int| 0 <= j < p.len() && p[j] == v;
                assert(l[j] == l[l.len() - 1]);
            }
        }
        lemma_relabel_unique(p, x);
        vstd::seq_lib::lemma_seq_contains_after_push(p, v, x);
        let rest = relabel(p, x);
        if v != x {
            let w = if v > x { (v - 1) as usize } else { v };
            lemma_relabel_contains(p, x, w);
            assert(!rest.contains(w));
            assert(rest.push(w).no_duplicates()) by {
                assert forall|i: int, j: int| 0 <= i < rest.push(w).len() && 0 <= j < rest.push(w).len() && i != j implies rest.push(w)[i] != rest.push(w)[j] by {
                    if i < rest.len() && j < rest.len() {
                    } else if i < rest.len() {
                        assert(rest.contains(rest[i]));
                    } else {
                        assert(rest.contains(rest[j]));
                    }
                }
            }
        }
    }
}

proof fn lemma_degree_sum_remove(adj: Seq<Seq<usize>>, i: int)
    requires
        0 <= i < adj.len(),
    ensures
        degree_sum(adj.remove(i)) + adj[i].len() == degree_sum(adj),
    decreases adj.len(),
{
    if i < adj.len() - 1 {
        lemma_degree_sum_remove(adj.drop_last(), i);
        assert(adj.remove(i).drop_last() =~= adj.drop_last().remove(i));
    } else {
        assert(adj.remove(i) =~= adj.drop_last());
    }
}

proof fn lemma_count_holding_remove(adj: Seq<Seq<usize>>, i: int, x: usize)
    requires
        0 <= i < adj.len(),
    ensures
        count_holding(adj.remove(i), x) + (if adj[i].contains(x) {
            1int
        } else {
            0int
        }) == count_holding(adj, x),
    decreases adj.len(),
{
    if i < adj.len() - 1 {
        lemma_count_holding_remove(adj.drop_last(), i, x);
        assert(adj.remove(i).drop_last() =~= adj.drop_last().remove(i));
    } else {
        assert(adj.remove(i) =~= adj.drop_last());
    }
}

proof fn lemma_degree_sum_relabel(adj: Seq<Seq<usize>>, x: usize)
    requires
        forall|u: int| 0 <= u < adj.len() ==> (#[trigger] adj[u]).no_duplicates(),
    ensures
        degree_sum(adj.map_values(|l: Seq<usize>| relabel(l, x))) + count_holding(adj, x)
            == degree_sum(adj),
    decreases adj.len(),
{
    if adj.len() > 0 {
        let p = adj.drop_last();
        lemma_degree_sum_relabel(p, x);
        let m = adj.map_values(|l: Seq<usize>| relabel(l, x));
        assert(m.drop_last() =~= p.map_values(|l: Seq<usize>| relabel(l, x)));
        assert(adj.last().no_duplicates()) by {
            assert(adj[adj.len() - 1].no_duplicates());
        }
        lemma_relabel_unique(adj.last(), x);
    }
}

/// In a well-formed graph as many lists hold `x` as `x` has neighbours.
proof fn lemma_count_holding_degree(g: GraphModel, x: int)
    requires
        g.wf(),
        0 <= x < g.num_vertices(),
    ensures
        count_holding(g.adj, x as usize) == g.adj[x].len(),
{
    let l = g.adj[x];
    let n = g.adj.len();
    assert forall|k: int| 0 <= k <= n implies count_holding(#[trigger] g.adj.take(k), x as usize) == Set::new(|u: usize| (u as int) < k && l.contains(u)).len()
        && Set::new(|u: usize| (u as int) < k && l.contains(u)).finite() by {
        lemma_count_holding_prefix(g, x, k);
    }
    assert(g.adj.take(n as int) =~= g.adj);
    assert(Set::new(|u: usize| (u as int) < n && l.contains(u)) =~= l.to_set()) by {
        assert forall|u: usize| l.contains(u) implies (u as int) < n by {
            let j = choose|j: int| 0 <= j < l.len() && l[j] == u;
            assert(g.adj[x][j] < n);
        }
    }
    assert(l.no_duplicates());
    l.unique_seq_to_set();
}

proof fn lemma_count_holding_prefix(g: GraphModel, x: int, k: int)
    requires
        g.wf(),
        0 <= x < g.num_vertices(),
        0 <= k <= g.num_vertices(),
    ensures
        count_holding(g.adj.take(k), x as usize) == Set::new(
            |u: usize| (u as int) < k && g.adj[x].contains(u),
        ).len(),
        Set::new(|u: usize| (u as int) < k && g.adj[x].contains(u)).finite(),
    decreases k,
{
    let l = g.adj[x];
    let t = Set::new(|u: usize| (u as int) < k && l.contains(u));
    vstd::set_lib::lemma_set_subset_finite(l.to_set(), t);
    if k == 0 {
        assert(t =~= Set::empty());
        assert(g.adj.take(0) =~= Seq::<Seq<usize>>::empty());
    } else {
        lemma_count_holding_prefix(g, x, k - 1);
        let t0 = Set::new(|u: usize| (u as int) < k - 1 && l.contains(u));
        assert(g.adj.take(k).drop_last() =~= g.adj.take(k - 1));
        let ku = (k - 1) as usize;
        assert(g.has_edge(k - 1, x) <==> g.has_edge(x, k - 1));
        if l.contains(ku) {
            assert(t =~= t0.insert(ku));
        } else {
            assert(t =~= t0);
        }
    }
}

proof fn lemma_without_vertex_wf(g: GraphModel, x: int)
    requires
        g.wf(),
        0 <= x < g.num_vertices(),
    ensures
        g.adj[x].len() <= g.edges,
        g.without_vertex(x).wf(),
        g.without_vertex(x).num_vertices() + 1 == g.num_vertices(),
        forall|a: int, b: int|
            #[trigger] g.without_vertex(x).has_edge(a, b) <==> (0 <= a < g.num_vertices() - 1
                && 0 <= b < g.num_vertices() - 1 && g.has_edge(
                GraphModel::index_before_removal(a, x),
                GraphModel::index_before_removal(b, x),
            )),
{
    let h = g.without_vertex(x);
    let r = g.adj.remove(x);
    assert forall|i: int, j: int| 0 <= i < h.names.len() && 0 <= j < h.names.len() && i != j implies h.names[i] != h.names[j] by {
        assert(h.names[i] == g.names[GraphModel::index_before_removal(i, x)]);
        assert(h.names[j] == g.names[GraphModel::index_before_removal(j, x)]);
    }
    let xu = x as usize;
    let n = g.adj.len();
    assert(h.adj.len() == n - 1);
    assert forall|a: int| 0 <= a < n - 1 implies #[trigger] h.adj[a] == relabel(
        g.adj[GraphModel::index_before_removal(a, x)],
        xu,
    ) by {
        assert(r[a] == g.adj[GraphModel::index_before_removal(a, x)]);
    }
    assert forall|a: int| 0 <= a < n - 1 implies (#[trigger] h.adj[a]).no_duplicates() by {
        let u = GraphModel::index_before_removal(a, x);
        assert(g.adj[u].no_duplicates());
        lemma_relabel_unique(g.adj[u], xu);
    }
    assert forall|a: int, b: int| #[trigger] h.has_edge(a, b) <==> (0 <= a < n - 1 && 0 <= b < n
        - 1 && g.has_edge(
        GraphModel::index_before_removal(a, x),
        GraphModel::index_before_removal(b, x),
    )) by {
        if 0 <= a < n - 1 && 0 <= b < n - 1 {
            let u = GraphModel::index_before_removal(a, x);
            lemma_relabel_contains(g.adj[u], xu, b as usize);
        }
    }
    assert forall|a: int, j: int|
        0 <= a < h.adj.len() && 0 <= j < h.adj[a].len() implies (#[trigger] h.adj[a][j])
            < h.adj.len() && h.adj[a][j] as int != a by {
        let u = GraphModel::index_before_removal(a, x);
        let w = h.adj[a][j];
        assert(h.adj[a].contains(w));
        lemma_relabel_contains(g.adj[u], xu, w);
        if w < xu {
            let i = choose|i: int| 0 <= i < g.adj[u].len() && g.adj[u][i] == w;
            assert(g.adj[u][i] < n && g.adj[u][i] as int != u);
        } else {
            let i = choose|i: int| 0 <= i < g.adj[u].len() && g.adj[u][i] == (w + 1) as usize;
            assert(g.adj[u][i] < n && g.adj[u][i] as int != u);
        }
    }
    assert forall|a: int, b: int| #[trigger] h.has_edge(a, b) implies h.has_edge(b, a) by {
        assert(g.has_edge(
            GraphModel::index_before_removal(a, x),
            GraphModel::index_before_removal(b, x),
        ));
        assert(h.has_edge(b, a));
    }
    // edge count
    lemma_degree_sum_remove(g.adj, x);
    lemma_count_holding_remove(g.adj, x, xu);
    assert(!g.adj[x].contains(xu)) by {
        if g.adj[x].contains(xu) {
            let i = choose|i: int| 0 <= i < g.adj[x].len() && g.adj[x][i] == xu;
            assert(g.adj[x][i] as int != x);
        }
    }
    lemma_count_holding_degree(g, x);
    assert forall|u: int| 0 <= u < r.len() implies (#[trigger] r[u]).no_duplicates() by {
        assert(r[u] == g.adj[GraphModel::index_before_removal(u, x)]);
    }
    lemma_degree_sum_relabel(r, xu);
}


/// The decimal digit `d`.
pub open spec fn digit_char(d: nat) -> char {
    if d == 0 {
        '0'
    } else if d == 1 {
        '1'
    } else if d == 2 {
        '2'
    } else if d == 3 {
        '3'
    } else if d == 4 {
        '4'
    } else if d == 5 {
        '5'
    } else if d == 6 {
        '6'
    } else if d == 7 {
        '7'
    } else if d == 8 {
        '8'
    } else {
        '9'
    }
}

/// The decimal digits of `v`, without leading zeros.
pub open spec fn decimal(v: nat) -> Seq<char>
    decreases v,
{
    if v < 10 {
        seq![digit_char(v)]
    } else {
        decimal(v / 10) + seq![digit_char(v % 10)]
    }
}

/// The decimal digit `d` as a string.
fn digit_str(d: usize) -> (r: &'static str)
    requires
        d < 10,
    ensures
        r@ == seq![digit_char(d as nat)],
{
    proof {
        reveal_strlit("0");
        reveal_strlit("1");
        reveal_strlit("2");
        reveal_strlit("3");
        reveal_strlit("4");
        reveal_strlit("5");
        reveal_strlit("6");
        reveal_strlit("7");
        reveal_strlit("8");
        reveal_strlit("9");
    }
    if d == 0 {
        "0"
    } else if d == 1 {
        "1"
    } else if d == 2 {
        "2"
    } else if d == 3 {
        "3"
    } else if d == 4 {
        "4"
    } else if d == 5 {
        "5"
    } else if d == 6 {
        "6"
    } else if d == 7 {
        "7"
    } else if d == 8 {
        "8"
    } else {
        "9"
    }
}

/// Appends the decimal digits of `v` to `s`.
fn push_decimal(s: &mut String, v: usize)
    ensures
        final(s)@ == old(s)@ + decimal(v as nat),
    decreases v,
{
    if v >= 10 {
        push_decimal(s, v / 10);
    }
    s.append(digit_str(v % 10));
    proof {
        if v >= 10 {
            assert(old(s)@ + decimal(v as nat) =~= (old(s)@ + decimal((v / 10) as nat)) + seq![
                digit_char((v % 10) as nat),
            ]);
        } else {
            assert(v % 10 == v);
        }
    }
}

/// `prefix` followed by the decimal digits of `i`.
fn indexed_name(prefix: &str, i: usize) -> (r: String)
    ensures
        r@ == prefix@ + decimal(i as nat),
{
    let mut r = prefix.to_owned();
    push_decimal(&mut r, i);
    r
}

/// The name that the generated graphs give vertex `i`.
pub open spec fn vertex_label(i: nat) -> Seq<char> {
    "vertex_"@ + decimal(i)
}

/// The neighbours of `i` in the complete graph on `n` vertices, ascending.
pub open spec fn complete_row(n: nat, i: int) -> Seq<usize> {
    Seq::new((n - 1) as nat, |j: int| (if j < i { j } else { j + 1 }) as usize)
}

/// The complete graph on `n` vertices named by [`vertex_label`].
pub open spec fn complete_model(n: nat) -> GraphModel {
    GraphModel {
        names: Seq::new(n, |i: int| vertex_label(i as nat)),
        adj: Seq::new(n, |i: int| complete_row(n, i)),
        edges: (n * (n - 1) / 2) as nat,
    }
}

proof fn lemma_degree_sum_uniform(adj: Seq<Seq<usize>>, d: nat)
    requires
        forall|i: int| 0 <= i < adj.len() ==> (#[trigger] adj[i]).len() == d,
    ensures
        degree_sum(adj) == adj.len() * d,
    decreases adj.len(),
{
    if adj.len() > 0 {
        lemma_degree_sum_uniform(adj.drop_last(), d);
        assert(degree_sum(adj) == (adj.len() - 1) * d + d);
        assert((adj.len() - 1) * d + d == adj.len() * d) by (nonlinear_arith);
    }
}

proof fn lemma_complete_wf(n: nat)
    requires
        n <= usize::MAX,
    ensures
        complete_model(n).wf(),
{
    let g = complete_model(n);
    lemma_labels_distinct("vertex_"@, n);
    assert(g.names =~= Seq::new(n, |i: int| "vertex_"@ + decimal(i as nat)));
    assert forall|u: int, j: int|
        0 <= u < g.adj.len() && 0 <= j < g.adj[u].len() implies (#[trigger] g.adj[u][j])
            < g.adj.len() && g.adj[u][j] as int != u by {
        assert(g.adj[u] == complete_row(n, u));
    }
    assert forall|u: int| 0 <= u < g.adj.len() implies (#[trigger] g.adj[u]).no_duplicates() by {
        assert(g.adj[u] == complete_row(n, u));
    }
    assert forall|u: int, v: int| #[trigger] g.has_edge(u, v) implies g.has_edge(v, u) by {
        let row = complete_row(n, u);
        assert(g.adj[u] == row);
        let j = choose|j: int| 0 <= j < row.len() && row[j] == v as usize;
        assert(u != v);
        let k = if u < v { u } else { u - 1 };
        assert(complete_row(n, v)[k] == u as usize);
        assert(g.adj[v] == complete_row(n, v));
    }
    if n > 0 {
        lemma_degree_sum_uniform(g.adj, (n - 1) as nat);
        let h = n / 2;
        let x: int = if n % 2 == 0 { h * (n - 1) } else { (n * h) as int };
        if n % 2 == 0 {
            assert(n * (n - 1) == 2 * (h * (n - 1))) by (nonlinear_arith)
                requires
                    n == 2 * h,
            ;
        } else {
            assert(n * (n - 1) == 2 * (n * h)) by (nonlinear_arith)
                requires
                    n == 2 * h + 1,
            ;
        }
        assert(n * (n - 1) / 2 == x);
        assert(degree_sum(g.adj) == n * (n - 1));
    } else {
        assert(g.adj =~= Seq::<Seq<usize>>::empty());
        assert(n * (n - 1) == 0) by (nonlinear_arith)
            requires
                n == 0,
        ;
    }
}

/// `m² < 64·n³` and `m² > 64·n³`, computed without overflow.
fn density_against(m: usize, n: usize) -> (r: (bool, bool))
    ensures
        r.0 == (m * m < 64 * (n * n * n)),
        r.1 == (m * m > 64 * (n * n * n)),
{
    let a: u128 = m as u128;
    let b: u128 = n as u128;
    assert(a * a <= 0xffff_ffff_ffff_ffffu128 * 0xffff_ffff_ffff_ffffu128) by (nonlinear_arith)
        requires
            a <= 0xffff_ffff_ffff_ffffu128,
    ;
    assert(b * b <= 0xffff_ffff_ffff_ffffu128 * 0xffff_ffff_ffff_ffffu128) by (nonlinear_arith)
        requires
            b <= 0xffff_ffff_ffff_ffffu128,
    ;
    let mm: u128 = a * a;
    let nn: u128 = b * b;
    if n == 0 {
        return (false, mm > 0);
    }
    if nn > u128::MAX / 64 / (n as u128) {
        assert(64 * (n * n * n) > u128::MAX) by (nonlinear_arith)
            requires
                nn > u128::MAX / 64 / (n as u128),
                nn == n * n,
                n > 0,
        ;
        assert(mm <= u128::MAX);
        return (true, false);
    }
    assert(nn * b <= u128::MAX / 64) by (nonlinear_arith)
        requires
            nn <= u128::MAX / 64 / b,
            b > 0,
    ;
    let big: u128 = 64 * (nn * b);
    assert(big == 64 * (n * n * n)) by (nonlinear_arith)
        requires
            big == 64 * (nn * n),
            nn == n * n,
    ;
    (mm < big, mm > big)
}

/// A graph with an edge has a vertex with a neighbour.
pub proof fn lemma_edge_has_endpoint(adj: Seq<Seq<usize>>)
    requires
        degree_sum(adj) > 0,
    ensures
        exists|u: int| 0 <= u < adj.len() && (#[trigger] adj[u]).len() > 0,
    decreases adj.len(),
{
    if adj.last().len() == 0 {
        lemma_edge_has_endpoint(adj.drop_last());
        let u = choose|u: int| 0 <= u < adj.drop_last().len() && (#[trigger] adj.drop_last()[u]).len() > 0;
        assert(adj[u] == adj.drop_last()[u]);
    } else {
        assert(adj[adj.len() - 1].len() > 0);
    }
}

/// A graph that already satisfies `edges² > 64 · vertices³` is left as it is
/// by the trimming.
pub proof fn lemma_trim_keeps_dense(g: GraphModel)
    requires
        g.is_dense(),
    ensures
        g.trimmed() == g,
        g.trimmed().is_dense(),
{
}

/// Trimming keeps a graph well formed; in particular the edge count stays
/// half the sum of the degrees.
pub proof fn lemma_trimmed_wf(g: GraphModel)
    requires
        g.wf(),
    ensures
        g.trimmed().wf(),
        2 * g.trimmed().edges == degree_sum(g.trimmed().adj),
    decreases g.adj.len(),
{
    if !(g.is_dense() || g.adj.len() == 0) {
        let v = choose|v: int| g.is_least_degree(v);
        if 0 <= v < g.adj.len() {
            lemma_without_vertex_wf(g, v);
            lemma_trimmed_wf(g.without_vertex(v));
        }
    }
}

/// Looking up a name that is present and reading back the name at the index
/// found gives the same name.
pub proof fn lemma_name_round_trip(g: GraphModel, name: Seq<char>)
    requires
        g.names.contains(name),
    ensures
        g.names.index_of_first(name) is Some,
        0 <= g.names.index_of_first(name)->0 < g.names.len(),
        g.names[g.names.index_of_first(name)->0] == name,
{
    g.names.index_of_first_ensures(name);
}

/// The colour of a vertex during the two-colouring search; gray is not yet
/// coloured.
#[derive(Clone, Copy, PartialEq, Eq, Structural)]
enum Color {
    Black,
    White,
    Gray,
}

impl Color {
    /// The opposite colour; gray stays gray.
    fn reverse(&self) -> (r: Color)
        ensures
            r == match *self {
                Color::Black => Color::White,
                Color::White => Color::Black,
                Color::Gray => Color::Gray,
            },
    {
        match self {
            Color::Black => Color::White,
            Color::White => Color::Black,
            Color::Gray => Color::Gray,
        }
    }
}

spec fn count_gray(col: Seq<Color>) -> nat
    decreases col.len(),
{
    if col.len() == 0 {
        0
    } else {
        count_gray(col.drop_last()) + if col.last() == Color::Gray {
            1nat
        } else {
            0nat
        }
    }
}

proof fn lemma_count_gray_paint(col: Seq<Color>, w: int, x: Color)
    requires
        0 <= w < col.len(),
        col[w] == Color::Gray,
        x != Color::Gray,
    ensures
        count_gray(col.update(w, x)) + 1 == count_gray(col),
    decreases col.len(),
{
    if w < col.len() - 1 {
        lemma_count_gray_paint(col.drop_last(), w, x);
        assert(col.update(w, x).drop_last() =~= col.drop_last().update(w, x));
    } else {
        assert(col.update(w, x).drop_last() =~= col.drop_last());
    }
}

/// `v` is coloured and every neighbour has the other colour.
spec fn finished(g: GraphModel, col: Seq<Color>, v: int) -> bool {
    &&& col[v] != Color::Gray
    &&& forall|j: int|
        0 <= j < g.adj[v].len() ==> col[#[trigger] g.adj[v][j] as int] != Color::Gray && col[g.adj[v][j] as int]
            != col[v]
}

/// Every two-colouring colours `v` as its colour relative to `root` says.
spec fn tied(g: GraphModel, col: Seq<Color>, root: int, v: int) -> bool {
    forall|c: Seq<bool>| #[trigger] g.is_two_coloring(c) ==> c[v] == (c[root] == (col[v] == col[root]))
}

/// Relies on rand's `thread_rng().gen_range(lo..hi)`: a value of `lo..hi`,
/// which must not be empty.
#[verifier::external_body]
fn random_index(lo: usize, hi: usize) -> (r: usize)
    requires
        lo < hi,
    ensures
        lo <= r < hi,
{
    rand::thread_rng().gen_range(lo..hi)
}

/// The pairs `(a, b)` with `a < b < n`, for `a` below `rows`, in order.
pub open spec fn vertex_pairs(n: nat, rows: nat) -> Seq<(usize, usize)>
    decreases rows,
{
    if rows == 0 {
        seq![]
    } else {
        let a = rows - 1;
        vertex_pairs(n, (rows - 1) as nat) + Seq::new(
            (n - a - 1) as nat,
            |j: int| (a as usize, (a + 1 + j) as usize),
        )
    }
}

/// The pairs after the first `steps` swaps: swap `i` exchanges pair `i` with
/// pair `i + offsets[i] % (pairs - i)`.
pub open spec fn shuffled_pairs(pairs: Seq<(usize, usize)>, offsets: Seq<usize>, steps: nat) -> Seq<
    (usize, usize),
>
    decreases steps,
{
    if steps == 0 {
        pairs
    } else {
        let i = steps - 1;
        let p = shuffled_pairs(pairs, offsets, (steps - 1) as nat);
        let j = i + (offsets[i] as int) % (pairs.len() - i);
        p.update(i, p[j]).update(j, p[i])
    }
}

/// The name that the graphs with a given edge count give vertex `i`.
pub open spec fn short_label(i: nat) -> Seq<char> {
    "v"@ + decimal(i)
}

proof fn lemma_half_product(n: nat)
    ensures
        n % 2 == 0 ==> (n / 2) * (n - 1) == n * (n - 1) / 2,
        n % 2 == 1 ==> n * ((n - 1) / 2) == n * (n - 1) / 2,
{
    let h = n / 2;
    if n % 2 == 0 {
        assert(n * (n - 1) == 2 * (h * (n - 1))) by (nonlinear_arith)
            requires
                n == 2 * h,
        ;
    } else {
        assert(n * (n - 1) == 2 * (n * h)) by (nonlinear_arith)
            requires
                n == 2 * h + 1,
        ;
        assert((n - 1) / 2 == h);
    }
}

/// The names in order, each kept only where it first occurs.
pub open spec fn first_occurrences(s: Seq<Seq<char>>) -> Seq<Seq<char>>
    decreases s.len(),
{
    if s.len() == 0 {
        seq![]
    } else {
        let d = first_occurrences(s.drop_last());
        if d.contains(s.last()) {
            d
        } else {
            d.push(s.last())
        }
    }
}

/// Names that are already distinct are all kept.
pub proof fn lemma_first_occurrences_distinct(s: Seq<Seq<char>>)
    requires
        s.no_duplicates(),
    ensures
        first_occurrences(s) == s,
    decreases s.len(),
{
    if s.len() > 0 {
        let p = s.drop_last();
        assert(p.no_duplicates()) by {
            assert forall|i: int, j: int| 0 <= i < p.len() && 0 <= j < p.len() && i != j implies p[i] != p[j] by {
                assert(p[i] == s[i] && p[j] == s[j]);
            }
        }
        lemma_first_occurrences_distinct(p);
        if p.contains(s.last()) {
            let i = choose|i: int| 0 <= i < p.len() && p[i] == s.last();
            assert(s[i] == s[s.len() - 1]);
        }
        assert(p.push(s.last()) =~= s);
    }
}

proof fn lemma_decimal_shape(v: nat)
    ensures
        decimal(v).len() >= 1,
        v >= 10 ==> decimal(v).len() >= 2,
    decreases v,
{
    if v >= 10 {
        lemma_decimal_shape(v / 10);
    }
}

/// Different numbers have different decimal digits.
proof fn lemma_decimal_injective(a: nat, b: nat)
    requires
        decimal(a) == decimal(b),
    ensures
        a == b,
    decreases a,
{
    lemma_decimal_shape(a);
    lemma_decimal_shape(b);
    if a < 10 && b < 10 {
        assert(decimal(a)[0] == digit_char(a));
        assert(decimal(b)[0] == digit_char(b));
    } else if a >= 10 && b >= 10 {
        let da = decimal(a / 10);
        let db = decimal(b / 10);
        assert(decimal(a).drop_last() =~= da);
        assert(decimal(b).drop_last() =~= db);
        assert(decimal(a).last() == digit_char(a % 10));
        assert(decimal(b).last() == digit_char(b % 10));
        lemma_decimal_injective(a / 10, b / 10);
    }
}

/// A prefix followed by the decimal digits of the index names each index
/// differently.
proof fn lemma_labels_distinct(prefix: Seq<char>, n: nat)
    ensures
        Seq::new(n, |i: int| prefix + decimal(i as nat)).no_duplicates(),
{
    let s = Seq::new(n, |i: int| prefix + decimal(i as nat));
    assert forall|i: int, j: int| 0 <= i < n && 0 <= j < n && i != j implies s[i] != s[j] by {
        if s[i] == s[j] {
            lemma_decimal_shape(i as nat);
            lemma_decimal_shape(j as nat);
            let a = prefix + decimal(i as nat);
            let b = prefix + decimal(j as nat);
            assert(a.subrange(prefix.len() as int, a.len() as int) =~= decimal(i as nat));
            assert(b.subrange(prefix.len() as int, b.len() as int) =~= decimal(j as nat));
            lemma_decimal_injective(i as nat, j as nat);
        }
    }
}

/// A sequence of empty lists sums to nothing.
proof fn lemma_degree_sum_empty(adj: Seq<Seq<usize>>)
    requires
        forall|i: int| 0 <= i < adj.len() ==> (#[trigger] adj[i]).len() == 0,
    ensures
        degree_sum(adj) == 0,
    decreases adj.len(),
{
    if adj.len() > 0 {
        lemma_degree_sum_empty(adj.drop_last());
    }
}

/// An undirected graph whose vertices are numbered `0..n` and carry names.
#[derive(Clone)]
pub struct Graph {
    num_of_vertices: usize,
    num_of_edges: usize,
    neighbours: Vec<Vec<usize>>,
    idx_to_name_map: Vec<String>,
}

impl View for Graph {
    type V = GraphModel;

    closed spec fn view(&self) -> GraphModel {
        GraphModel {
            names: self.idx_to_name_map@.map_values(|s: String| s@),
            adj: self.neighbours@.map_values(|l: Vec<usize>| l@),
            edges: self.num_of_edges as nat,
        }
    }
}

/// Whether `x` occurs in `list`.
fn list_contains(list: &Vec<usize>, x: usize) -> (r: bool)
    ensures
        r == list@.contains(x),
{
    let mut i: usize = 0;
    while i < list.len()
        invariant
            i <= list.len(),
            forall|j: int| 0 <= j < i ==> list@[j] != x,
        decreases list.len() - i,
    {
        if list[i] == x {
            return true;
        }
        i = i + 1;
    }
    false
}

/// The list without `x`, with each entry above `x` lowered by one.
fn relabel_list(list: &Vec<usize>, x: usize) -> (r: Vec<usize>)
    ensures
        r@ == relabel(list@, x),
{
    let mut r: Vec<usize> = Vec::new();
    let mut i: usize = 0;
    while i < list.len()
        invariant
            i <= list.len(),
            r@ == relabel(list@.take(i as int), x),
        decreases list.len() - i,
    {
        let v = list[i];
        proof {
            assert(list@.take(i + 1).drop_last() =~= list@.take(i as int));
            assert(list@.take(i + 1).last() == v);
        }
        if v > x {
            r.push(v - 1);
        } else if v < x {
            r.push(v);
        }
        i = i + 1;
    }
    proof {
        assert(list@.take(i as int) =~= list@);
    }
    r
}

/// Whether `list` has no repeats and holds only vertices below `n` other than `u`.
fn list_ok(list: &Vec<usize>, u: usize, n: usize) -> (r: bool)
    ensures
        r == (list@.no_duplicates() && forall|j: int|
            0 <= j < list@.len() ==> (#[trigger] list@[j]) < n && list@[j] != u),
{
    let mut j: usize = 0;
    while j < list.len()
        invariant
            j <= list@.len(),
            list@.take(j as int).no_duplicates(),
            forall|t: int| 0 <= t < j ==> (#[trigger] list@[t]) < n && list@[t] != u,
        decreases list@.len() - j,
    {
        let x = list[j];
        if x >= n || x == u {
            return false;
        }
        let mut t: usize = 0;
        while t < j
            invariant
                t <= j < list@.len(),
                x == list@[j as int],
                forall|q: int| 0 <= q < t ==> list@[q] != x,
            decreases j - t,
        {
            if list[t] == x {
                proof {
                    assert(!list@.no_duplicates()) by {
                        assert(list@[t as int] == list@[j as int]);
                    }
                }
                return false;
            }
            t = t + 1;
        }
        proof {
            assert(list@.take(j + 1).no_duplicates()) by {
                let p = list@.take(j + 1);
                assert forall|a: int, b: int| 0 <= a < p.len() && 0 <= b < p.len() && a != b implies p[a] != p[b] by {
                    if a < j && b < j {
                        assert(list@.take(j as int)[a] == p[a] && list@.take(j as int)[b] == p[b]);
                    }
                }
            }
        }
        j = j + 1;
    }
    proof {
        assert(list@.take(j as int) =~= list@);
    }
    true
}

/// Whether no name occurs twice.
fn names_distinct(names: &Vec<String>) -> (r: bool)
    ensures
        r == names@.map_values(|s: String| s@).no_duplicates(),
{
    let ghost v = names@.map_values(|s: String| s@);
    let mut i: usize = 0;
    while i < names.len()
        invariant
            v == names@.map_values(|s: String| s@),
            i <= names@.len(),
            forall|a: int, b: int| 0 <= a < b < i ==> v[a] != v[b],
        decreases names@.len() - i,
    {
        let mut j: usize = 0;
        while j < i
            invariant
                v == names@.map_values(|s: String| s@),
                j <= i < names@.len(),
                forall|a: int| 0 <= a < j ==> v[a] != v[i as int],
            decreases i - j,
        {
            if names[j] == names[i] {
                proof {
                    assert(v[j as int] == v[i as int]);
                }
                return false;
            }
            j = j + 1;
        }
        i = i + 1;
    }
    proof {
        assert forall|a: int, b: int| 0 <= a < v.len() && 0 <= b < v.len() && a != b implies v[a] != v[b] by {
            if b < a {
                assert(v[b] != v[a]);
            }
        }
    }
    true
}

/// The pairs `(a, b)` with `a < b < n`, in order.
fn all_pairs(n: usize) -> (pairs: Vec<(usize, usize)>)
    ensures
        pairs@ == vertex_pairs(n as nat, n as nat),
        2 * pairs@.len() == n * (n - 1),
        forall|t: int| 0 <= t < pairs@.len() ==> (#[trigger] pairs@[t]).0 < pairs@[t].1 < n,
        pairs@.no_duplicates(),
{
    let mut pairs: Vec<(usize, usize)> = Vec::new();
    let mut from: usize = 0;
    while from < n
        invariant
            from <= n,
            pairs@ == vertex_pairs(n as nat, from as nat),
            2 * pairs@.len() == from * (2 * n - 2) - from * (from - 1),
            forall|t: int| 0 <= t < pairs@.len() ==> (#[trigger] pairs@[t]).0 < pairs@[t].1 < n,
            forall|t: int| 0 <= t < pairs@.len() ==> (#[trigger] pairs@[t]).0 < from,
            forall|s: int, t: int|
                0 <= s < t < pairs@.len() ==> (#[trigger] pairs@[s]).0 < (#[trigger] pairs@[t]).0
                    || (pairs@[s].0 == pairs@[t].0 && pairs@[s].1 < pairs@[t].1),
        decreases n - from,
    {
        let ghost base = pairs@.len();
        let mut to: usize = from + 1;
        while to < n
            invariant
                from < n,
                from + 1 <= to <= n,
                pairs@ == vertex_pairs(n as nat, from as nat) + Seq::new(
                    (to - from - 1) as nat,
                    |j: int| (from as usize, (from + 1 + j) as usize),
                ),
                pairs@.len() == base + (to - from - 1),
                forall|t: int| 0 <= t < pairs@.len() ==> (#[trigger] pairs@[t]).0 < pairs@[t].1 < n,
                forall|t: int| 0 <= t < base ==> (#[trigger] pairs@[t]).0 < from,
                forall|t: int| base <= t < pairs@.len() ==> (#[trigger] pairs@[t]).0 == from && pairs@[t].1 < to,
                forall|s: int, t: int|
                    0 <= s < t < pairs@.len() ==> (#[trigger] pairs@[s]).0 < (#[trigger] pairs@[t]).0
                        || (pairs@[s].0 == pairs@[t].0 && pairs@[s].1 < pairs@[t].1),
            decreases n - to,
        {
            pairs.push((from, to));
            proof {
                assert(pairs@ =~= vertex_pairs(n as nat, from as nat) + Seq::new(
                    (to + 1 - from - 1) as nat,
                    |j: int| (from as usize, (from + 1 + j) as usize),
                ));
            }
            to = to + 1;
        }
        proof {
            assert(pairs@ =~= vertex_pairs(n as nat, (from + 1) as nat));
            assert(2 * pairs@.len() == (from + 1) * (2 * n - 2) - (from + 1) * from) by (nonlinear_arith)
                requires
                    2 * base == from * (2 * n - 2) - from * (from - 1),
                    pairs@.len() == base + (n - from - 1),
                    from < n,
            ;
        }
        from = from + 1;
    }
    let total = pairs.len();
    proof {
        assert(2 * total == n * (n - 1)) by (nonlinear_arith)
            requires
                2 * total == n * (2 * n - 2) - n * (n - 1),
        ;
        assert forall|s: int, t: int| 0 <= s < pairs@.len() && 0 <= t < pairs@.len() && s != t implies pairs@[s] != pairs@[t] by {
            if s < t {
                assert(pairs@[s].0 < pairs@[t].0 || (pairs@[s].0 == pairs@[t].0 && pairs@[s].1 < pairs@[t].1));
            } else {
                assert(pairs@[t].0 < pairs@[s].0 || (pairs@[t].0 == pairs@[s].0 && pairs@[t].1 < pairs@[s].1));
            }
        }
    }
    pairs
}

impl Graph {
    /// The stored counters agree with the stored lists.
    pub closed spec fn inv(&self) -> bool {
        &&& self.num_of_vertices == self.neighbours.len()
        &&& self.neighbours.len() == self.idx_to_name_map.len()
    }

    pub open spec fn wf(&self) -> bool {
        self.inv() && self@.wf()
    }

    /// The number of vertices.
    pub fn get_num_of_vertices(&self) -> (r: usize)
        requires
            self.wf(),
        ensures
            r == self@.num_vertices(),
    {
        self.num_of_vertices
    }

    /// The number of edges.
    pub fn get_num_of_edges(&self) -> (r: usize)
        ensures
            r == self@.edges,
    {
        self.num_of_edges
    }

    /// The name of vertex `idx`, if there is such a vertex.
    pub fn idx_to_name(&self, idx: usize) -> (r: Option<String>)
        requires
            self.wf(),
        ensures
            match r {
                Some(s) => idx < self@.num_vertices() && s@ == self@.names[idx as int],
                None => idx >= self@.num_vertices(),
            },
    {
        if idx < self.idx_to_name_map.len() {
            Some(self.idx_to_name_map[idx].clone())
        } else {
            None
        }
    }

    /// The first vertex called `name`, if any.
    pub fn name_to_idx(&self, name: &str) -> (r: Option<usize>)
        requires
            self.wf(),
        ensures
            match r {
                Some(i) => self@.names.index_of_first(name@) == Some(i as int),
                None => !self@.names.contains(name@),
            },
    {
        proof {
            self@.names.index_of_first_ensures(name@);
        }
        let key = name.to_owned();
        let mut i: usize = 0;
        while i < self.idx_to_name_map.len()
            invariant
                i <= self.idx_to_name_map.len(),
                key@ == name@,
                forall|j: int| 0 <= j < i ==> self@.names[j] != name@,
                self@.names.len() == self.idx_to_name_map.len(),
                forall|j: int|
                    0 <= j < self.idx_to_name_map.len() ==> self@.names[j]
                        == (#[trigger] self.idx_to_name_map@[j])@,
            decreases self.idx_to_name_map.len() - i,
        {
            if self.idx_to_name_map[i] == key {
                proof {
                    let names = self@.names;
                    names.index_of_first_ensures(name@);
                    assert(names[i as int] == name@);
                    assert(names.contains(name@));
                    match names.index_of_first(name@) {
                        Some(f) => {
                            assert(f == i as int);
                        },
                        None => {},
                    }
                }
                return Some(i);
            }
            i = i + 1;
        }
        proof {
            let names = self@.names;
            if names.contains(name@) {
                let w = choose|w: int| 0 <= w < names.len() && names[w] == name@;
                assert(names[w] != name@);
            }
        }
        None
    }

    /// Whether some vertex is called `name`.
    pub fn contains_vertex(&self, name: &str) -> (r: bool)
        requires
            self.wf(),
        ensures
            r == self@.names.contains(name@),
    {
        proof {
            self@.names.index_of_first_ensures(name@);
        }
        self.name_to_idx(name).is_some()
    }

    /// A graph with no vertices.
    pub fn empty() -> (r: Graph)
        ensures
            r.wf(),
            r@.names.len() == 0,
            r@.adj.len() == 0,
            r@.edges == 0,
    {
        let r = Graph {
            num_of_vertices: 0,
            num_of_edges: 0,
            neighbours: Vec::new(),
            idx_to_name_map: Vec::new(),
        };
        proof {
            assert(r@.adj =~= Seq::<Seq<usize>>::empty());
        }
        r
    }

    /// A graph without edges with one vertex for each name, in order; a name
    /// that repeats gets only the vertex of its first occurrence.
    pub fn from_names(names: Vec<String>) -> (r: Graph)
        ensures
            r.wf(),
            r@.names == first_occurrences(names@.map_values(|s: String| s@)),
            r@.adj == Seq::new(r@.names.len(), |i: int| Seq::<usize>::empty()),
            r@.edges == 0,
    {
        let ghost given = names@.map_values(|s: String| s@);
        let mut graph = Graph::empty();
        let mut i: usize = 0;
        while i < names.len()
            invariant
                i <= names@.len(),
                given == names@.map_values(|s: String| s@),
                graph.wf(),
                graph@.names == first_occurrences(given.take(i as int)),
                graph@.adj == Seq::new(graph@.names.len(), |i: int| Seq::<usize>::empty()),
                graph@.edges == 0,
            decreases names@.len() - i,
        {
            proof {
                assert(given.take(i + 1).drop_last() =~= given.take(i as int));
                assert(given.take(i + 1).last() == names@[i as int]@);
            }
            graph.add_vertex(names[i].as_str());
            proof {
                assert(graph@.adj =~~= Seq::new(graph@.names.len(), |i: int| Seq::<usize>::empty()));
            }
            i = i + 1;
        }
        proof {
            assert(given.take(i as int) =~= given);
        }
        graph
    }

    /// Adds an isolated vertex called `name`, unless that name is taken.
    pub fn add_vertex(&mut self, name: &str)
        requires
            old(self).wf(),
        ensures
            final(self).wf(),
            old(self)@.names.contains(name@) ==> final(self)@ == old(self)@,
            !old(self)@.names.contains(name@) ==> final(self)@ == old(self)@.with_vertex(name@),
    {
        if !self.contains_vertex(name) {
            let ghost before = self@;
            self.neighbours.push(Vec::new());
            self.idx_to_name_map.push(name.to_owned());
            self.num_of_vertices = self.neighbours.len();
            proof {
                lemma_with_vertex_wf(before, name@);
                assert(self@.names =~= old(self)@.names.push(name@));
                assert(self@.adj =~~= old(self)@.adj.push(seq![]));
            }
        }
    }

    /// Adds the edge `from`–`to`. Nothing changes, and `false` is returned,
    /// when an endpoint is missing, the endpoints are equal, the edge is
    /// already there, or the edge count is at its largest value.
    pub fn add_edge_idx(&mut self, from: usize, to: usize) -> (r: bool)
        requires
            old(self).wf(),
        ensures
            final(self).wf(),
            r == (from < old(self)@.num_vertices() && to < old(self)@.num_vertices() && from != to
                && !old(self)@.has_edge(from as int, to as int) && old(self)@.edges < usize::MAX),
            r ==> final(self)@ == old(self)@.with_edge(from as int, to as int),
            !r ==> final(self)@ == old(self)@,
    {
        if from < self.num_of_vertices && to < self.num_of_vertices && from != to
            && !list_contains(&self.neighbours[from], to) && self.num_of_edges < usize::MAX {
            proof {
                lemma_with_edge_wf(self@, from as int, to as int);
            }
            let ghost before = self@;
            self.neighbours[from].push(to);
            self.neighbours[to].push(from);
            self.num_of_edges = self.num_of_edges + 1;
            proof {
                assert(self@.adj =~~= before.with_edge(from as int, to as int).adj);
                assert(self@.names =~= before.names);
            }
            true
        } else {
            false
        }
    }

    /// Adds the edge between the vertices called `from` and `to`, as
    /// [`Graph::add_edge_idx`] does for their indices; `false` when a name is
    /// unknown.
    pub fn add_edge(&mut self, from: &str, to: &str) -> (r: bool)
        requires
            old(self).wf(),
        ensures
            final(self).wf(),
            match (old(self)@.names.index_of_first(from@), old(self)@.names.index_of_first(to@)) {
                (Some(a), Some(b)) => {
                    &&& r == (a != b && !old(self)@.has_edge(a, b) && old(self)@.edges < usize::MAX)
                    &&& r ==> final(self)@ == old(self)@.with_edge(a, b)
                    &&& !r ==> final(self)@ == old(self)@
                },
                _ => !r && final(self)@ == old(self)@,
            },
    {
        proof {
            self@.names.index_of_first_ensures(from@);
            self@.names.index_of_first_ensures(to@);
        }
        match self.name_to_idx(from) {
            Some(a) => match self.name_to_idx(to) {
                Some(b) => self.add_edge_idx(a, b),
                None => false,
            },
            None => false,
        }
    }

    /// The neighbours of vertex `idx`, or an error when there is no such vertex.
    pub fn neighbours_idx(&self, idx: usize) -> (r: Result<HashSet<usize>, &'static str>)
        requires
            self.wf(),
        ensures
            match r {
                Ok(set) => idx < self@.num_vertices() && set@ == self@.adj[idx as int].to_set(),
                Err(e) => idx >= self@.num_vertices() && e@ == "Index does not exist in the graph."@,
            },
    {
        if idx >= self.num_of_vertices {
            return Err("Index does not exist in the graph.");
        }
        let list = &self.neighbours[idx];
        let mut set: HashSet<usize> = HashSet::new();
        let mut i: usize = 0;
        while i < list.len()
            invariant
                i <= list.len(),
                set@ == list@.subrange(0, i as int).to_set(),
            decreases list.len() - i,
        {
            set.insert(list[i]);
            proof {
                assert(list@.subrange(0, i + 1) =~= list@.subrange(0, i as int).push(list@[i as int]));
                list@.subrange(0, i as int).lemma_push_to_set_commute(list@[i as int]);
            }
            i = i + 1;
        }
        proof {
            assert(list@.subrange(0, i as int) =~= list@);
        }
        Ok(set)
    }

    /// The range of vertex indices, `0..n`.
    pub fn vertices(&self) -> (r: std::ops::Range<usize>)
        requires
            self.wf(),
        ensures
            r.start == 0,
            r.end == self@.num_vertices(),
    {
        0..self.num_of_vertices
    }

    /// Removes vertex `x` and its edges; the vertices above it move down by one.
    fn remove_at(&mut self, x: usize)
        requires
            old(self).wf(),
            x < old(self)@.num_vertices(),
        ensures
            final(self).wf(),
            final(self)@ == old(self)@.without_vertex(x as int),
    {
        proof {
            lemma_without_vertex_wf(self@, x as int);
        }
        let ghost before = self@;
        let d = self.neighbours[x].len();
        self.num_of_edges = self.num_of_edges - d;
        let mut old_lists: Vec<Vec<usize>> = Vec::new();
        std::mem::swap(&mut self.neighbours, &mut old_lists);
        let mut lists: Vec<Vec<usize>> = Vec::new();
        let mut i: usize = 0;
        while i < old_lists.len()
            invariant
                i <= old_lists.len(),
                old_lists@.map_values(|l: Vec<usize>| l@) == before.adj,
                x < old_lists.len(),
                lists.len() == if i <= x { i as int } else { i - 1 },
                forall|j: int| 0 <= j < lists.len() ==> (#[trigger] lists@[j])@ == relabel(
                    before.adj.remove(x as int)[j],
                    x,
                ),
            decreases old_lists.len() - i,
        {
            if i != x {
                let l = relabel_list(&old_lists[i], x);
                proof {
                    assert(old_lists@[i as int]@ == before.adj[i as int]);
                }
                lists.push(l);
            }
            i = i + 1;
        }
        self.neighbours = lists;
        self.idx_to_name_map.remove(x);
        self.num_of_vertices = self.num_of_vertices - 1;
        proof {
            assert(self@.adj =~= before.without_vertex(x as int).adj);
            assert(self@.names =~= before.without_vertex(x as int).names);
        }
    }

    /// Removes the first vertex called `name`, with its edges, and moves the
    /// vertices above it down by one; `false` when there is no such vertex.
    pub fn remove_vertex(&mut self, name: &str) -> (r: bool)
        requires
            old(self).wf(),
        ensures
            final(self).wf(),
            r == old(self)@.names.contains(name@),
            !final(self)@.names.contains(name@),
            match old(self)@.names.index_of_first(name@) {
                Some(i) => final(self)@ == old(self)@.without_vertex(i),
                None => final(self)@ == old(self)@,
            },
    {
        proof {
            self@.names.index_of_first_ensures(name@);
        }
        match self.name_to_idx(name) {
            Some(i) => {
                let ghost before = self@;
                self.remove_at(i);
                proof {
                    if self@.names.contains(name@) {
                        let w = choose|w: int| 0 <= w < self@.names.len() && self@.names[w] == name@;
                        let u = GraphModel::index_before_removal(w, i as int);
                        assert(self@.names[w] == before.names[u]);
                        assert(before.names[i as int] == name@);
                    }
                }
                true
            },
            None => false,
        }
    }

    /// All vertices, ordered by degree (largest first when `desc`), equal
    /// degrees by index.
    fn degree_order(&self, desc: bool) -> (r: Vec<usize>)
        requires
            self.wf(),
        ensures
            r@.len() == self@.num_vertices(),
            forall|i: int| 0 <= i < r@.len() ==> (#[trigger] r@[i]) < self@.num_vertices(),
            forall|i: int, j: int|
                0 <= i < j < r@.len() ==> self@.degree_precedes(desc, #[trigger] r@[i] as int, #[trigger] r@[j] as int),
            forall|v: usize| v < self@.num_vertices() ==> #[trigger] r@.contains(v),
    {
        let ghost g = self@;
        let n = self.num_of_vertices;
        let mut r: Vec<usize> = Vec::new();
        let mut v: usize = 0;
        while v < n
            invariant
                n == g.num_vertices(),
                g == self@,
                self.wf(),
                v <= n,
                r@.len() == v,
                forall|i: int| 0 <= i < r@.len() ==> (#[trigger] r@[i]) < v,
                forall|i: int, j: int|
                    0 <= i < j < r@.len() ==> g.degree_precedes(desc, #[trigger] r@[i] as int, #[trigger] r@[j] as int),
                forall|w: usize| w < v ==> #[trigger] r@.contains(w),
            decreases n - v,
        {
            let dv = self.neighbours[v].len();
            let mut p: usize = 0;
            while p < r.len()
                invariant
                    n == g.num_vertices(),
                    g == self@,
                    self.wf(),
                    v < n,
                    dv == g.degree(v as int),
                    p <= r@.len(),
                    r@.len() == v,
                    forall|i: int| 0 <= i < r@.len() ==> (#[trigger] r@[i]) < v,
                    forall|i: int| 0 <= i < p ==> g.degree_precedes(desc, #[trigger] r@[i] as int, v as int),
                ensures
                    p <= r@.len(),
                    forall|i: int| 0 <= i < p ==> g.degree_precedes(desc, #[trigger] r@[i] as int, v as int),
                    p < r@.len() ==> g.degree_precedes(desc, v as int, r@[p as int] as int),
                decreases r@.len() - p,
            {
                let dp = self.neighbours[r[p]].len();
                let before = if desc { dv > dp } else { dv < dp };
                if before {
                    break;
                }
                p = p + 1;
            }
            let ghost old_r = r@;
            proof {
                if p < old_r.len() {
                    assert(g.degree_precedes(desc, v as int, old_r[p as int] as int));
                }
            }
            r.insert(p, v);
            proof {
                assert(r@ == old_r.insert(p as int, v));
                assert forall|i: int, j: int|
                    0 <= i < j < r@.len() implies g.degree_precedes(desc, #[trigger] r@[i] as int, #[trigger] r@[j] as int) by {
                    if j < p {
                    } else if j == p {
                    } else if i == p {
                        assert(g.degree_precedes(desc, v as int, old_r[p as int] as int));
                        if j - 1 > p {
                            assert(g.degree_precedes(desc, old_r[p as int] as int, old_r[j - 1] as int));
                        }
                    } else if i < p {
                    } else {
                        assert(r@[i] == old_r[i - 1]);
                        assert(r@[j] == old_r[j - 1]);
                    }
                }
                assert forall|w: usize| w < v + 1 implies #[trigger] r@.contains(w) by {
                    if w < v {
                        assert(old_r.contains(w));
                        let k = choose|k: int| 0 <= k < old_r.len() && old_r[k] == w;
                        if k < p {
                            assert(r@[k] == w);
                        } else {
                            assert(r@[k + 1] == w);
                        }
                    } else {
                        assert(r@[p as int] == v);
                    }
                }
            }
            v = v + 1;
        }
        r
    }

    /// The first `s` vertices ordered by degree (largest first when `desc`),
    /// equal degrees by index.
    fn degree_prefix(&self, s: usize, desc: bool) -> (r: Vec<usize>)
        requires
            self.wf(),
            s <= self@.num_vertices(),
        ensures
            self@.is_degree_prefix(desc, r@, s as nat),
    {
        let all = self.degree_order(desc);
        let mut r: Vec<usize> = Vec::new();
        let mut i: usize = 0;
        while i < s
            invariant
                i <= s,
                s <= all@.len(),
                r@ == all@.take(i as int),
            decreases s - i,
        {
            r.push(all[i]);
            proof {
                assert(all@.take(i + 1) =~= all@.take(i as int).push(all@[i as int]));
            }
            i = i + 1;
        }
        proof {
            let g = self@;
            assert forall|v: int, k: int|
                0 <= v < g.num_vertices() && !r@.contains(v as usize) && 0 <= k < s implies #[trigger] g.degree_precedes(desc, r@[k] as int, v) by {
                assert(all@.contains(v as usize));
                let j = choose|j: int| 0 <= j < all@.len() && all@[j] == v as usize;
                if j < s {
                    assert(r@[j] == v as usize);
                }
                assert(r@[k] == all@[k]);
            }
        }
        r
    }

    /// The `s` vertices of largest degree, largest first, equal degrees by index.
    pub fn highest_degree_vertices(&self, s: usize) -> (r: Vec<usize>)
        requires
            self.wf(),
            s <= self@.num_vertices(),
        ensures
            self@.is_degree_prefix(true, r@, s as nat),
    {
        self.degree_prefix(s, true)
    }

    /// The `s` vertices of smallest degree, smallest first, equal degrees by index.
    pub fn lowest_degree_vertices(&self, s: usize) -> (r: Vec<usize>)
        requires
            self.wf(),
            s <= self@.num_vertices(),
        ensures
            self@.is_degree_prefix(false, r@, s as nat),
    {
        self.degree_prefix(s, false)
    }

    /// The complete graph on `num_of_vertices` vertices, vertex `i` named
    /// `vertex_i`, each neighbour list ascending.
    pub fn complete(num_of_vertices: usize) -> (r: Graph)
        requires
            num_of_vertices * (num_of_vertices - 1) / 2 <= usize::MAX,
        ensures
            r.wf(),
            r@ == complete_model(num_of_vertices as nat),
    {
        let n = num_of_vertices;
        let mut neighbours: Vec<Vec<usize>> = Vec::new();
        let mut names: Vec<String> = Vec::new();
        let mut i: usize = 0;
        while i < n
            invariant
                i <= n,
                neighbours.len() == i,
                names.len() == i,
                forall|k: int| 0 <= k < i ==> (#[trigger] neighbours@[k])@ == complete_row(n as nat, k),
                forall|k: int| 0 <= k < i ==> (#[trigger] names@[k])@ == vertex_label(k as nat),
            decreases n - i,
        {
            let mut row: Vec<usize> = Vec::new();
            let mut j: usize = 0;
            while j < n
                invariant
                    i < n,
                    j <= n,
                    row.len() == if j <= i { j as int } else { j - 1 },
                    forall|t: int| 0 <= t < row.len() ==> (#[trigger] row@[t]) == (if t < i { t } else { t + 1 }),
                decreases n - j,
            {
                if j != i {
                    row.push(j);
                }
                j = j + 1;
            }
            proof {
                assert(row@ =~= complete_row(n as nat, i as int));
            }
            neighbours.push(row);
            let name = indexed_name("vertex_", i);
            names.push(name);
            i = i + 1;
        }
        let edges: usize = if n == 0 {
            0
        } else if n % 2 == 0 {
            proof {
                lemma_half_product(n as nat);
            }
            (n / 2) * (n - 1)
        } else {
            proof {
                lemma_half_product(n as nat);
            }
            n * ((n - 1) / 2)
        };
        let r = Graph { num_of_vertices: n, num_of_edges: edges, neighbours, idx_to_name_map: names };
        proof {
            lemma_complete_wf(n as nat);
            assert(r@.adj =~= complete_model(n as nat).adj);
            assert(r@.names =~= complete_model(n as nat).names);
        }
        r
    }

    /// The vertex of least degree, the first of them on a tie.
    fn least_degree_vertex(&self) -> (r: usize)
        requires
            self.wf(),
            self@.num_vertices() > 0,
        ensures
            self@.is_least_degree(r as int),
    {
        let n = self.num_of_vertices;
        let mut best: usize = 0;
        let mut v: usize = 1;
        while v < n
            invariant
                self.wf(),
                n == self@.num_vertices(),
                1 <= v <= n,
                best < v,
                forall|u: int| 0 <= u < v && u != best ==> #[trigger] self@.degree_precedes(false, best as int, u),
            decreases n - v,
        {
            proof {
                assert(self@.adj[v as int] == self.neighbours@[v as int]@);
                assert(self@.adj[best as int] == self.neighbours@[best as int]@);
            }
            let ghost old_best = best;
            if self.neighbours[v].len() < self.neighbours[best].len() {
                best = v;
                proof {
                    assert forall|u: int| 0 <= u < v + 1 && u != best implies #[trigger] self@.degree_precedes(false, best as int, u) by {
                        if u != old_best {
                            assert(self@.degree_precedes(false, old_best as int, u));
                        }
                    }
                }
            }
            v = v + 1;
        }
        best
    }

    /// Removes least-degree vertices, one at a time, until
    /// `edges² > 64 · vertices³` holds or no vertex is left; returns whether
    /// the inequality was reached.
    pub fn reduce_to_dense(&mut self) -> (r: bool)
        requires
            old(self).wf(),
        ensures
            final(self).wf(),
            final(self)@ == old(self)@.trimmed(),
            r == final(self)@.is_dense(),
    {
        loop
            invariant
                self.wf(),
                self@.trimmed() == old(self)@.trimmed(),
            decreases self@.num_vertices(),
        {
            let n = self.num_of_vertices;
            let m = self.num_of_edges;
            let (_, dense) = density_against(m, n);
            if dense {
                return true;
            }
            if n == 0 {
                return false;
            }
            let v = self.least_degree_vertex();
            proof {
                let g = self@;
                let w = choose|w: int| g.is_least_degree(w);
                assert(g.is_least_degree(v as int));
                if w != v as int {
                    assert(g.degree_precedes(false, w, v as int));
                    assert(g.degree_precedes(false, v as int, w));
                }
                lemma_without_vertex_wf(g, v as int);
            }
            self.remove_at(v);
        }
    }

    /// Whether the vertices can be coloured with two colours so that every
    /// edge joins different colours.
    pub fn is_bipartite(&self) -> (r: bool)
        requires
            self.wf(),
        ensures
            r == self@.is_bipartite(),
    {
        let ghost g = self@;
        let n = self.num_of_vertices;
        let mut color: Vec<Color> = Vec::new();
        let mut v: usize = 0;
        while v < n
            invariant
                v <= n,
                color@.len() == v,
                forall|u: int| 0 <= u < v ==> color@[u] == Color::Gray,
            decreases n - v,
        {
            color.push(Color::Gray);
            v = v + 1;
        }
        let mut stack: Vec<usize> = Vec::new();
        let mut idx: usize = 0;
        while idx < n
            invariant
                self.wf(),
                g == self@,
                n == g.num_vertices(),
                idx <= n,
                color@.len() == n,
                stack@.len() == 0,
                forall|u: int| 0 <= u < idx ==> color@[u] != Color::Gray,
                forall|u: int| 0 <= u < n && color@[u] != Color::Gray ==> finished(g, color@, u),
            decreases n - idx,
        {
            if color[idx] == Color::Gray {
                let ghost root = idx as int;
                proof {
                    lemma_count_gray_paint(color@, root, Color::Black);
                }
                color.set(idx, Color::Black);
                stack.push(idx);
                let ghost mut cur: Seq<bool> = Seq::new(n as nat, |u: int| u == root);
                proof {
                    assert(stack@[0] == idx);
                    assert(stack@.contains(idx));
                    assert forall|u: int| 0 <= u < n && color@[u] != Color::Gray implies finished(g, color@, u) || stack@.contains(u as usize) by {
                        if u != root {
                            let old_col = color@.update(root, Color::Gray);
                            assert(finished(g, old_col, u));
                            assert forall|j: int| 0 <= j < g.adj[u].len() implies color@[#[trigger] g.adj[u][j] as int] != Color::Gray && color@[g.adj[u][j] as int] != color@[u] by {
                                assert(old_col[g.adj[u][j] as int] != Color::Gray);
                            }
                        }
                    }
                }
                while stack.len() > 0
                    invariant
                        self.wf(),
                        g == self@,
                        n == g.num_vertices(),
                        idx < n,
                        0 <= root < n,
                        color@.len() == n,
                        cur.len() == n,
                        color@[root] == Color::Black,
                        forall|u: int| 0 <= u < idx ==> color@[u] != Color::Gray,
                        forall|u: int|
                            0 <= u < n && color@[u] != Color::Gray ==> finished(g, color@, u)
                                || stack@.contains(u as usize),
                        forall|t: int|
                            0 <= t < stack@.len() ==> (#[trigger] stack@[t]) < n && cur[stack@[t] as int],
                        forall|u: int|
                            0 <= u < n && #[trigger] cur[u] ==> color@[u] != Color::Gray && tied(
                                g,
                                color@,
                                root,
                                u,
                            ),
                    decreases 2 * count_gray(color@) + stack@.len(),
                {
                    let ghost measure = 2 * count_gray(color@) + stack@.len();
                    let ghost old_stack = stack@;
                    let current = stack.pop().unwrap();
                    let ghost cu = current as int;
                    proof {
                        assert(old_stack[old_stack.len() - 1] == current);
                        assert(cur[cu]);
                        assert forall|u: int| 0 <= u < n && color@[u] != Color::Gray implies finished(g, color@, u) || stack@.contains(u as usize) || u == cu by {
                            if !finished(g, color@, u) {
                                let t = choose|t: int| 0 <= t < old_stack.len() && old_stack[t] == u as usize;
                                if t < old_stack.len() - 1 {
                                    assert(stack@[t] == u as usize);
                                }
                            }
                        }
                    }
                    let list = &self.neighbours[current];
                    let cc = color[current];
                    let mut j: usize = 0;
                    while j < list.len()
                        invariant
                            self.wf(),
                            g == self@,
                            n == g.num_vertices(),
                            idx < n,
                            0 <= root < n,
                            0 <= cu < n,
                            list@ == g.adj[cu],
                            j <= list@.len(),
                            color@.len() == n,
                            cur.len() == n,
                            color@[root] == Color::Black,
                            cc != Color::Gray,
                            color@[cu] == cc,
                            cur[cu],
                            2 * count_gray(color@) + stack@.len() < measure,
                            forall|u: int| 0 <= u < idx ==> color@[u] != Color::Gray,
                            forall|u: int|
                                0 <= u < n && color@[u] != Color::Gray ==> finished(g, color@, u)
                                    || stack@.contains(u as usize) || u == cu,
                            forall|t: int|
                                0 <= t < stack@.len() ==> (#[trigger] stack@[t]) < n && cur[stack@[t] as int],
                            forall|u: int|
                                0 <= u < n && #[trigger] cur[u] ==> color@[u] != Color::Gray && tied(
                                    g,
                                    color@,
                                    root,
                                    u,
                                ),
                            forall|t: int|
                                0 <= t < j ==> color@[#[trigger] list@[t] as int] != Color::Gray && color@[list@[t] as int] != cc,
                        decreases list@.len() - j,
                    {
                        let w = list[j];
                        proof {
                            assert(g.adj[cu][j as int] == w);
                            assert(w < n && w as int != cu);
                        }
                        if color[w] == Color::Gray {
                            let ghost before = color@;
                            let ghost before_stack = stack@;
                            let painted = cc.reverse();
                            proof {
                                lemma_count_gray_paint(before, w as int, painted);
                            }
                            color.set(w, painted);
                            stack.push(w);
                            proof {
                                cur = cur.update(w as int, true);
                                assert(stack@ == before_stack.push(w));
                                assert forall|u: int| 0 <= u < n && color@[u] != Color::Gray implies finished(g, color@, u) || stack@.contains(u as usize) || u == cu by {
                                    if u == w as int {
                                        assert(stack@[stack@.len() - 1] == w);
                                    } else {
                                        assert(before[u] != Color::Gray);
                                        if finished(g, before, u) {
                                            assert forall|k: int| 0 <= k < g.adj[u].len() implies color@[#[trigger] g.adj[u][k] as int] != Color::Gray && color@[g.adj[u][k] as int] != color@[u] by {
                                                assert(before[g.adj[u][k] as int] != Color::Gray);
                                            }
                                        } else if before_stack.contains(u as usize) {
                                            let t = choose|t: int| 0 <= t < before_stack.len() && before_stack[t] == u as usize;
                                            assert(stack@[t] == u as usize);
                                        }
                                    }
                                }
                                assert forall|u: int| 0 <= u < n && #[trigger] cur[u] implies color@[u] != Color::Gray && tied(g, color@, root, u) by {
                                    if u == w as int {
                                        assert forall|c: Seq<bool>| #[trigger] g.is_two_coloring(c) implies c[u] == (c[root] == (color@[u] == color@[root])) by {
                                            assert(g.has_edge(cu, u));
                                            assert(tied(g, before, root, cu));
                                            assert(c[cu] == (c[root] == (before[cu] == before[root])));
                                        }
                                    } else {
                                        assert(tied(g, before, root, u));
                                        assert(before[u] != Color::Gray);
                                        assert forall|c: Seq<bool>| #[trigger] g.is_two_coloring(c) implies c[u] == (c[root] == (color@[u] == color@[root])) by {
                                            assert(c[u] == (c[root] == (before[u] == before[root])));
                                        }
                                    }
                                }
                                assert forall|t: int| 0 <= t < j + 1 implies color@[#[trigger] list@[t] as int] != Color::Gray && color@[list@[t] as int] != cc by {
                                    if t < j {
                                        assert(before[list@[t] as int] != Color::Gray);
                                    }
                                }
                            }
                        } else if color[w] == cc {
                            proof {
                                assert(g.has_edge(cu, w as int));
                                assert(g.has_edge(w as int, cu));
                                if finished(g, color@, w as int) {
                                    let k = choose|k: int| 0 <= k < g.adj[w as int].len() && g.adj[w as int][k] == cu as usize;
                                    assert(color@[g.adj[w as int][k] as int] != color@[w as int]);
                                }
                                assert(stack@.contains(w));
                                let t = choose|t: int| 0 <= t < stack@.len() && stack@[t] == w;
                                assert(cur[stack@[t] as int]);
                                assert(tied(g, color@, root, w as int));
                                assert(tied(g, color@, root, cu));
                                assert forall|c: Seq<bool>| !g.is_two_coloring(c) by {
                                    if g.is_two_coloring(c) {
                                        assert(c[cu] != c[w as int]);
                                    }
                                }
                            }
                            return false;
                        }
                        j = j + 1;
                    }
                    proof {
                        assert(finished(g, color@, cu)) by {
                            assert forall|k: int| 0 <= k < g.adj[cu].len() implies color@[#[trigger] g.adj[cu][k] as int] != Color::Gray && color@[g.adj[cu][k] as int] != color@[cu] by {
                                assert(list@[k] == g.adj[cu][k]);
                            }
                        }
                    }
                }
            }
            idx = idx + 1;
        }
        proof {
            let c = Seq::new(n as nat, |u: int| color@[u] == Color::Black);
            assert forall|u: int, w: int| #[trigger] g.has_edge(u, w) implies c[u] != c[w] by {
                assert(finished(g, color@, u));
                let k = choose|k: int| 0 <= k < g.adj[u].len() && g.adj[u][k] == w as usize;
                assert(color@[g.adj[u][k] as int] != color@[u]);
            }
            assert(g.is_two_coloring(c));
        }
        true
    }

    /// A graph on `num_of_vertices` vertices named `v0`, `v1`, ... with
    /// exactly `num_of_edges` edges. The pairs `a < b` are listed in order and
    /// partly shuffled: step `i` swaps pair `i` with pair
    /// `i + offsets[i] % (pairs - i)`; the first `num_of_edges` pairs become
    /// the edges.
    pub fn with_given_edges(num_of_vertices: usize, num_of_edges: usize, offsets: &Vec<usize>) -> (r:
        Graph)
        requires
            num_of_edges <= num_of_vertices * (num_of_vertices - 1) / 2,
            offsets@.len() == num_of_edges,
        ensures
            r.wf(),
            r@.names == Seq::new(num_of_vertices as nat, |i: int| short_label(i as nat)),
            r@.edges == num_of_edges,
            ({
                let chosen = shuffled_pairs(
                    vertex_pairs(num_of_vertices as nat, num_of_vertices as nat),
                    offsets@,
                    num_of_edges as nat,
                );
                forall|a: int, b: int|
                    #[trigger] r@.has_edge(a, b) <==> exists|t: int|
                        0 <= t < num_of_edges && ((chosen[t].0 == a && chosen[t].1 == b) || (
                        chosen[t].0 == b && chosen[t].1 == a))
            }),
    {
        let n = num_of_vertices;
        let mut names: Vec<String> = Vec::new();
        let mut i: usize = 0;
        while i < n
            invariant
                i <= n,
                names@.len() == i,
                forall|k: int| 0 <= k < i ==> (#[trigger] names@[k])@ == short_label(k as nat),
            decreases n - i,
        {
            names.push(indexed_name("v", i));
            i = i + 1;
        }
        proof {
            lemma_labels_distinct("v"@, n as nat);
            assert(Seq::new(n as nat, |i: int| short_label(i as nat)) =~= Seq::new(n as nat, |i: int| "v"@ + decimal(i as nat)));
            assert(names@.map_values(|s: String| s@) =~= Seq::new(n as nat, |i: int| short_label(i as nat)));
            lemma_first_occurrences_distinct(Seq::new(n as nat, |i: int| short_label(i as nat)));
        }
        let mut graph = Graph::from_names(names);
        let mut pairs = all_pairs(n);
        let total = pairs.len();
        let ghost listed = pairs@;
        let mut i: usize = 0;
        while i < num_of_edges
            invariant
                i <= num_of_edges,
                num_of_edges <= total,
                total == pairs@.len(),
                listed.len() == total,
                pairs@ == shuffled_pairs(listed, offsets@, i as nat),
                offsets@.len() == num_of_edges,
                forall|t: int| 0 <= t < pairs@.len() ==> (#[trigger] pairs@[t]).0 < pairs@[t].1 < n,
                pairs@.no_duplicates(),
            decreases num_of_edges - i,
        {
            let span = total - i;
            let j = i + offsets[i] % span;
            let a = pairs[i];
            let b = pairs[j];
            let ghost before = pairs@;
            pairs.set(i, b);
            pairs.set(j, a);
            proof {
                assert(pairs@ =~= before.update(i as int, before[j as int]).update(j as int, before[i as int]));
                assert forall|s: int, t: int| 0 <= s < pairs@.len() && 0 <= t < pairs@.len() && s != t implies pairs@[s] != pairs@[t] by {
                    let os = if s == i { j as int } else if s == j { i as int } else { s };
                    let ot = if t == i { j as int } else if t == j { i as int } else { t };
                    assert(pairs@[s] == before[os]);
                    assert(pairs@[t] == before[ot]);
                }
                assert forall|t: int| 0 <= t < pairs@.len() implies (#[trigger] pairs@[t]).0 < pairs@[t].1 < n by {
                    let ot = if t == i { j as int } else if t == j { i as int } else { t };
                    assert(pairs@[t] == before[ot]);
                }
            }
            i = i + 1;
        }
        let mut i: usize = 0;
        while i < num_of_edges
            invariant
                graph.wf(),
                pairs@ == shuffled_pairs(listed, offsets@, num_of_edges as nat),
                listed == vertex_pairs(n as nat, n as nat),
                graph@.num_vertices() == n,
                graph@.names == Seq::new(n as nat, |i: int| short_label(i as nat)),
                graph@.edges == i,
                i <= num_of_edges,
                num_of_edges <= pairs@.len(),
                forall|t: int| 0 <= t < pairs@.len() ==> (#[trigger] pairs@[t]).0 < pairs@[t].1 < n,
                pairs@.no_duplicates(),
                forall|x: int, y: int|
                    #[trigger] graph@.has_edge(x, y) <== exists|t: int|
                        0 <= t < i && ((pairs@[t].0 == x && pairs@[t].1 == y) || (pairs@[t].0 == y
                            && pairs@[t].1 == x)),
                forall|x: int, y: int|
                    #[trigger] graph@.has_edge(x, y) ==> exists|t: int|
                        0 <= t < i && ((pairs@[t].0 == x && pairs@[t].1 == y) || (pairs@[t].0 == y
                            && pairs@[t].1 == x)),
            decreases num_of_edges - i,
        {
            let (x, y) = pairs[i];
            proof {
                if graph@.has_edge(x as int, y as int) {
                    let t = choose|t: int| 0 <= t < i && ((pairs@[t].0 == x && pairs@[t].1 == y) || (pairs@[t].0 == y && pairs@[t].1 == x));
                    assert(pairs@[t] == pairs@[i as int]);
                }
                lemma_with_edge_wf(graph@, x as int, y as int);
            }
            let ghost before = graph@;
            let added = graph.add_edge_idx(x, y);
            proof {
                assert(added);
                assert forall|a: int, b: int| #[trigger] graph@.has_edge(a, b) implies exists|t: int|
                    0 <= t < i + 1 && ((pairs@[t].0 == a && pairs@[t].1 == b) || (pairs@[t].0 == b
                        && pairs@[t].1 == a)) by {
                    if before.has_edge(a, b) {
                        let t = choose|t: int| 0 <= t < i && ((pairs@[t].0 == a && pairs@[t].1 == b) || (pairs@[t].0 == b && pairs@[t].1 == a));
                        assert(0 <= t < i + 1);
                    } else {
                        assert(0 <= i < i + 1);
                    }
                }
                assert forall|a: int, b: int| #[trigger] graph@.has_edge(a, b) <== exists|t: int|
                    0 <= t < i + 1 && ((pairs@[t].0 == a && pairs@[t].1 == b) || (pairs@[t].0 == b
                        && pairs@[t].1 == a)) by {
                    if exists|t: int|
                        0 <= t < i + 1 && ((pairs@[t].0 == a && pairs@[t].1 == b) || (pairs@[t].0 == b
                            && pairs@[t].1 == a)) {
                        let t = choose|t: int|
                            0 <= t < i + 1 && ((pairs@[t].0 == a && pairs@[t].1 == b) || (pairs@[t].0 == b
                                && pairs@[t].1 == a));
                        if t < i {
                            assert(before.has_edge(a, b));
                        }
                    }
                }
            }
            i = i + 1;
        }
        graph
    }

    /// The graph on `num_of_vertices` vertices named `vertex_0`, `vertex_1`,
    /// ... whose edges are the pairs `a < b`, listed in order, at whose
    /// position `present` holds `true`.
    pub fn with_edge_choices(num_of_vertices: usize, present: &Vec<bool>) -> (r: Graph)
        requires
            present@.len() == num_of_vertices * (num_of_vertices - 1) / 2,
        ensures
            r.wf(),
            r@.names == Seq::new(num_of_vertices as nat, |i: int| vertex_label(i as nat)),
            ({
                let pairs = vertex_pairs(num_of_vertices as nat, num_of_vertices as nat);
                forall|a: int, b: int|
                    #[trigger] r@.has_edge(a, b) <==> exists|t: int|
                        0 <= t < present@.len() && present@[t] && ((pairs[t].0 == a && pairs[t].1
                            == b) || (pairs[t].0 == b && pairs[t].1 == a))
            }),
    {
        let n = num_of_vertices;
        let mut names: Vec<String> = Vec::new();
        let mut i: usize = 0;
        while i < n
            invariant
                i <= n,
                names@.len() == i,
                forall|k: int| 0 <= k < i ==> (#[trigger] names@[k])@ == vertex_label(k as nat),
            decreases n - i,
        {
            names.push(indexed_name("vertex_", i));
            i = i + 1;
        }
        proof {
            lemma_labels_distinct("vertex_"@, n as nat);
            assert(Seq::new(n as nat, |i: int| vertex_label(i as nat)) =~= Seq::new(n as nat, |i: int| "vertex_"@ + decimal(i as nat)));
            assert(names@.map_values(|s: String| s@) =~= Seq::new(n as nat, |i: int| vertex_label(i as nat)));
            lemma_first_occurrences_distinct(Seq::new(n as nat, |i: int| vertex_label(i as nat)));
        }
        let mut graph = Graph::from_names(names);
        let pairs = all_pairs(n);
        proof {
            assert(pairs@.len() == present@.len());
        }
        let mut t: usize = 0;
        while t < present.len()
            invariant
                graph.wf(),
                graph@.num_vertices() == n,
                graph@.names == Seq::new(n as nat, |i: int| vertex_label(i as nat)),
                graph@.edges <= t,
                t <= present@.len(),
                pairs@.len() == present@.len(),
                pairs@ == vertex_pairs(n as nat, n as nat),
                forall|q: int| 0 <= q < pairs@.len() ==> (#[trigger] pairs@[q]).0 < pairs@[q].1 < n,
                pairs@.no_duplicates(),
                forall|x: int, y: int|
                    #[trigger] graph@.has_edge(x, y) <==> exists|q: int|
                        0 <= q < t && present@[q] && ((pairs@[q].0 == x && pairs@[q].1 == y) || (
                        pairs@[q].0 == y && pairs@[q].1 == x)),
            decreases present@.len() - t,
        {
            if present[t] {
                let (x, y) = pairs[t];
                let ghost before = graph@;
                proof {
                    if graph@.has_edge(x as int, y as int) {
                        let q = choose|q: int|
                            0 <= q < t && present@[q] && ((pairs@[q].0 == x && pairs@[q].1 == y) || (
                            pairs@[q].0 == y && pairs@[q].1 == x));
                        assert(pairs@[q] == pairs@[t as int]);
                    }
                    lemma_with_edge_wf(graph@, x as int, y as int);
                }
                let added = graph.add_edge_idx(x, y);
                proof {
                    assert(added);
                    assert forall|a: int, b: int| #[trigger] graph@.has_edge(a, b) <==> exists|q: int|
                        0 <= q < t + 1 && present@[q] && ((pairs@[q].0 == a && pairs@[q].1 == b) || (
                        pairs@[q].0 == b && pairs@[q].1 == a)) by {
                        if before.has_edge(a, b) {
                            let q = choose|q: int|
                                0 <= q < t && present@[q] && ((pairs@[q].0 == a && pairs@[q].1 == b) || (
                                pairs@[q].0 == b && pairs@[q].1 == a));
                            assert(0 <= q < t + 1);
                        }
                        if exists|q: int|
                            0 <= q < t + 1 && present@[q] && ((pairs@[q].0 == a && pairs@[q].1 == b) || (
                            pairs@[q].0 == b && pairs@[q].1 == a)) {
                            let q = choose|q: int|
                                0 <= q < t + 1 && present@[q] && ((pairs@[q].0 == a && pairs@[q].1 == b) || (
                                pairs@[q].0 == b && pairs@[q].1 == a));
                            if q < t {
                                assert(before.has_edge(a, b));
                            }
                        }
                    }
                }
            } else {
                proof {
                    assert forall|a: int, b: int| #[trigger] graph@.has_edge(a, b) <==> exists|q: int|
                        0 <= q < t + 1 && present@[q] && ((pairs@[q].0 == a && pairs@[q].1 == b) || (
                        pairs@[q].0 == b && pairs@[q].1 == a)) by {
                        if exists|q: int|
                            0 <= q < t + 1 && present@[q] && ((pairs@[q].0 == a && pairs@[q].1 == b) || (
                            pairs@[q].0 == b && pairs@[q].1 == a)) {
                            let q = choose|q: int|
                                0 <= q < t + 1 && present@[q] && ((pairs@[q].0 == a && pairs@[q].1 == b) || (
                                pairs@[q].0 == b && pairs@[q].1 == a));
                            assert(q < t);
                        }
                    }
                }
            }
            t = t + 1;
        }
        graph
    }

    /// A random graph on `num_of_vertices` vertices named `v0`, `v1`, ... with
    /// exactly `num_of_edges` edges, each set of that many edges about equally
    /// likely.
    pub fn random_given_edges(num_of_vertices: usize, num_of_edges: usize) -> (r: Graph)
        requires
            num_of_edges <= num_of_vertices * (num_of_vertices - 1) / 2,
            num_of_vertices * (num_of_vertices - 1) / 2 <= usize::MAX,
        ensures
            r.wf(),
            r@.names == Seq::new(num_of_vertices as nat, |i: int| short_label(i as nat)),
            r@.edges == num_of_edges,
            exists|offsets: Seq<usize>|
                #![trigger shuffled_pairs(
                    vertex_pairs(num_of_vertices as nat, num_of_vertices as nat),
                    offsets,
                    num_of_edges as nat,
                )]
                offsets.len() == num_of_edges && (forall|i: int|
                    0 <= i < num_of_edges ==> #[trigger] offsets[i] < num_of_vertices * (
                    num_of_vertices - 1) / 2 - i) && ({
                    let chosen = shuffled_pairs(
                        vertex_pairs(num_of_vertices as nat, num_of_vertices as nat),
                        offsets,
                        num_of_edges as nat,
                    );
                    forall|a: int, b: int|
                        #[trigger] r@.has_edge(a, b) <==> exists|t: int|
                            0 <= t < num_of_edges && ((chosen[t].0 == a && chosen[t].1 == b) || (
                            chosen[t].0 == b && chosen[t].1 == a))
                }),
    {
        let n = num_of_vertices;
        let total: usize = if n == 0 {
            0
        } else if n % 2 == 0 {
            proof {
                lemma_half_product(n as nat);
            }
            (n / 2) * (n - 1)
        } else {
            proof {
                lemma_half_product(n as nat);
            }
            n * ((n - 1) / 2)
        };
        let mut offsets: Vec<usize> = Vec::new();
        let mut i: usize = 0;
        while i < num_of_edges
            invariant
                i <= num_of_edges,
                num_of_edges <= total,
                total == n * (n - 1) / 2,
                offsets@.len() == i,
                forall|q: int| 0 <= q < i ==> #[trigger] offsets@[q] < total - q,
            decreases num_of_edges - i,
        {
            offsets.push(random_index(0, total - i));
            i = i + 1;
        }
        let r = Graph::with_given_edges(n, num_of_edges, &offsets);
        proof {
            assert(shuffled_pairs(vertex_pairs(n as nat, n as nat), offsets@, num_of_edges as nat)
                == shuffled_pairs(vertex_pairs(n as nat, n as nat), offsets@, num_of_edges as nat));
        }
        r
    }

    /// The names of the vertices, by index.
    pub fn names(&self) -> (r: Vec<String>)
        requires
            self.wf(),
        ensures
            r@.map_values(|s: String| s@) == self@.names,
    {
        let mut r: Vec<String> = Vec::new();
        let mut i: usize = 0;
        while i < self.idx_to_name_map.len()
            invariant
                i <= self.idx_to_name_map@.len(),
                r@.len() == i,
                forall|k: int| 0 <= k < i ==> (#[trigger] r@[k])@ == self.idx_to_name_map@[k]@,
            decreases self.idx_to_name_map@.len() - i,
        {
            r.push(self.idx_to_name_map[i].clone());
            i = i + 1;
        }
        proof {
            assert(r@.map_values(|s: String| s@) =~= self@.names);
        }
        r
    }

    /// The neighbour lists, by index.
    pub fn neighbour_lists(&self) -> (r: Vec<Vec<usize>>)
        requires
            self.wf(),
        ensures
            r@.map_values(|l: Vec<usize>| l@) == self@.adj,
    {
        let mut r: Vec<Vec<usize>> = Vec::new();
        let mut i: usize = 0;
        while i < self.neighbours.len()
            invariant
                i <= self.neighbours@.len(),
                r@.len() == i,
                forall|k: int| 0 <= k < i ==> (#[trigger] r@[k])@ == self.neighbours@[k]@,
            decreases self.neighbours@.len() - i,
        {
            let list = &self.neighbours[i];
            let mut copy: Vec<usize> = Vec::new();
            let mut j: usize = 0;
            while j < list.len()
                invariant
                    j <= list@.len(),
                    copy@ == list@.take(j as int),
                decreases list@.len() - j,
            {
                copy.push(list[j]);
                proof {
                    assert(list@.take(j + 1) =~= list@.take(j as int).push(list@[j as int]));
                }
                j = j + 1;
            }
            proof {
                assert(list@.take(j as int) =~= list@);
            }
            r.push(copy);
            i = i + 1;
        }
        proof {
            assert(r@.map_values(|l: Vec<usize>| l@) =~= self@.adj);
        }
        r
    }

    /// The graph that the stored parts describe: `None` unless the vertex
    /// count matches both lists and the parts form a well-formed graph (names
    /// unique, neighbour lists valid and symmetric, edge count half the degree
    /// sum).
    pub fn from_parts(
        num_of_vertices: usize,
        num_of_edges: usize,
        neighbours: Vec<Vec<usize>>,
        names: Vec<String>,
    ) -> (r: Option<Graph>)
        ensures
            ({
                let m = GraphModel {
                    names: names@.map_values(|s: String| s@),
                    adj: neighbours@.map_values(|l: Vec<usize>| l@),
                    edges: num_of_edges as nat,
                };
                match r {
                    Some(g) => g.wf() && g@ == m && num_of_vertices == m.num_vertices(),
                    None => !(m.wf() && num_of_vertices == m.num_vertices()),
                }
            }),
    {
        let ghost m = GraphModel {
            names: names@.map_values(|s: String| s@),
            adj: neighbours@.map_values(|l: Vec<usize>| l@),
            edges: num_of_edges as nat,
        };
        let n = neighbours.len();
        if num_of_vertices != n || names.len() != n || !names_distinct(&names) {
            return None;
        }
        let mut u: usize = 0;
        while u < n
            invariant
                n == neighbours@.len(),
                m == (GraphModel {
                    names: names@.map_values(|s: String| s@),
                    adj: neighbours@.map_values(|l: Vec<usize>| l@),
                    edges: num_of_edges as nat,
                }),
                u <= n,
                forall|a: int| 0 <= a < u ==> (#[trigger] m.adj[a]).no_duplicates(),
                forall|a: int, j: int|
                    0 <= a < u && 0 <= j < m.adj[a].len() ==> (#[trigger] m.adj[a][j]) < n
                        && m.adj[a][j] as int != a,
            decreases n - u,
        {
            if !list_ok(&neighbours[u], u, n) {
                proof {
                    assert(m.adj[u as int] == neighbours@[u as int]@);
                }
                return None;
            }
            proof {
                assert(m.adj[u as int] == neighbours@[u as int]@);
            }
            u = u + 1;
        }
        let mut u: usize = 0;
        while u < n
            invariant
                n == neighbours@.len(),
                m == (GraphModel {
                    names: names@.map_values(|s: String| s@),
                    adj: neighbours@.map_values(|l: Vec<usize>| l@),
                    edges: num_of_edges as nat,
                }),
                u <= n,
                forall|a: int, j: int|
                    0 <= a < n && 0 <= j < m.adj[a].len() ==> (#[trigger] m.adj[a][j]) < n
                        && m.adj[a][j] as int != a,
                forall|a: int, j: int|
                    0 <= a < u && 0 <= j < m.adj[a].len() ==> m.adj[#[trigger] m.adj[a][j] as int].contains(
                        a as usize,
                    ),
            decreases n - u,
        {
            let list = &neighbours[u];
            proof {
                assert(m.adj[u as int] == list@);
            }
            let mut j: usize = 0;
            while j < list.len()
                invariant
                    n == neighbours@.len(),
                    m == (GraphModel {
                        names: names@.map_values(|s: String| s@),
                        adj: neighbours@.map_values(|l: Vec<usize>| l@),
                        edges: num_of_edges as nat,
                    }),
                    u < n,
                    m.adj[u as int] == list@,
                    j <= list@.len(),
                    forall|a: int, j: int|
                        0 <= a < n && 0 <= j < m.adj[a].len() ==> (#[trigger] m.adj[a][j]) < n
                            && m.adj[a][j] as int != a,
                    forall|t: int|
                        0 <= t < j ==> m.adj[#[trigger] list@[t] as int].contains(u),
                decreases list@.len() - j,
            {
                let v = list[j];
                proof {
                    assert(m.adj[u as int][j as int] == v);
                    assert(m.adj[v as int] == neighbours@[v as int]@);
                }
                if !list_contains(&neighbours[v], u) {
                    proof {
                        assert(list@.contains(v));
                        assert(m.has_edge(u as int, v as int));
                        assert(!m.has_edge(v as int, u as int));
                        assert(!m.wf());
                    }
                    return None;
                }
                j = j + 1;
            }
            proof {
                assert forall|a: int, t: int|
                    0 <= a < u + 1 && 0 <= t < m.adj[a].len() implies m.adj[#[trigger] m.adj[a][t] as int].contains(
                        a as usize,
                    ) by {
                    if a == u {
                        assert(list@[t] == m.adj[a][t]);
                    }
                }
            }
            u = u + 1;
        }
        let mut total: u128 = 0;
        let mut u: usize = 0;
        while u < n
            invariant
                n == neighbours@.len(),
                m == (GraphModel {
                    names: names@.map_values(|s: String| s@),
                    adj: neighbours@.map_values(|l: Vec<usize>| l@),
                    edges: num_of_edges as nat,
                }),
                u <= n,
                total == degree_sum(m.adj.take(u as int)),
                total <= u * 0xffff_ffff_ffff_ffffu128,
            decreases n - u,
        {
            proof {
                assert(m.adj.take(u + 1).drop_last() =~= m.adj.take(u as int));
                assert(m.adj[u as int] == neighbours@[u as int]@);
            }
            let len = neighbours[u].len();
            assert(total + len <= (u + 1) * 0xffff_ffff_ffff_ffffu128) by (nonlinear_arith)
                requires
                    total <= u * 0xffff_ffff_ffff_ffffu128,
                    len <= 0xffff_ffff_ffff_ffffu128,
            ;
            assert((u + 1) * 0xffff_ffff_ffff_ffffu128 <= 0x1_0000_0000_0000_0000u128 * 0xffff_ffff_ffff_ffffu128) by (nonlinear_arith)
                requires
                    u + 1 <= 0x1_0000_0000_0000_0000u128,
            ;
            total = total + len as u128;
            u = u + 1;
        }
        proof {
            assert(m.adj.take(n as int) =~= m.adj);
        }
        if total != 2 * (num_of_edges as u128) {
            return None;
        }
        let g = Graph {
            num_of_vertices: n,
            num_of_edges,
            neighbours,
            idx_to_name_map: names,
        };
        proof {
            assert forall|a: int, b: int| #[trigger] m.has_edge(a, b) implies m.has_edge(b, a) by {
                let j = choose|j: int| 0 <= j < m.adj[a].len() && m.adj[a][j] == b as usize;
                assert(m.adj[m.adj[a][j] as int].contains(a as usize));
            }
            assert(g@ == m);
        }
        Some(g)
    }

    /// Whether the graph has an edge and `edges² < 64 · vertices³`.
    pub fn is_sparse(&self) -> (r: bool)
        requires
            self.wf(),
        ensures
            r == self@.is_sparse(),
    {
        let (below, _) = density_against(self.num_of_edges, self.num_of_vertices);
        0 < self.num_of_edges && below
    }

    /// The neighbour list of vertex `v`, in the order the edges were added.
    pub(crate) fn neighbour_list(&self, v: usize) -> (r: &Vec<usize>)
        requires
            self.wf(),
            v < self@.num_vertices(),
        ensures
            r@ == self@.adj[v as int],
    {
        &self.neighbours[v]
    }
}

} // verus!
