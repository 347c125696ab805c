use vstd::prelude::*;
use std::collections::HashSet;
use crate::combinatorics::{count_true, revolving_door, GraySubsets};
use crate::graphs::{Graph, GraphModel};

verus! {

/// How many of the first `upto` pool positions are chosen and hold a
/// neighbour of `v`.
pub open spec fn chosen_adjacent(
    g: GraphModel,
    pool: Seq<usize>,
    chosen: Seq<bool>,
    v: usize,
    upto: nat,
) -> nat
    decreases upto,
{
    if upto == 0 {
        0
    } else {
        let p = upto - 1;
        chosen_adjacent(g, pool, chosen, v, (upto - 1) as nat) + if chosen[p]
            && g.adj[pool[p] as int].contains(v) {
            1nat
        } else {
            0nat
        }
    }
}

/// How many chosen pool vertices `v` is adjacent to.
pub open spec fn adjacent_count(g: GraphModel, pool: Seq<usize>, chosen: Seq<bool>, v: usize) -> nat {
    chosen_adjacent(g, pool, chosen, v, pool.len())
}

/// `v` lies outside the pool and is adjacent to `k` chosen pool vertices.
pub open spec fn qualifies(
    g: GraphModel,
    pool: Seq<usize>,
    chosen: Seq<bool>,
    k: nat,
    v: usize,
) -> bool {
    adjacent_count(g, pool, chosen, v) == k && !pool.contains(v)
}

/// How many vertices below `upto` qualify.
pub open spec fn num_qualifying(
    g: GraphModel,
    pool: Seq<usize>,
    chosen: Seq<bool>,
    k: nat,
    upto: nat,
) -> nat
    decreases upto,
{
    if upto == 0 {
        0
    } else {
        num_qualifying(g, pool, chosen, k, (upto - 1) as nat) + if qualifies(
            g,
            pool,
            chosen,
            k,
            (upto - 1) as usize,
        ) {
            1nat
        } else {
            0nat
        }
    }
}

/// At least as many vertices qualify as the pool has vertices.
pub open spec fn satisfied(g: GraphModel, pool: Seq<usize>, chosen: Seq<bool>, k: nat) -> bool {
    num_qualifying(g, pool, chosen, k, g.num_vertices()) >= pool.len()
}

/// The first `k` qualifying vertices, by index.
pub open spec fn other_side(g: GraphModel, pool: Seq<usize>, chosen: Seq<bool>, k: nat) -> Set<
    usize,
> {
    Set::new(
        |v: usize|
            v < g.num_vertices() && qualifies(g, pool, chosen, k, v) && num_qualifying(
                g,
                pool,
                chosen,
                k,
                v as nat,
            ) < k,
    )
}

/// The pool vertices at chosen positions.
pub open spec fn chosen_side(pool: Seq<usize>, chosen: Seq<bool>) -> Set<usize> {
    Set::new(|v: usize| exists|p: int| 0 <= p < pool.len() && chosen[p] && pool[p] == v)
}

/// The first subset of the walk: the first `k` pool positions.
pub open spec fn first_choice(s: nat, k: nat) -> Seq<bool> {
    Seq::new(s, |p: int| p < k)
}

/// What the search returns from the pool `pool`: the pair of the first
/// subset of the revolving-door walk over `k`-subsets of pool positions that
/// is satisfied, or two empty sets when none is.
pub open spec fn search_outcome(
    g: GraphModel,
    pool: Seq<usize>,
    k: nat,
    r: (Set<usize>, Set<usize>),
) -> bool {
    let walk = revolving_door(pool.len(), k);
    if exists|j: int| 0 <= j < walk.len() && #[trigger] satisfied(g, pool, walk[j], k) {
        exists|j: int|
            0 <= j < walk.len() && #[trigger] satisfied(g, pool, walk[j], k) && (forall|i: int|
                0 <= i < j ==> !satisfied(g, pool, #[trigger] walk[i], k)) && r == (
                chosen_side(pool, walk[j]),
                other_side(g, pool, walk[j], k),
            )
    } else {
        r == (Set::<usize>::empty(), Set::<usize>::empty())
    }
}

proof fn lemma_chosen_adjacent_bound(
    g: GraphModel,
    pool: Seq<usize>,
    chosen: Seq<bool>,
    v: usize,
    upto: nat,
)
    ensures
        chosen_adjacent(g, pool, chosen, v, upto) <= upto,
    decreases upto,
{
    if upto > 0 {
        lemma_chosen_adjacent_bound(g, pool, chosen, v, (upto - 1) as nat);
    }
}

/// Moving the choice at pool position `a` to `x` changes the count of every
/// vertex `v` by whether the vertex at `a` is adjacent to `v`: the counts kept
/// step by step equal the counts recomputed from scratch.
pub proof fn lemma_chosen_adjacent_update(
    g: GraphModel,
    pool: Seq<usize>,
    chosen: Seq<bool>,
    v: usize,
    upto: nat,
    a: int,
    x: bool,
)
    requires
        0 <= a < upto <= chosen.len(),
    ensures
        chosen_adjacent(g, pool, chosen.update(a, x), v, upto) + (if chosen[a] && g.adj[pool[a] as int].contains(v) {
            1int
        } else {
            0int
        }) == chosen_adjacent(g, pool, chosen, v, upto) + (if x && g.adj[pool[a] as int].contains(v) {
            1int
        } else {
            0int
        }),
    decreases upto,
{
    if upto - 1 > a {
        lemma_chosen_adjacent_update(g, pool, chosen, v, (upto - 1) as nat, a, x);
    } else {
        lemma_chosen_adjacent_same(g, pool, chosen, chosen.update(a, x), v, (upto - 1) as nat);
    }
}

proof fn lemma_chosen_adjacent_same(
    g: GraphModel,
    pool: Seq<usize>,
    c1: Seq<bool>,
    c2: Seq<bool>,
    v: usize,
    upto: nat,
)
    requires
        upto <= c1.len(),
        upto <= c2.len(),
        forall|p: int| 0 <= p < upto ==> c1[p] == c2[p],
    ensures
        chosen_adjacent(g, pool, c1, v, upto) == chosen_adjacent(g, pool, c2, v, upto),
    decreases upto,
{
    if upto > 0 {
        lemma_chosen_adjacent_same(g, pool, c1, c2, v, (upto - 1) as nat);
    }
}

/// Beyond the chosen positions nothing more is counted.
proof fn lemma_chosen_adjacent_tail(
    g: GraphModel,
    pool: Seq<usize>,
    chosen: Seq<bool>,
    v: usize,
    k: nat,
    upto: nat,
)
    requires
        k <= upto <= chosen.len(),
        forall|p: int| k <= p < upto ==> !chosen[p],
    ensures
        chosen_adjacent(g, pool, chosen, v, upto) == chosen_adjacent(g, pool, chosen, v, k),
    decreases upto,
{
    if upto > k {
        lemma_chosen_adjacent_tail(g, pool, chosen, v, k, (upto - 1) as nat);
    }
}

/// Adds one to (when `up`) or takes one from every count at an entry of
/// `list`.
fn shift_counts(counts: &mut Vec<usize>, list: &Vec<usize>, up: bool)
    requires
        list@.no_duplicates(),
        forall|j: int| 0 <= j < list@.len() ==> (#[trigger] list@[j]) < old(counts)@.len(),
        forall|j: int|
            0 <= j < list@.len() ==> if up {
                old(counts)@[#[trigger] list@[j] as int] < usize::MAX
            } else {
                old(counts)@[#[trigger] list@[j] as int] >= 1
            },
    ensures
        final(counts)@.len() == old(counts)@.len(),
        forall|v: usize|
            v < old(counts)@.len() ==> #[trigger] final(counts)@[v as int] == if !list@.contains(v) {
                old(counts)@[v as int] as int
            } else if up {
                old(counts)@[v as int] + 1
            } else {
                old(counts)@[v as int] - 1
            },
{
    let ghost start = counts@;
    let mut i: usize = 0;
    while i < list.len()
        invariant
            i <= list@.len(),
            list@.no_duplicates(),
            counts@.len() == start.len(),
            forall|j: int| 0 <= j < list@.len() ==> (#[trigger] list@[j]) < start.len(),
            forall|j: int|
                0 <= j < list@.len() ==> if up {
                    start[#[trigger] list@[j] as int] < usize::MAX
                } else {
                    start[#[trigger] list@[j] as int] >= 1
                },
            forall|v: usize|
                v < start.len() ==> #[trigger] counts@[v as int] == if !list@.take(i as int).contains(v) {
                    start[v as int] as int
                } else if up {
                    start[v as int] + 1
                } else {
                    start[v as int] - 1
                },
        decreases list@.len() - i,
    {
        let w = list[i];
        proof {
            assert(!list@.take(i as int).contains(w)) by {
                if list@.take(i as int).contains(w) {
                    let j = choose|j: int| 0 <= j < i && list@.take(i as int)[j] == w;
                    assert(list@[j] == list@[i as int]);
                }
            }
            assert(counts@[w as int] == start[w as int]);
        }
        let c = counts[w];
        if up {
            counts.set(w, c + 1);
        } else {
            counts.set(w, c - 1);
        }
        proof {
            assert(list@.take(i + 1) =~= list@.take(i as int).push(w));
            assert forall|v: usize| v < start.len() implies #[trigger] list@.take(i + 1).contains(v)
                == (list@.take(i as int).contains(v) || v == w) by {
                vstd::seq_lib::lemma_seq_contains_after_push(list@.take(i as int), w, v);
            }
        }
        i = i + 1;
    }
    proof {
        assert(list@.take(i as int) =~= list@);
    }
}

/// For a pool of vertices and a `k`-subset of its positions, the number of
/// chosen pool vertices each vertex of the graph is adjacent to.
struct CountArray {
    highest_degree_vec: Vec<usize>,
    highest_degree_set: HashSet<usize>,
    highest_degree_count: usize,
    subgraph_size: usize,
    count_array: Vec<usize>,
    chosen: Ghost<Seq<bool>>,
}

impl CountArray {
    /// The counts are those of the chosen positions in the graph `g`.
    spec fn wf(&self, g: GraphModel) -> bool {
        &&& g.wf()
        &&& self.highest_degree_count == self.highest_degree_vec@.len()
        &&& forall|p: int|
            0 <= p < self.highest_degree_vec@.len() ==> (#[trigger] self.highest_degree_vec@[p])
                < g.num_vertices()
        &&& self.highest_degree_set@ == self.highest_degree_vec@.to_set()
        &&& self.chosen@.len() == self.highest_degree_vec@.len()
        &&& count_true(self.chosen@) == self.subgraph_size
        &&& self.count_array@.len() == g.num_vertices()
        &&& forall|v: int|
            0 <= v < g.num_vertices() ==> #[trigger] self.count_array@[v] == adjacent_count(
                g,
                self.highest_degree_vec@,
                self.chosen@,
                v as usize,
            )
    }

    /// Counts for the first `subgraph_size` positions of the pool.
    fn new(highest_degree_vec: &Vec<usize>, subgraph_size: usize, g: &Graph) -> (r: CountArray)
        requires
            g.wf(),
            subgraph_size <= highest_degree_vec@.len(),
            forall|p: int|
                0 <= p < highest_degree_vec@.len() ==> (#[trigger] highest_degree_vec@[p])
                    < g@.num_vertices(),
        ensures
            r.wf(g@),
            r.highest_degree_vec@ == highest_degree_vec@,
            r.subgraph_size == subgraph_size,
            r.chosen@ == first_choice(highest_degree_vec@.len(), subgraph_size as nat),
    {
        let n = g.get_num_of_vertices();
        let ghost pool = highest_degree_vec@;
        let ghost first = first_choice(pool.len(), subgraph_size as nat);
        let mut count_array: Vec<usize> = Vec::new();
        let mut v: usize = 0;
        while v < n
            invariant
                v <= n,
                count_array@.len() == v,
                forall|u: int| 0 <= u < v ==> #[trigger] count_array@[u] == 0,
            decreases n - v,
        {
            count_array.push(0);
            v = v + 1;
        }
        let mut i: usize = 0;
        while i < subgraph_size
            invariant
                g.wf(),
                n == g@.num_vertices(),
                pool == highest_degree_vec@,
                first == first_choice(pool.len(), subgraph_size as nat),
                i <= subgraph_size,
                subgraph_size <= pool.len(),
                forall|p: int| 0 <= p < pool.len() ==> (#[trigger] pool[p]) < n,
                count_array@.len() == n,
                forall|u: int|
                    0 <= u < n ==> #[trigger] count_array@[u] == chosen_adjacent(
                        g@,
                        pool,
                        first,
                        u as usize,
                        i as nat,
                    ),
            decreases subgraph_size - i,
        {
            let list = g.neighbour_list(highest_degree_vec[i]);
            proof {
                let x = pool[i as int] as int;
                assert(g@.adj[x].no_duplicates());
                assert forall|j: int| 0 <= j < list@.len() implies (#[trigger] list@[j]) < count_array@.len() by {
                    assert(g@.adj[x][j] < n);
                }
                assert forall|j: int| 0 <= j < list@.len() implies count_array@[#[trigger] list@[j] as int] < usize::MAX by {
                    assert(g@.adj[x][j] < n);
                    lemma_chosen_adjacent_bound(g@, pool, first, list@[j], i as nat);
                }
            }
            shift_counts(&mut count_array, list, true);
            i = i + 1;
        }
        proof {
            assert forall|u: int| 0 <= u < n implies #[trigger] count_array@[u] == adjacent_count(
                g@,
                pool,
                first,
                u as usize,
            ) by {
                lemma_chosen_adjacent_tail(g@, pool, first, u as usize, subgraph_size as nat, pool.len());
            }
            crate::combinatorics::lemma_count_true_prefix(pool.len(), subgraph_size as nat);
        }
        let mut highest_degree_set: HashSet<usize> = HashSet::new();
        let mut p: usize = 0;
        while p < highest_degree_vec.len()
            invariant
                p <= highest_degree_vec@.len(),
                highest_degree_set@ == highest_degree_vec@.take(p as int).to_set(),
            decreases highest_degree_vec@.len() - p,
        {
            highest_degree_set.insert(highest_degree_vec[p]);
            proof {
                assert(highest_degree_vec@.take(p + 1) =~= highest_degree_vec@.take(p as int).push(
                    highest_degree_vec@[p as int],
                ));
                highest_degree_vec@.take(p as int).lemma_push_to_set_commute(highest_degree_vec@[p as int]);
            }
            p = p + 1;
        }
        proof {
            assert(highest_degree_vec@.take(p as int) =~= highest_degree_vec@);
        }
        CountArray {
            highest_degree_vec: highest_degree_vec.clone(),
            highest_degree_set,
            highest_degree_count: highest_degree_vec.len(),
            subgraph_size,
            count_array,
            chosen: Ghost(first),
        }
    }

    /// Moves the choice from position `change_0` to position `change_1`.
    fn two_bit_change(&mut self, g: &Graph, change_0: usize, change_1: usize)
        requires
            g.wf(),
            old(self).wf(g@),
            change_0 < old(self).highest_degree_vec@.len(),
            change_1 < old(self).highest_degree_vec@.len(),
            old(self).chosen@[change_0 as int],
            !old(self).chosen@[change_1 as int],
        ensures
            final(self).wf(g@),
            final(self).highest_degree_vec@ == old(self).highest_degree_vec@,
            final(self).subgraph_size == old(self).subgraph_size,
            final(self).chosen@ == old(self).chosen@.update(change_0 as int, false).update(
                change_1 as int,
                true,
            ),
    {
        let ghost pool = self.highest_degree_vec@;
        let ghost c0 = self.chosen@;
        let ghost c1 = c0.update(change_0 as int, false);
        let ghost c2 = c1.update(change_1 as int, true);
        let n = g.get_num_of_vertices();
        let list0 = g.neighbour_list(self.highest_degree_vec[change_0]);
        proof {
            let x = pool[change_0 as int] as int;
            assert(g@.adj[x].no_duplicates());
            assert forall|j: int| 0 <= j < list0@.len() implies (#[trigger] list0@[j]) < self.count_array@.len() by {
                assert(g@.adj[x][j] < n);
            }
            assert forall|j: int| 0 <= j < list0@.len() implies self.count_array@[#[trigger] list0@[j] as int] >= 1 by {
                assert(g@.adj[x][j] < n);
                assert(list0@.contains(list0@[j]));
                lemma_chosen_adjacent_update(g@, pool, c0, list0@[j], pool.len(), change_0 as int, false);
            }
        }
        shift_counts(&mut self.count_array, list0, false);
        proof {
            assert forall|v: int| 0 <= v < n implies #[trigger] self.count_array@[v] == adjacent_count(
                g@,
                pool,
                c1,
                v as usize,
            ) by {
                lemma_chosen_adjacent_update(g@, pool, c0, v as usize, pool.len(), change_0 as int, false);
            }
        }
        let list1 = g.neighbour_list(self.highest_degree_vec[change_1]);
        proof {
            let x = pool[change_1 as int] as int;
            assert(g@.adj[x].no_duplicates());
            assert forall|j: int| 0 <= j < list1@.len() implies (#[trigger] list1@[j]) < self.count_array@.len() by {
                assert(g@.adj[x][j] < n);
            }
            assert forall|j: int| 0 <= j < list1@.len() implies self.count_array@[#[trigger] list1@[j] as int] < usize::MAX by {
                assert(g@.adj[x][j] < n);
                assert(list1@.contains(list1@[j]));
                lemma_chosen_adjacent_update(g@, pool, c1, list1@[j], pool.len(), change_1 as int, true);
                lemma_chosen_adjacent_bound(g@, pool, c2, list1@[j], pool.len());
            }
        }
        shift_counts(&mut self.count_array, list1, true);
        self.chosen = Ghost(c2);
        proof {
            assert forall|v: int| 0 <= v < n implies #[trigger] self.count_array@[v] == adjacent_count(
                g@,
                pool,
                c2,
                v as usize,
            ) by {
                lemma_chosen_adjacent_update(g@, pool, c1, v as usize, pool.len(), change_1 as int, true);
            }
            crate::combinatorics::lemma_count_true_update(c0, change_0 as int, false);
            crate::combinatorics::lemma_count_true_update(c1, change_1 as int, true);
        }
    }

    /// Whether `v` lies outside the pool and is adjacent to every chosen
    /// pool vertex.
    fn qualifies_at(&self, v: usize, Ghost(g): Ghost<GraphModel>) -> (r: bool)
        requires
            self.wf(g),
            v < g.num_vertices(),
        ensures
            r == qualifies(g, self.highest_degree_vec@, self.chosen@, self.subgraph_size as nat, v),
    {
        proof {
            assert(self.highest_degree_vec@.to_set().contains(v) == self.highest_degree_vec@.contains(v));
        }
        self.count_array[v] == self.subgraph_size && !self.highest_degree_set.contains(&v)
    }

    /// Whether at least as many vertices qualify as the pool has vertices.
    fn is_ok(&self, Ghost(g): Ghost<GraphModel>) -> (r: bool)
        requires
            self.wf(g),
        ensures
            r == satisfied(g, self.highest_degree_vec@, self.chosen@, self.subgraph_size as nat),
    {
        let n = self.count_array.len();
        let mut count: usize = 0;
        let mut v: usize = 0;
        while v < n
            invariant
                self.wf(g),
                n == g.num_vertices(),
                v <= n,
                count == num_qualifying(g, self.highest_degree_vec@, self.chosen@, self.subgraph_size as nat, v as nat),
                count <= v,
            decreases n - v,
        {
            if self.qualifies_at(v, Ghost(g)) {
                count = count + 1;
            }
            v = v + 1;
        }
        count >= self.highest_degree_count
    }

    /// The first `subgraph_size` qualifying vertices, by index.
    fn d_solution(&self, Ghost(g): Ghost<GraphModel>) -> (r: HashSet<usize>)
        requires
            self.wf(g),
        ensures
            r@ == other_side(g, self.highest_degree_vec@, self.chosen@, self.subgraph_size as nat),
    {
        let ghost pool = self.highest_degree_vec@;
        let ghost k = self.subgraph_size as nat;
        let n = self.count_array.len();
        let mut r: HashSet<usize> = HashSet::new();
        let mut taken: usize = 0;
        let mut v: usize = 0;
        while v < n
            invariant
                self.wf(g),
                pool == self.highest_degree_vec@,
                k == self.subgraph_size,
                n == g.num_vertices(),
                v <= n,
                taken == if num_qualifying(g, pool, self.chosen@, k, v as nat) < k {
                    num_qualifying(g, pool, self.chosen@, k, v as nat)
                } else {
                    k
                },
                r@ == Set::new(
                    |u: usize|
                        u < v && qualifies(g, pool, self.chosen@, k, u) && num_qualifying(
                            g,
                            pool,
                            self.chosen@,
                            k,
                            u as nat,
                        ) < k,
                ),
            decreases n - v,
        {
            let ghost before = r@;
            if taken < self.subgraph_size && self.qualifies_at(v, Ghost(g)) {
                r.insert(v);
                taken = taken + 1;
            }
            proof {
                assert(r@ =~= Set::new(
                    |u: usize|
                        u < v + 1 && qualifies(g, pool, self.chosen@, k, u) && num_qualifying(
                            g,
                            pool,
                            self.chosen@,
                            k,
                            u as nat,
                        ) < k,
                ));
            }
            v = v + 1;
        }
        proof {
            assert(r@ =~= other_side(g, pool, self.chosen@, k));
        }
        r
    }
}

/// The pool vertices at the positions where `subset` holds 1.
fn c_solution(subset: &Vec<usize>, pool: &Vec<usize>) -> (r: HashSet<usize>)
    requires
        subset@.len() == pool@.len(),
    ensures
        r@ == chosen_side(pool@, Seq::new(subset@.len(), |p: int| subset@[p] == 1)),
{
    let ghost chosen = Seq::new(subset@.len(), |p: int| subset@[p] == 1);
    let mut r: HashSet<usize> = HashSet::new();
    let mut p: usize = 0;
    while p < subset.len()
        invariant
            subset@.len() == pool@.len(),
            chosen == Seq::new(subset@.len(), |p: int| subset@[p] == 1),
            p <= subset@.len(),
            r@ == Set::new(|v: usize| exists|q: int| 0 <= q < p && chosen[q] && pool@[q] == v),
        decreases subset@.len() - p,
    {
        if subset[p] == 1 {
            r.insert(pool[p]);
        }
        proof {
            assert(r@ =~= Set::new(|v: usize| exists|q: int| 0 <= q < p + 1 && chosen[q] && pool@[q] == v)) by {
                assert forall|v: usize| r@.contains(v) implies exists|q: int| 0 <= q < p + 1 && chosen[q] && pool@[q] == v by {
                    if v == pool@[p as int] && subset@[p as int] == 1 {
                        assert(chosen[p as int]);
                    }
                }
            }
        }
        p = p + 1;
    }
    proof {
        assert(r@ =~= chosen_side(pool@, chosen));
    }
    r
}

/// `side` holds exactly the smallest neighbour of vertex `i`.
pub open spec fn is_least_neighbour(g: GraphModel, i: int, side: Set<usize>) -> bool {
    exists|j: usize|
        #![trigger side.contains(j)]
        side == set![j] && g.adj[i].contains(j) && forall|w: usize|
            #[trigger] g.adj[i].contains(w) ==> j <= w
}

/// The smallest entry of a non-empty list.
fn least_entry(list: &Vec<usize>) -> (r: usize)
    requires
        list@.len() > 0,
    ensures
        list@.contains(r),
        forall|w: usize| #[trigger] list@.contains(w) ==> r <= w,
{
    let mut best = list[0];
    let ghost mut at: int = 0;
    let mut p: usize = 1;
    while p < list.len()
        invariant
            1 <= p <= list@.len(),
            0 <= at < p,
            list@[at] == best,
            forall|q: int| 0 <= q < p ==> best <= #[trigger] list@[q],
        decreases list@.len() - p,
    {
        if list[p] < best {
            best = list[p];
            proof {
                at = p as int;
            }
        }
        p = p + 1;
    }
    proof {
        assert(list@.contains(best));
        assert forall|w: usize| #[trigger] list@.contains(w) implies best <= w by {
            let q = choose|q: int| 0 <= q < list@.len() && list@[q] == w;
        }
    }
    best
}

/// Searches `graph` for a complete bipartite subgraph.
///
/// When the graph has an edge and `edges² < 64 · vertices³`, the answer is the
/// first vertex with a neighbour and its smallest neighbour. Otherwise the pool
/// is the `highest_degree_size` vertices of largest degree, and the
/// `bipartite_size`-subsets of pool positions are walked in minimal-change
/// order until one has at least `highest_degree_size` vertices outside the
/// pool adjacent to all of its vertices; the answer is that subset's vertices
/// and the first `bipartite_size` of those vertices. Two empty sets mean that
/// no subset of the walk passed.
pub fn find_bipartite(graph: &Graph, highest_degree_size: usize, bipartite_size: usize) -> (r: (
    HashSet<usize>,
    HashSet<usize>,
))
    requires
        graph.wf(),
        graph@.is_sparse() || (bipartite_size <= highest_degree_size && highest_degree_size
            <= graph@.num_vertices()),
    ensures
        graph@.is_sparse() ==> exists|i: int|
            #![trigger graph@.is_first_nonisolated(i)]
            graph@.is_first_nonisolated(i) && r.0@ == set![i as usize] && is_least_neighbour(
                graph@,
                i,
                r.1@,
            ),
        !graph@.is_sparse() ==> exists|pool: Seq<usize>|
            #![trigger graph@.is_degree_prefix(true, pool, highest_degree_size as nat)]
            graph@.is_degree_prefix(true, pool, highest_degree_size as nat) && search_outcome(
                graph@,
                pool,
                bipartite_size as nat,
                (r.0@, r.1@),
            ),
{
    let ghost g = graph@;
    let n = graph.get_num_of_vertices();
    if graph.is_sparse() {
        let mut i: usize = 0;
        while i < n
            invariant
                g.is_sparse(),
                graph.wf(),
                g == graph@,
                n == g.num_vertices(),
                i <= n,
                forall|u: int| 0 <= u < i ==> #[trigger] g.adj[u].len() == 0,
            decreases n - i,
        {
            let list = graph.neighbour_list(i);
            if list.len() > 0 {
                let mut a: HashSet<usize> = HashSet::new();
                a.insert(i);
                let least = least_entry(list);
                let mut b: HashSet<usize> = HashSet::new();
                b.insert(least);
                proof {
                    assert(g.is_sparse());
                    assert(g.is_first_nonisolated(i as int));
                    assert(a@ =~= set![i]);
                    assert(b@ =~= set![least]);
                    assert(list@ == g.adj[i as int]);
                    assert(b@.contains(least));
                    assert(is_least_neighbour(g, i as int, b@));
                }
                return (a, b);
            }
            i = i + 1;
        }
        proof {
            crate::graphs::lemma_edge_has_endpoint(g.adj);
        }
    }
    let pool = graph.highest_degree_vertices(highest_degree_size);
    let mut gray_generator = GraySubsets::new(highest_degree_size, bipartite_size);
    let mut curr_subset = gray_generator.init();
    let mut b = CountArray::new(&pool, bipartite_size, graph);
    let ghost walk = revolving_door(highest_degree_size as nat, bipartite_size as nat);
    proof {
        assert(pool@.len() == highest_degree_size);
        assert(gray_generator.subset() =~= first_choice(highest_degree_size as nat, bipartite_size as nat));
        gray_generator.lemma_walk_position();
    }
    if b.is_ok(Ghost(g)) {
        let c_set = c_solution(&curr_subset, &pool);
        let d_set = b.d_solution(Ghost(g));
        proof {
            assert(Seq::new(curr_subset@.len(), |p: int| curr_subset@[p] == 1) =~= b.chosen@);
            assert(satisfied(g, pool@, walk[0], bipartite_size as nat));
            assert(search_outcome(g, pool@, bipartite_size as nat, (c_set@, d_set@)));
        }
        return (c_set, d_set);
    }
    loop
        invariant
            graph.wf(),
            g == graph@,
            !g.is_sparse(),
            g.is_degree_prefix(true, pool@, highest_degree_size as nat),
            pool@.len() == highest_degree_size,
            bipartite_size <= highest_degree_size,
            walk == revolving_door(pool@.len(), bipartite_size as nat),
            gray_generator.wf(),
            gray_generator.size() == highest_degree_size,
            gray_generator.subset_size() == bipartite_size,
            gray_generator.subset() == b.chosen@,
            forall|i: int|
                0 <= i <= gray_generator.position() ==> !satisfied(
                    g,
                    pool@,
                    #[trigger] walk[i],
                    bipartite_size as nat,
                ),
            b.wf(g),
            b.highest_degree_vec@ == pool@,
            b.subgraph_size == bipartite_size,
            curr_subset@.len() == highest_degree_size,
            forall|p: int|
                0 <= p < highest_degree_size ==> (#[trigger] curr_subset@[p] == 1) == b.chosen@[p],
        decreases gray_generator.remaining(),
    {
        proof {
            gray_generator.lemma_walk_position();
        }
        let ghost before = gray_generator.position();
        match gray_generator.next() {
            Some((change_0, change_1)) => {
                b.two_bit_change(graph, change_0, change_1);
                curr_subset.set(change_0, 0);
                curr_subset.set(change_1, 1);
                if b.is_ok(Ghost(g)) {
                    let c_set = c_solution(&curr_subset, &pool);
                    let d_set = b.d_solution(Ghost(g));
                    proof {
                        let j = gray_generator.position();
                        gray_generator.lemma_walk_position();
                        assert(Seq::new(curr_subset@.len(), |p: int| curr_subset@[p] == 1) =~= b.chosen@);
                        assert(satisfied(g, pool@, walk[j], bipartite_size as nat));
                        assert forall|i: int| 0 <= i < j implies !satisfied(g, pool@, #[trigger] walk[i], bipartite_size as nat) by {
                            assert(i <= before);
                        }
                        assert(search_outcome(g, pool@, bipartite_size as nat, (c_set@, d_set@)));
                    }
                    return (c_set, d_set);
                }
                proof {
                    gray_generator.lemma_walk_position();
                    assert forall|i: int| 0 <= i <= gray_generator.position() implies !satisfied(g, pool@, #[trigger] walk[i], bipartite_size as nat) by {
                        if i <= before {
                        }
                    }
                }
            },
            None => {
                let none_left: HashSet<usize> = HashSet::new();
                let none_right: HashSet<usize> = HashSet::new();
                proof {
                    gray_generator.lemma_walk_position();
                    assert(!exists|j: int| 0 <= j < walk.len() && #[trigger] satisfied(g, pool@, walk[j], bipartite_size as nat));
                    assert(search_outcome(g, pool@, bipartite_size as nat, (none_left@, none_right@)));
                }
                return (none_left, none_right);
            },
        }
    }
}

proof fn lemma_full_count_means_all_adjacent(
    g: GraphModel,
    pool: Seq<usize>,
    chosen: Seq<bool>,
    v: usize,
    upto: nat,
)
    requires
        upto <= chosen.len(),
    ensures
        chosen_adjacent(g, pool, chosen, v, upto) <= count_true(chosen.take(upto as int)),
        chosen_adjacent(g, pool, chosen, v, upto) == count_true(chosen.take(upto as int)) ==> forall|
            p: int,
        | 0 <= p < upto && #[trigger] chosen[p] ==> g.adj[pool[p] as int].contains(v),
    decreases upto,
{
    if upto > 0 {
        lemma_full_count_means_all_adjacent(g, pool, chosen, v, (upto - 1) as nat);
        assert(chosen.take(upto as int).drop_last() =~= chosen.take(upto - 1));
    }
}

/// In every pair that the search can return, each vertex of the first set is
/// adjacent to each vertex of the second, and the two sets are disjoint.
pub proof fn lemma_found_pair_is_complete_bipartite(
    g: GraphModel,
    pool: Seq<usize>,
    chosen: Seq<bool>,
    k: nat,
    u: usize,
    v: usize,
)
    requires
        g.wf(),
        chosen.len() == pool.len(),
        count_true(chosen) == k,
        forall|p: int| 0 <= p < pool.len() ==> (#[trigger] pool[p]) < g.num_vertices(),
        chosen_side(pool, chosen).contains(u),
        other_side(g, pool, chosen, k).contains(v),
    ensures
        g.has_edge(u as int, v as int),
        g.has_edge(v as int, u as int),
        u != v,
{
    let p = choose|p: int| 0 <= p < pool.len() && chosen[p] && pool[p] == u;
    lemma_full_count_means_all_adjacent(g, pool, chosen, v, pool.len());
    assert(chosen.take(pool.len() as int) =~= chosen);
    assert(g.adj[pool[p] as int].contains(v));
    assert(g.has_edge(u as int, v as int));
    assert(pool.contains(u));
}

proof fn lemma_chosen_prefix_size(pool: Seq<usize>, chosen: Seq<bool>, m: int)
    requires
        pool.no_duplicates(),
        chosen.len() == pool.len(),
        0 <= m <= pool.len(),
    ensures
        Set::new(|v: usize| exists|p: int| 0 <= p < m && chosen[p] && pool[p] == v).finite(),
        Set::new(|v: usize| exists|p: int| 0 <= p < m && chosen[p] && pool[p] == v).len()
            == count_true(chosen.take(m)),
    decreases m,
{
    let t = Set::new(|v: usize| exists|p: int| 0 <= p < m && chosen[p] && pool[p] == v);
    if m == 0 {
        assert(t =~= Set::empty());
        assert(chosen.take(0) =~= Seq::<bool>::empty());
    } else {
        lemma_chosen_prefix_size(pool, chosen, m - 1);
        let t0 = Set::new(|v: usize| exists|p: int| 0 <= p < m - 1 && chosen[p] && pool[p] == v);
        assert(chosen.take(m).drop_last() =~= chosen.take(m - 1));
        if chosen[m - 1] {
            assert(t =~= t0.insert(pool[m - 1]));
            assert(!t0.contains(pool[m - 1])) by {
                if t0.contains(pool[m - 1]) {
                    let p = choose|p: int| 0 <= p < m - 1 && chosen[p] && pool[p] == pool[m - 1];
                    assert(pool[p] == pool[m - 1]);
                }
            }
        } else {
            assert(t =~= t0);
        }
    }
}

proof fn lemma_other_prefix_size(g: GraphModel, pool: Seq<usize>, chosen: Seq<bool>, k: nat, m: nat)
    requires
        m <= usize::MAX,
    ensures
        Set::new(
            |v: usize|
                (v as int) < m && qualifies(g, pool, chosen, k, v) && num_qualifying(g, pool, chosen, k, v as nat) < k,
        ).finite(),
        Set::new(
            |v: usize|
                (v as int) < m && qualifies(g, pool, chosen, k, v) && num_qualifying(g, pool, chosen, k, v as nat) < k,
        ).len() == if num_qualifying(g, pool, chosen, k, m) < k {
            num_qualifying(g, pool, chosen, k, m)
        } else {
            k
        },
    decreases m,
{
    let t = Set::new(
        |v: usize|
            (v as int) < m && qualifies(g, pool, chosen, k, v) && num_qualifying(g, pool, chosen, k, v as nat) < k,
    );
    if m == 0 {
        assert(t =~= Set::empty());
    } else {
        lemma_other_prefix_size(g, pool, chosen, k, (m - 1) as nat);
        let t0 = Set::new(
            |v: usize|
                (v as int) < m - 1 && qualifies(g, pool, chosen, k, v) && num_qualifying(g, pool, chosen, k, v as nat) < k,
        );
        let w = (m - 1) as usize;
        assert(w as nat == m - 1);
        if qualifies(g, pool, chosen, k, w) && num_qualifying(g, pool, chosen, k, w as nat) < k {
            assert(t =~= t0.insert(w));
        } else {
            assert(t =~= t0);
        }
    }
}

/// When the search returns a non-empty pair from a pool of distinct
/// vertices, both sets have exactly `k` vertices.
pub proof fn lemma_found_pair_sizes(g: GraphModel, pool: Seq<usize>, chosen: Seq<bool>, k: nat)
    requires
        pool.no_duplicates(),
        chosen.len() == pool.len(),
        count_true(chosen) == k,
        k <= pool.len(),
        satisfied(g, pool, chosen, k),
        g.num_vertices() <= usize::MAX,
    ensures
        chosen_side(pool, chosen).len() == k,
        other_side(g, pool, chosen, k).len() == k,
{
    lemma_chosen_prefix_size(pool, chosen, pool.len() as int);
    assert(chosen.take(pool.len() as int) =~= chosen);
    assert(chosen_side(pool, chosen) =~= Set::new(
        |v: usize| exists|p: int| 0 <= p < pool.len() && chosen[p] && pool[p] == v,
    ));
    let n = g.num_vertices();
    lemma_other_prefix_size(g, pool, chosen, k, n);
    assert(other_side(g, pool, chosen, k) =~= Set::new(
        |v: usize|
            (v as int) < n && qualifies(g, pool, chosen, k, v) && num_qualifying(g, pool, chosen, k, v as nat) < k,
    ));
}

/// The vertices of largest degree are distinct.
pub proof fn lemma_degree_prefix_distinct(g: GraphModel, desc: bool, r: Seq<usize>, s: nat)
    requires
        g.is_degree_prefix(desc, r, s),
    ensures
        r.no_duplicates(),
{
    assert forall|i: int, j: int| 0 <= i < r.len() && 0 <= j < r.len() && i != j implies r[i] != r[j] by {
        if i < j {
            assert(g.degree_precedes(desc, r[i] as int, r[j] as int));
        } else {
            assert(g.degree_precedes(desc, r[j] as int, r[i] as int));
        }
    }
}

} // verus!
