use vstd::prelude::*;
use crate::graphs::{Graph, GraphModel};

verus! {

/// The graph with the edge `a`–`b` added, where [`Graph::add_edge_idx`] would
/// add it.
pub open spec fn edge_added(g: GraphModel, a: int, b: int) -> GraphModel {
    if 0 <= a < g.num_vertices() && 0 <= b < g.num_vertices() && a != b && !g.has_edge(a, b)
        && g.edges < usize::MAX {
        g.with_edge(a, b)
    } else {
        g
    }
}

/// The graph and queue after merging the links `links`, found on the page of
/// vertex `node` at depth `depth`: a known page gets an edge from `node`; an
/// unknown page, unless `depth` is the last depth, becomes a new vertex with
/// an edge from `node` and is queued one level deeper.
pub open spec fn merged(
    g: GraphModel,
    queue: Seq<(usize, usize)>,
    max_depth: usize,
    depth: usize,
    node: usize,
    links: Seq<Seq<char>>,
) -> (GraphModel, Seq<(usize, usize)>)
    decreases links.len(),
{
    if links.len() == 0 {
        (g, queue)
    } else {
        let (g0, q0) = merged(g, queue, max_depth, depth, node, links.drop_last());
        let link = links.last();
        match g0.names.index_of_first(link) {
            Some(i) => (edge_added(g0, node as int, i), q0),
            None => if depth == max_depth {
                (g0, q0)
            } else {
                let id = g0.num_vertices();
                (
                    edge_added(g0.with_vertex(link), node as int, id as int),
                    q0.push(((depth + 1) as usize, id as usize)),
                )
            },
        }
    }
}

/// The characters of `s`.
fn chars_of(s: &str) -> (r: Vec<char>)
    ensures
        r@ == s@,
{
    let mut r: Vec<char> = Vec::new();
    for c in it: s.chars()
        invariant
            r@ == it.seq().take(it.index() as int),
    {
        r.push(c);
    }
    r
}

/// `word` occurs in `text`.
pub open spec fn occurs_in(word: Seq<char>, text: Seq<char>) -> bool {
    exists|i: int|
        0 <= i && i + word.len() <= text.len() && #[trigger] text.subrange(i, i + word.len()) == word
}

/// A crawl follows a link whose address starts with `http`, holds every word
/// of `must_contain` and none of `stop_words`.
pub open spec fn link_wanted(href: Seq<char>, must_contain: Seq<Seq<char>>, stop_words: Seq<Seq<char>>) -> bool {
    &&& href.len() >= 4 && href.subrange(0, 4) == "http"@
    &&& forall|i: int| 0 <= i < must_contain.len() ==> occurs_in(#[trigger] must_contain[i], href)
    &&& forall|i: int| 0 <= i < stop_words.len() ==> !occurs_in(#[trigger] stop_words[i], href)
}

/// Whether `word` occurs in `text` at position `i`.
fn occurs_at(word: &Vec<char>, text: &Vec<char>, i: usize) -> (r: bool)
    requires
        i + word@.len() <= text@.len(),
    ensures
        r == (text@.subrange(i as int, i + word@.len()) == word@),
{
    let text_len = text.len();
    let mut j: usize = 0;
    loop
        invariant
            text_len == text@.len(),
            i + word@.len() <= text@.len(),
            j <= word@.len(),
            forall|q: int| 0 <= q < j ==> text@[i + q] == word@[q],
        decreases word@.len() - j,
    {
        if j == word.len() {
            proof {
                assert(text@.subrange(i as int, i + word@.len()) =~= word@);
            }
            return true;
        }
        if text[i + j] != word[j] {
            proof {
                assert(text@.subrange(i as int, i + word@.len())[j as int] != word@[j as int]);
            }
            return false;
        }
        j = j + 1;
    }
}

/// Whether `word` occurs in `text`.
fn occurs(word: &Vec<char>, text: &Vec<char>) -> (r: bool)
    ensures
        r == occurs_in(word@, text@),
{
    if word.len() > text.len() {
        return false;
    }
    let last = text.len() - word.len();
    let mut i: usize = 0;
    loop
        invariant
            last == text@.len() - word@.len(),
            i <= last,
            forall|p: int| 0 <= p < i ==> #[trigger] text@.subrange(p, p + word@.len()) != word@,
        decreases last - i,
    {
        if occurs_at(word, text, i) {
            return true;
        }
        if i == last {
            proof {
                if occurs_in(word@, text@) {
                    let p = choose|p: int|
                        0 <= p && p + word@.len() <= text@.len() && #[trigger] text@.subrange(
                            p,
                            p + word@.len(),
                        ) == word@;
                    assert(text@.subrange(p, p + word@.len()) != word@);
                }
            }
            return false;
        }
        i = i + 1;
    }
}

/// Whether a crawl follows the link `href`: it starts with `http`, holds
/// every word of `must_contain` and none of `stop_words`.
pub fn wants_link(href: &str, must_contain: &Vec<String>, stop_words: &Vec<String>) -> (r: bool)
    ensures
        r == link_wanted(
            href@,
            must_contain@.map_values(|s: String| s@),
            stop_words@.map_values(|s: String| s@),
        ),
{
    let text = chars_of(href);
    proof {
        reveal_strlit("http");
    }
    if text.len() < 4 || text[0] != 'h' || text[1] != 't' || text[2] != 't' || text[3] != 'p' {
        proof {
            if text@.len() >= 4 {
                assert(text@.subrange(0, 4) != "http"@) by {
                    if text@.subrange(0, 4) == "http"@ {
                        assert(text@.subrange(0, 4)[0] == 'h');
                        assert(text@.subrange(0, 4)[1] == 't');
                        assert(text@.subrange(0, 4)[2] == 't');
                        assert(text@.subrange(0, 4)[3] == 'p');
                    }
                }
            }
        }
        return false;
    }
    proof {
        assert(text@.subrange(0, 4) =~= "http"@);
    }
    let ghost must = must_contain@.map_values(|s: String| s@);
    let ghost stop = stop_words@.map_values(|s: String| s@);
    let mut i: usize = 0;
    while i < must_contain.len()
        invariant
            text@ == href@,
            must == must_contain@.map_values(|s: String| s@),
            i <= must_contain@.len(),
            forall|q: int| 0 <= q < i ==> occurs_in(#[trigger] must[q], href@),
        decreases must_contain@.len() - i,
    {
        let word = chars_of(must_contain[i].as_str());
        if !occurs(&word, &text) {
            proof {
                assert(must[i as int] == word@);
            }
            return false;
        }
        i = i + 1;
    }
    let mut i: usize = 0;
    while i < stop_words.len()
        invariant
            text@ == href@,
            stop == stop_words@.map_values(|s: String| s@),
            i <= stop_words@.len(),
            forall|q: int| 0 <= q < i ==> !occurs_in(#[trigger] stop[q], href@),
        decreases stop_words@.len() - i,
    {
        let word = chars_of(stop_words[i].as_str());
        if occurs(&word, &text) {
            proof {
                assert(stop[i as int] == word@);
            }
            return false;
        }
        i = i + 1;
    }
    true
}

/// The settings of a crawl: the page it starts from, how deep it follows
/// links, the words every followed address must hold, and the words none may
/// hold.
pub struct Crawler {
    root: String,
    max_depth: usize,
    must_contain: Vec<String>,
    stop_words: Vec<String>,
}

impl Crawler {
    pub closed spec fn root_address(&self) -> Seq<char> {
        self.root@
    }

    pub closed spec fn depth_limit(&self) -> usize {
        self.max_depth
    }

    pub closed spec fn required_words(&self) -> Seq<Seq<char>> {
        self.must_contain@.map_values(|s: String| s@)
    }

    pub closed spec fn forbidden_words(&self) -> Seq<Seq<char>> {
        self.stop_words@.map_values(|s: String| s@)
    }

    pub fn new(root: String, max_depth: usize, must_contain: Vec<String>, stop_words: Vec<String>) -> (r:
        Crawler)
        ensures
            r.root_address() == root@,
            r.depth_limit() == max_depth,
            r.required_words() == must_contain@.map_values(|s: String| s@),
            r.forbidden_words() == stop_words@.map_values(|s: String| s@),
    {
        Crawler { root, max_depth, must_contain, stop_words }
    }

    pub fn root(&self) -> (r: &String)
        ensures
            r@ == self.root_address(),
    {
        &self.root
    }

    pub fn max_depth(&self) -> (r: usize)
        ensures
            r == self.depth_limit(),
    {
        self.max_depth
    }

    pub fn must_contain(&self) -> (r: &Vec<String>)
        ensures
            r@.map_values(|s: String| s@) == self.required_words(),
    {
        &self.must_contain
    }

    pub fn stop_words(&self) -> (r: &Vec<String>)
        ensures
            r@.map_values(|s: String| s@) == self.forbidden_words(),
    {
        &self.stop_words
    }

    /// The graph a crawl starts from, the root page alone, and the queue of
    /// pages to visit, `(depth, vertex)`, holding the root at depth 0.
    pub fn start(&self) -> (r: (Graph, Vec<(usize, usize)>))
        ensures
            r.0.wf(),
            r.0@.names == seq![self.root_address()],
            r.0@.edges == 0,
            r.1@ == seq![(0usize, 0usize)],
    {
        let mut names: Vec<String> = Vec::new();
        names.push(self.root.clone());
        proof {
            crate::graphs::lemma_first_occurrences_distinct(seq![self.root@]);
            assert(names@.map_values(|s: String| s@) =~= seq![self.root@]);
        }
        let graph = Graph::from_names(names);
        proof {
            assert(graph@.names =~= seq![self.root@]);
        }
        let mut queue: Vec<(usize, usize)> = Vec::new();
        queue.push((0, 0));
        proof {
            assert(queue@ =~= seq![(0usize, 0usize)]);
        }
        (graph, queue)
    }

    /// Merges the links found on the page of vertex `node_id`, visited at
    /// depth `depth`, into the graph and the queue of pages to visit.
    pub fn record_links(
        &self,
        graph: &mut Graph,
        queue: &mut Vec<(usize, usize)>,
        depth: usize,
        node_id: usize,
        links: &Vec<String>,
    )
        requires
            old(graph).wf(),
            depth < usize::MAX,
        ensures
            final(graph).wf(),
            (final(graph)@, final(queue)@) == merged(
                old(graph)@,
                old(queue)@,
                self.depth_limit(),
                depth,
                node_id,
                links@.map_values(|s: String| s@),
            ),
    {
        let ghost names = links@.map_values(|s: String| s@);
        let mut i: usize = 0;
        while i < links.len()
            invariant
                graph.wf(),
                depth < usize::MAX,
                names == links@.map_values(|s: String| s@),
                i <= links@.len(),
                (graph@, queue@) == merged(
                    old(graph)@,
                    old(queue)@,
                    self.depth_limit(),
                    depth,
                    node_id,
                    names.take(i as int),
                ),
            decreases links@.len() - i,
        {
            let link = &links[i];
            proof {
                assert(names.take(i + 1).drop_last() =~= names.take(i as int));
                assert(names.take(i + 1).last() == link@);
                graph@.names.index_of_first_ensures(link@);
            }
            match graph.name_to_idx(link.as_str()) {
                Some(idx) => {
                    graph.add_edge_idx(node_id, idx);
                },
                None => {
                    if depth != self.max_depth {
                        graph.add_vertex(link.as_str());
                        let id = graph.get_num_of_vertices() - 1;
                        graph.add_edge_idx(node_id, id);
                        queue.push((depth + 1, id));
                    }
                },
            }
            i = i + 1;
        }
        proof {
            assert(names.take(i as int) =~= names);
        }
    }
}

} // verus!
