use vstd::prelude::*;

use petgraph::graph::{DiGraph, NodeIndex};

use crate::registry::{CrawlError, FetchOutcome};

verus! {

#[verifier::external_type_specification]
#[verifier::external_body]
#[verifier::reject_recursive_types(N)]
#[verifier::reject_recursive_types(E)]
#[verifier::reject_recursive_types(Ty)]
#[verifier::reject_recursive_types(Ix)]
pub struct ExGraph<N, E, Ty, Ix>(petgraph::graph::Graph<N, E, Ty, Ix>);

#[verifier::external_type_specification]
#[verifier::external_body]
pub struct ExDirected(petgraph::Directed);

/// The node weights of a crawl graph, in node-index order.
pub uninterp spec fn graph_nodes(g: DiGraph<String, ()>) -> Seq<Seq<char>>;

/// The edges of a crawl graph as (source index, target index), in edge-index order.
pub uninterp spec fn graph_edges(g: DiGraph<String, ()>) -> Seq<(int, int)>;

/// Relies on petgraph's `Graph::new`: a directed graph with no nodes and no edges.
#[verifier::external_body]
fn empty_graph() -> (g: DiGraph<String, ()>)
    ensures
        graph_nodes(g) == Seq::<Seq<char>>::empty(),
        graph_edges(g) == Seq::<(int, int)>::empty(),
{
    DiGraph::new()
}

/// Relies on petgraph's `Graph::add_node`: the weight is appended and its index
/// is the former node count. It panics only once the `u32` index space is used up.
#[verifier::external_body]
fn push_node(g: &mut DiGraph<String, ()>, w: String) -> (r: usize)
    requires
        graph_nodes(*old(g)).len() < u32::MAX,
    ensures
        r == graph_nodes(*old(g)).len(),
        graph_nodes(*final(g)) == graph_nodes(*old(g)).push(w@),
        graph_edges(*final(g)) == graph_edges(*old(g)),
{
    g.add_node(w).index()
}

/// Relies on petgraph's `Graph::add_edge`: an edge from node `a` to node `b` is
/// appended. It panics on an index out of bounds or once the `u32` edge index
/// space is used up.
#[verifier::external_body]
fn push_edge(g: &mut DiGraph<String, ()>, a: usize, b: usize)
    requires
        a < graph_nodes(*old(g)).len(),
        b < graph_nodes(*old(g)).len(),
        graph_edges(*old(g)).len() < u32::MAX,
    ensures
        graph_nodes(*final(g)) == graph_nodes(*old(g)),
        graph_edges(*final(g)) == graph_edges(*old(g)).push((a as int, b as int)),
{
    g.add_edge(NodeIndex::new(a), NodeIndex::new(b), ());
}

/// The addresses of a settled registry, in order.
pub open spec fn node_keys(registry: Seq<(String, FetchOutcome)>) -> Seq<Seq<char>> {
    registry.map_values(|p: (String, FetchOutcome)| p.0@)
}

/// Links as pairs of addresses.
pub open spec fn link_views(links: Seq<(String, String)>) -> Seq<(Seq<char>, Seq<char>)> {
    links.map_values(|l: (String, String)| (l.0@, l.1@))
}

/// Both ends of every link are registry addresses.
pub open spec fn links_resolve(keys: Seq<Seq<char>>, links: Seq<(Seq<char>, Seq<char>)>) -> bool {
    forall|i: int| 0 <= i < links.len() ==> keys.contains(links[i].0) && keys.contains(links[i].1)
}

/// `edges` holds one edge per link, in order, whose endpoints are the nodes
/// carrying the link's two addresses.
pub open spec fn edges_match(
    keys: Seq<Seq<char>>,
    links: Seq<(Seq<char>, Seq<char>)>,
    edges: Seq<(int, int)>,
) -> bool {
    &&& edges.len() == links.len()
    &&& forall|i: int|
        #![trigger edges[i]]
        0 <= i < edges.len() ==> {
            &&& 0 <= edges[i].0 < keys.len()
            &&& 0 <= edges[i].1 < keys.len()
            &&& keys[edges[i].0] == links[i].0
            &&& keys[edges[i].1] == links[i].1
        }
}

/// Position of address `a` in a settled registry.
fn index_of(registry: &Vec<(String, FetchOutcome)>, a: &String) -> (r: Option<usize>)
    ensures
        match r {
            Some(i) => i < registry@.len() && node_keys(registry@)[i as int] == a@,
            None => !node_keys(registry@).contains(a@),
        },
{
    let mut i: usize = 0;
    while i < registry.len()
        invariant
            i <= registry@.len(),
            node_keys(registry@).len() == registry@.len(),
            forall|j: int| 0 <= j < i ==> node_keys(registry@)[j] != a@,
        decreases registry@.len() - i,
    {
        if registry[i].0 == *a {
            return Some(i);
        }
        i = i + 1;
    }
    None
}

/// Builds the crawl graph: one node per registry entry, carrying its address,
/// in registry order, and one edge per link, between the nodes of its two
/// addresses. Fails when a link names an address that the registry lacks.
pub fn build_graph(registry: &Vec<(String, FetchOutcome)>, links: &Vec<(String, String)>) -> (r:
    Result<DiGraph<String, ()>, CrawlError>)
    requires
        registry@.len() < u32::MAX,
        links@.len() < u32::MAX,
        node_keys(registry@).no_duplicates(),
    ensures
        match r {
            Ok(g) => {
                &&& links_resolve(node_keys(registry@), link_views(links@))
                &&& graph_nodes(g) == node_keys(registry@)
                &&& edges_match(node_keys(registry@), link_views(links@), graph_edges(g))
            },
            Err(e) => e == CrawlError::DanglingEdge && !links_resolve(
                node_keys(registry@),
                link_views(links@),
            ),
        },
{
    let ghost keys = node_keys(registry@);
    let ghost lv = link_views(links@);
    let mut g = empty_graph();
    let mut i: usize = 0;
    while i < registry.len()
        invariant
            i <= registry@.len() < u32::MAX,
            keys == node_keys(registry@),
            graph_nodes(g) =~= keys.take(i as int),
            graph_edges(g) == Seq::<(int, int)>::empty(),
        decreases registry@.len() - i,
    {
        let w = registry[i].0.clone();
        push_node(&mut g, w);
        assert(keys.take(i + 1) =~= keys.take(i as int).push(keys[i as int]));
        i = i + 1;
    }
    assert(keys.take(i as int) =~= keys);
    let mut k: usize = 0;
    while k < links.len()
        invariant
            k <= links@.len() < u32::MAX,
            keys == node_keys(registry@),
            lv == link_views(links@),
            graph_nodes(g) == keys,
            edges_match(keys, lv.take(k as int), graph_edges(g)),
            forall|j: int| 0 <= j < k ==> keys.contains(lv[j].0) && keys.contains(lv[j].1),
        decreases links@.len() - k,
    {
        let from = index_of(registry, &links[k].0);
        let to = index_of(registry, &links[k].1);
        match (from, to) {
            (Some(a), Some(b)) => {
                let ghost before = graph_edges(g);
                push_edge(&mut g, a, b);
                assert(edges_match(keys, lv.take(k + 1), graph_edges(g))) by {
                    assert(lv.take(k + 1) =~= lv.take(k as int).push(lv[k as int]));
                    assert forall|j: int| 0 <= j < k + 1 implies {
                        &&& 0 <= graph_edges(g)[j].0 < keys.len()
                        &&& 0 <= graph_edges(g)[j].1 < keys.len()
                        &&& keys[graph_edges(g)[j].0] == lv.take(k + 1)[j].0
                        &&& keys[graph_edges(g)[j].1] == lv.take(k + 1)[j].1
                    } by {
                        if j < k {
                            assert(lv.take(k as int)[j] == lv.take(k + 1)[j]);
                        }
                    }
                }
                assert(keys.contains(lv[k as int].0) && keys.contains(lv[k as int].1)) by {
                    assert(keys[a as int] == lv[k as int].0);
                    assert(keys[b as int] == lv[k as int].1);
                }
            },
            _ => {
                assert(lv[k as int] == (links@[k as int].0@, links@[k as int].1@));
                assert(!keys.contains(lv[k as int].0) || !keys.contains(lv[k as int].1));
                return Err(CrawlError::DanglingEdge);
            },
        }
        k = k + 1;
    }
    assert(lv.take(k as int) =~= lv);
    Ok(g)
}

} // verus!
