use petgraph::graph::{DiGraph, NodeIndex};
use sprawl::crawl::Crawl;
use regex::Regex;
use sprawl::discovery::{discover_links, select_children};
use sprawl::graph::build_graph;
use sprawl::registry::{CrawlError, FetchOutcome};

const SEED: &str = "http://site/";

/// One page of an in-memory site: the paths it links to when it is served,
/// `None` when fetching it fails.
type Page = (&'static str, Option<&'static [&'static str]>);

fn anchors(paths: &[&str]) -> String {
    paths.iter().map(|p| format!(r#"<a href="{}">{}</a>"#, p, p)).collect()
}

fn addr(path: &str) -> String {
    format!("http://site{}", path)
}

/// Drives a crawl to completion over an in-memory site, following every link
/// of a served page up to `max_depth`.
fn crawl_site(
    site: &[Page],
    max_depth: usize,
) -> (DiGraph<String, ()>, Vec<(String, FetchOutcome)>) {
    let mut crawl = Crawl::new(SEED.to_string());
    while let Some((address, depth)) = crawl.next_task() {
        let page = site.iter().find(|(p, _)| addr(p) == address).and_then(|(_, links)| *links);
        match page {
            None => {
                crawl.settle(&address, FetchOutcome::Failure("400 Bad Request".to_string())).unwrap();
            }
            Some(links) => {
                let body = anchors(links);
                crawl.settle(&address, FetchOutcome::Success(body.clone())).unwrap();
                let everything = Regex::new("").unwrap();
                if let Some(children) =
                    discover_links(&address, &body, depth, max_depth, Some(&everything), None)
                {
                    crawl.add_children(&address, depth, &children).unwrap();
                }
            }
        }
    }
    crawl.finish().unwrap()
}

fn edge_names(graph: &DiGraph<String, ()>) -> Vec<(String, String)> {
    graph
        .raw_edges()
        .iter()
        .map(|e| (graph[e.source()].clone(), graph[e.target()].clone()))
        .collect()
}

#[test]
fn cyclic() {
    let (graph, pages) = crawl_site(&[("/", Some(&["/foo"])), ("/foo", Some(&["/bar"])), ("/bar", Some(&["/foo"]))], 10);
    assert_eq!(graph.node_count(), 3);
    assert_eq!(pages.len(), 3);
}

#[test]
fn two_children() {
    let (graph, pages) = crawl_site(&[("/", Some(&["/foo", "/bar"])), ("/foo", None), ("/bar", None)], 10);
    assert_eq!(graph.node_count(), 3);
    assert_eq!(pages.len(), 3);
}

#[test]
fn single_grandchild() {
    let (graph, pages) = crawl_site(&[("/", Some(&["/foo"])), ("/foo", Some(&["/bar"])), ("/bar", None)], 10);
    assert_eq!(graph.node_count(), 3);
    assert_eq!(pages.len(), 3);
}

#[test]
fn single_child() {
    let (graph, pages) = crawl_site(&[("/", Some(&["/foo"])), ("/foo", None)], 10);
    assert_eq!(graph.node_count(), 2);
    assert_eq!(pages.len(), 2);
    assert_eq!(graph.edge_count(), 1);
    assert_eq!(edge_names(&graph), vec![(addr("/"), addr("/foo"))]);
}

#[test]
fn terminal_node() {
    let (graph, pages) = crawl_site(&[("/", Some(&[]))], 10);
    assert_eq!(graph.node_count(), 1);
    assert_eq!(pages.len(), 1);
    assert_eq!(graph.edge_count(), 0);
    assert!(matches!(pages[0].1, FetchOutcome::Success(_)));
}

#[test]
fn terminal_node_err() {
    let (graph, pages) = crawl_site(&[("/", None)], 10);
    assert_eq!(graph.node_count(), 1);
    assert_eq!(pages.len(), 1);
    assert_eq!(graph.edge_count(), 0);
    assert!(matches!(pages[0].1, FetchOutcome::Failure(_)));
}

#[test]
fn two_terminal_children_give_three_nodes_two_edges() {
    let (graph, pages) = crawl_site(&[("/", Some(&["/a", "/b"])), ("/a", Some(&[])), ("/b", Some(&[]))], 10);
    assert_eq!(graph.node_count(), 3);
    assert_eq!(graph.edge_count(), 2);
    assert_eq!(pages.len(), 3);
    let edges = edge_names(&graph);
    assert!(edges.contains(&(addr("/"), addr("/a"))));
    assert!(edges.contains(&(addr("/"), addr("/b"))));
}

#[test]
fn cycle_of_two_terminates_with_both_edges() {
    let (graph, pages) = crawl_site(&[("/", Some(&["/a"])), ("/a", Some(&["/"]))], 10);
    assert_eq!(graph.node_count(), 2);
    assert_eq!(pages.len(), 2);
    assert_eq!(edge_names(&graph), vec![(addr("/"), addr("/a")), (addr("/a"), addr("/"))]);
}

#[test]
fn depth_limit_zero_gives_one_node() {
    let (graph, pages) = crawl_site(&[("/", Some(&["/a", "/b"])), ("/a", Some(&[])), ("/b", Some(&[]))], 0);
    assert_eq!(graph.node_count(), 1);
    assert_eq!(graph.edge_count(), 0);
    assert_eq!(pages.len(), 1);
}

#[test]
fn depth_limit_one_stops_below_children() {
    let (graph, pages) = crawl_site(&[("/", Some(&["/a"])), ("/a", Some(&["/b"])), ("/b", Some(&[]))], 1);
    assert_eq!(graph.node_count(), 2);
    assert_eq!(pages.len(), 2);
}

#[test]
fn address_found_by_two_parents_is_visited_once() {
    let (graph, pages) = crawl_site(
        &[("/", Some(&["/a", "/b"])), ("/a", Some(&["/c"])), ("/b", Some(&["/c"])), ("/c", Some(&[]))],
        10,
    );
    assert_eq!(pages.len(), 4);
    assert_eq!(graph.node_count(), 4);
    assert_eq!(graph.edge_count(), 4);
    assert_eq!(pages.iter().filter(|(a, _)| *a == addr("/c")).count(), 1);
}

#[test]
fn cycle_of_three_visits_each_once() {
    let (graph, pages) = crawl_site(&[("/", Some(&["/a"])), ("/a", Some(&["/b"])), ("/b", Some(&["/"]))], 10);
    assert_eq!(pages.len(), 3);
    assert_eq!(graph.node_count(), 3);
    assert_eq!(graph.edge_count(), 3);
    for p in ["/", "/a", "/b"] {
        assert_eq!(pages.iter().filter(|(a, _)| *a == addr(p)).count(), 1);
    }
}

#[test]
fn self_link_is_an_edge() {
    let (graph, pages) = crawl_site(&[("/", Some(&["/"]))], 10);
    assert_eq!(pages.len(), 1);
    assert_eq!(edge_names(&graph), vec![(addr("/"), addr("/"))]);
}

#[test]
fn graph_nodes_follow_registry_order() {
    let (graph, pages) = crawl_site(&[("/", Some(&["/a", "/b"])), ("/a", None), ("/b", Some(&[]))], 10);
    assert_eq!(graph.node_count(), pages.len());
    for (i, (a, _)) in pages.iter().enumerate() {
        assert_eq!(&graph[NodeIndex::new(i)], a);
    }
    for e in graph.raw_edges() {
        assert!(e.source().index() < graph.node_count());
        assert!(e.target().index() < graph.node_count());
    }
}

#[test]
fn claim_is_exclusive() {
    let mut crawl = Crawl::new(SEED.to_string());
    let (a, d) = crawl.next_task().unwrap();
    assert_eq!(a, SEED);
    assert_eq!(d, 0);
    assert_eq!(crawl.visited_count(), 1);
    assert!(crawl.next_task().is_none());
    crawl.settle(&a, FetchOutcome::Success(String::new())).unwrap();
    crawl.add_children(&a, 0, &vec![SEED.to_string()]).unwrap();
    assert_eq!(crawl.pending_count(), 1);
    assert!(crawl.next_task().is_none());
    assert_eq!(crawl.pending_count(), 0);
    assert_eq!(crawl.visited_count(), 1);
}

#[test]
fn settle_errors() {
    let mut crawl = Crawl::new(SEED.to_string());
    let other = addr("/other");
    assert_eq!(crawl.settle(&other, FetchOutcome::Failure("x".to_string())), Err(CrawlError::NotClaimed));
    let (a, _) = crawl.next_task().unwrap();
    assert_eq!(crawl.settle(&a, FetchOutcome::Failure("x".to_string())), Ok(()));
    assert_eq!(crawl.settle(&a, FetchOutcome::Failure("y".to_string())), Err(CrawlError::AlreadySettled));
    let (_, pages) = crawl.finish().unwrap();
    assert_eq!(pages, vec![(SEED.to_string(), FetchOutcome::Failure("x".to_string()))]);
}

#[test]
fn add_children_errors() {
    let mut crawl = Crawl::new(SEED.to_string());
    let (a, _) = crawl.next_task().unwrap();
    let kids = vec![addr("/a")];
    assert_eq!(crawl.add_children(&a, 0, &kids), Err(CrawlError::NotFetched));
    crawl.settle(&a, FetchOutcome::Failure("gone".to_string())).unwrap();
    assert_eq!(crawl.add_children(&a, 0, &kids), Err(CrawlError::NotFetched));

    let mut crawl = Crawl::new(SEED.to_string());
    let (a, _) = crawl.next_task().unwrap();
    crawl.settle(&a, FetchOutcome::Success(String::new())).unwrap();
    assert_eq!(crawl.add_children(&a, usize::MAX, &kids), Err(CrawlError::DepthOverflow));
    assert_eq!(crawl.add_children(&a, 0, &vec![addr("/a"), addr("/a")]), Err(CrawlError::DuplicateEdge));
    assert_eq!(crawl.link_count(), 0);
    assert_eq!(crawl.add_children(&a, 0, &kids), Ok(()));
    assert_eq!(crawl.link_count(), 1);
    assert_eq!(crawl.add_children(&a, 0, &vec![addr("/b"), addr("/a")]), Err(CrawlError::DuplicateEdge));
    assert_eq!(crawl.link_count(), 1);
    assert_eq!(crawl.pending_count(), 1);
}

#[test]
fn finish_errors() {
    let mut crawl = Crawl::new(SEED.to_string());
    assert!(matches!(crawl.finish(), Err(CrawlError::Pending)));
    let (a, _) = crawl.next_task().unwrap();
    assert!(matches!(crawl.finish(), Err(CrawlError::Unsettled)));
    crawl.settle(&a, FetchOutcome::Success(String::new())).unwrap();
    assert!(crawl.finish().is_ok());
}

#[test]
fn children_pushed_one_level_deeper() {
    let mut crawl = Crawl::new(SEED.to_string());
    let (a, _) = crawl.next_task().unwrap();
    crawl.settle(&a, FetchOutcome::Success(String::new())).unwrap();
    crawl.add_children(&a, 0, &vec![addr("/a"), addr("/b")]).unwrap();
    assert_eq!(crawl.next_task(), Some((addr("/b"), 1)));
    assert_eq!(crawl.next_task(), Some((addr("/a"), 1)));
    assert_eq!(crawl.next_task(), None);
}

#[test]
fn build_graph_maps_links_to_nodes() {
    let registry = vec![
        (addr("/"), FetchOutcome::Success(String::new())),
        (addr("/a"), FetchOutcome::Failure("no".to_string())),
    ];
    let links = vec![(addr("/"), addr("/a")), (addr("/a"), addr("/"))];
    let graph = build_graph(&registry, &links).unwrap();
    assert_eq!(graph.node_count(), 2);
    assert_eq!(graph[NodeIndex::new(0)], addr("/"));
    assert_eq!(graph[NodeIndex::new(1)], addr("/a"));
    let ends: Vec<(usize, usize)> = graph.raw_edges().iter().map(|e| (e.source().index(), e.target().index())).collect();
    assert_eq!(ends, vec![(0, 1), (1, 0)]);
}

#[test]
fn build_graph_refuses_dangling_link() {
    let registry = vec![(addr("/"), FetchOutcome::Success(String::new()))];
    let links = vec![(addr("/"), addr("/missing"))];
    assert!(matches!(build_graph(&registry, &links), Err(CrawlError::DanglingEdge)));
    let empty = build_graph(&Vec::new(), &Vec::new()).unwrap();
    assert_eq!(empty.node_count(), 0);
    assert_eq!(empty.edge_count(), 0);
}

#[test]
fn select_children_cutoff_filter_limit() {
    let c = vec![addr("/a"), addr("/b"), addr("/a"), addr("/c"), addr("/d")];
    let keep = vec![true, false, true, true, true];
    assert_eq!(select_children(3, 3, &c, &keep, None), None);
    assert_eq!(select_children(4, 3, &c, &keep, None), None);
    assert_eq!(select_children(0, 1, &c, &keep, None), Some(vec![addr("/a"), addr("/c"), addr("/d")]));
    assert_eq!(select_children(0, 1, &c, &keep, Some(2)), Some(vec![addr("/a")]));
    assert_eq!(select_children(0, 1, &c, &keep, Some(3)), Some(vec![addr("/a"), addr("/c")]));
    assert_eq!(select_children(0, 1, &c, &keep, Some(0)), Some(vec![]));
    assert_eq!(select_children(0, 1, &Vec::new(), &Vec::new(), None), Some(vec![]));
}

#[test]
fn discover_links_resolves_filters_and_strips() {
    let page = addr("/dir/page");
    let body = r#"<p><a href="/foo#top">x</a><a href="bar">y</a><a href="https://other.org/z">z</a><a>no href</a><a href="http://[bad">bad</a><a href="/foo">again</a></p>"#.to_string();
    let all = Regex::new("").unwrap();
    assert_eq!(
        discover_links(&page, &body, 0, 1, Some(&all), None),
        Some(vec![addr("/foo"), addr("/dir/bar"), "https://other.org/z".to_string()])
    );
    let only_site = Regex::new("^http://site/").unwrap();
    assert_eq!(
        discover_links(&page, &body, 0, 1, Some(&only_site), None),
        Some(vec![addr("/foo"), addr("/dir/bar")])
    );
    let with_fragment = Regex::new("#top$").unwrap();
    assert_eq!(discover_links(&page, &body, 0, 1, Some(&with_fragment), None), Some(vec![addr("/foo")]));
    assert_eq!(discover_links(&page, &body, 0, 1, Some(&all), Some(1)), Some(vec![addr("/foo")]));
    assert_eq!(discover_links(&page, &body, 0, 1, None, None), Some(vec![]));
    assert_eq!(discover_links(&page, &body, 1, 1, Some(&all), None), None);
    assert_eq!(discover_links(&page, &String::new(), 0, 1, Some(&all), None), Some(vec![]));
}
