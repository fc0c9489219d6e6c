use vstd::prelude::*;

use petgraph::graph::DiGraph;

use crate::graph::{build_graph, edges_match, graph_edges, graph_nodes, link_views, node_keys};
use crate::registry::{
    all_settled, after_claim, fetched_ok, keys_of, settle_spec, settled_pairs, CrawlError, EntryView,
    FetchOutcome, Registry,
};

verus! {

/// `children` are distinct and none is linked from `parent` yet.
pub open spec fn fresh_children(
    links: Seq<(Seq<char>, Seq<char>)>,
    parent: Seq<char>,
    children: Seq<Seq<char>>,
) -> bool {
    &&& children.no_duplicates()
    &&& forall|i: int| 0 <= i < children.len() ==> !links.contains((parent, children[i]))
}

/// The links from `parent` to each of `children`, in order.
pub open spec fn links_from(parent: Seq<char>, children: Seq<Seq<char>>) -> Seq<(Seq<char>, Seq<char>)> {
    children.map_values(|c: Seq<char>| (parent, c))
}

/// The crawl tasks for `children`, one level below `depth`.
pub open spec fn tasks_for(children: Seq<Seq<char>>, depth: nat) -> Seq<(Seq<char>, nat)> {
    children.map_values(|c: Seq<char>| (c, depth))
}

/// The state of one crawl: the visited registry, the recorded links, and the
/// discovered addresses still waiting to be claimed, each with its depth.
pub struct Crawl {
    registry: Registry,
    links: Vec<(String, String)>,
    pending: Vec<(String, usize)>,
}

impl Crawl {
    /// The visited registry: each claimed address with its outcome once settled.
    pub closed spec fn registry_view(&self) -> Seq<EntryView> {
        self.registry@
    }

    /// The visited addresses, in order of claiming.
    pub open spec fn keys(&self) -> Seq<Seq<char>> {
        keys_of(self.registry_view())
    }

    /// The recorded (parent, child) links, in order of recording.
    pub closed spec fn link_view(&self) -> Seq<(Seq<char>, Seq<char>)> {
        link_views(self.links@)
    }

    /// The queued (address, depth) tasks; the last one is taken first.
    pub closed spec fn pending_view(&self) -> Seq<(Seq<char>, nat)> {
        self.pending@.map_values(|t: (String, usize)| (t.0@, t.1 as nat))
    }

    /// The addresses of the queued tasks.
    pub open spec fn pending_addrs(&self) -> Seq<Seq<char>> {
        self.pending_view().map_values(|t: (Seq<char>, nat)| t.0)
    }

    /// Addresses are claimed at most once, no link is recorded twice, every
    /// link leaves a visited address, and every link target is visited or
    /// still queued.
    pub open spec fn wf(&self) -> bool {
        &&& self.keys().no_duplicates()
        &&& self.link_view().no_duplicates()
        &&& forall|i: int|
            0 <= i < self.link_view().len() ==> {
                &&& self.keys().contains(#[trigger] self.link_view()[i].0)
                &&& self.keys().contains(self.link_view()[i].1) || self.pending_addrs().contains(
                    self.link_view()[i].1,
                )
            }
    }

    /// A crawl that has visited nothing and starts from `seed` at depth 0.
    pub fn new(seed: String) -> (c: Crawl)
        ensures
            c.wf(),
            c.registry_view() == Seq::<EntryView>::empty(),
            c.link_view() == Seq::<(Seq<char>, Seq<char>)>::empty(),
            c.pending_view() == seq![(seed@, 0nat)],
    {
        let mut pending: Vec<(String, usize)> = Vec::new();
        pending.push((seed, 0));
        let c = Crawl { registry: Registry::new(), links: Vec::new(), pending };
        assert(c.link_view() =~= Seq::<(Seq<char>, Seq<char>)>::empty());
        assert(c.pending_view() =~= seq![(seed@, 0nat)]);
        c
    }

    /// Whether the link (`p`, `c`) is recorded.
    fn has_link(&self, p: &String, c: &String) -> (r: bool)
        ensures
            r == self.link_view().contains((p@, c@)),
    {
        let mut i: usize = 0;
        while i < self.links.len()
            invariant
                i <= self.links@.len(),
                self.link_view().len() == self.links@.len(),
                forall|j: int| 0 <= j < i ==> self.link_view()[j] != (p@, c@),
            decreases self.links@.len() - i,
        {
            if self.links[i].0 == *p && self.links[i].1 == *c {
                assert(self.link_view()[i as int] == (p@, c@));
                return true;
            }
            i = i + 1;
        }
        false
    }

    /// Takes queued tasks, last first, until one names an address not yet
    /// visited; claims that address and hands it out with its depth. Tasks
    /// for visited addresses are dropped. Returns `None` once the queue is empty.
    pub fn next_task(&mut self) -> (r: Option<(String, usize)>)
        requires
            old(self).wf(),
        ensures
            final(self).wf(),
            final(self).link_view() == old(self).link_view(),
            match r {
                None => {
                    &&& final(self).registry_view() == old(self).registry_view()
                    &&& final(self).pending_view() == Seq::<(Seq<char>, nat)>::empty()
                    &&& forall|j: int|
                        0 <= j < old(self).pending_view().len() ==> old(self).keys().contains(
                            #[trigger] old(self).pending_view()[j].0,
                        )
                },
                Some(t) => exists|k: int|
                    {
                        &&& 0 <= k < old(self).pending_view().len()
                        &&& old(self).pending_view()[k] == (t.0@, t.1 as nat)
                        &&& !old(self).keys().contains(t.0@)
                        &&& forall|j: int|
                            k < j < old(self).pending_view().len() ==> old(self).keys().contains(
                                #[trigger] old(self).pending_view()[j].0,
                            )
                        &&& final(self).pending_view() == old(self).pending_view().take(k)
                        &&& final(self).registry_view() == after_claim(
                            old(self).registry_view(),
                            t.0@,
                        )
                        &&& final(self).registry_view() == old(self).registry_view().push(
                            (t.0@, None),
                        )
                    },
            },
    {
        let ghost orig_p = self.pending_view();
        let ghost orig_r = self.registry_view();
        while self.pending.len() > 0
            invariant
                self.wf(),
                self.registry_view() == orig_r,
                self.link_view() == old(self).link_view(),
                orig_p == old(self).pending_view(),
                orig_r == old(self).registry_view(),
                self.pending_view().len() <= orig_p.len(),
                self.pending_view() == orig_p.take(self.pending_view().len() as int),
                forall|j: int|
                    self.pending_view().len() <= j < orig_p.len() ==> keys_of(orig_r).contains(
                        #[trigger] orig_p[j].0,
                    ),
            decreases self.pending@.len(),
        {
            let ghost before = self.pending_view();
            let ghost raw = self.pending@;
            let ghost n = before.len() - 1;
            match self.pending.pop() {
                None => {
                    return None;
                },
                Some(task) => {
                    assert(self.pending_view() =~= before.take(n));
                    assert(self.pending_view() =~= orig_p.take(n));
                    assert(task == raw[n]);
                    assert(before[n] == (raw[n].0@, raw[n].1 as nat));
                    assert(orig_p[n] == before[n]);
                    let won = self.registry.try_claim(&task.0);
                    proof {
                        assert forall|i: int| 0 <= i < self.link_view().len() implies {
                            &&& self.keys().contains(#[trigger] self.link_view()[i].0)
                            &&& self.keys().contains(self.link_view()[i].1)
                                || self.pending_addrs().contains(self.link_view()[i].1)
                        } by {
                            let x = self.link_view()[i].1;
                            let y = self.link_view()[i].0;
                            let ks = keys_of(orig_r);
                            let addrs = before.map_values(|t: (Seq<char>, nat)| t.0);
                            assert(self.pending_addrs() =~= addrs.take(n));
                            if won {
                                assert(self.keys() =~= ks.push(task.0@));
                                lemma_push_keeps(ks, task.0@, y);
                            } else {
                                assert(self.keys() == ks);
                            }
                            assert(self.keys().contains(y));
                            if ks.contains(x) {
                                if won {
                                    lemma_push_keeps(ks, task.0@, x);
                                }
                            } else {
                                assert(addrs.contains(x));
                                let q = choose|q: int| 0 <= q < addrs.len() && #[trigger] addrs[q] == x;
                                if q < n {
                                    assert(self.pending_addrs()[q] == x);
                                } else {
                                    assert(addrs[n] == task.0@);
                                    if won {
                                        assert(self.keys()[ks.len() as int] == x);
                                    }
                                }
                            }
                        }
                    }
                    if won {
                        return Some(task);
                    }
                },
            }
        }
        assert(self.pending_view() =~= Seq::<(Seq<char>, nat)>::empty());
        None
    }

    /// Records the fetch outcome of a claimed address (see `settle_spec`).
    pub fn settle(&mut self, a: &String, outcome: FetchOutcome) -> (r: Result<(), CrawlError>)
        requires
            old(self).wf(),
        ensures
            final(self).wf(),
            settle_spec(old(self).registry_view(), a@, outcome, r, final(self).registry_view()),
            final(self).link_view() == old(self).link_view(),
            final(self).pending_view() == old(self).pending_view(),
    {
        let r = self.registry.settle(a, outcome);
        assert(self.keys() =~= old(self).keys()) by {
            if r is Ok {
                let i = choose|i: int|
                    0 <= i < old(self).registry_view().len() && old(self).keys()[i] == a@
                        && old(self).registry_view()[i].1 is None && self.registry_view()
                        == old(self).registry_view().update(i, (a@, Some(outcome)));
            }
        }
        r
    }

    /// Records the children that discovery returned for `parent`, fetched at
    /// `depth`: one link from `parent` to each, and one task per child at
    /// `depth + 1`. Fails, changing nothing, when `parent` has no successful
    /// fetch, when `depth + 1` would overflow, or when a link would be recorded
    /// twice (a repeated child, or one already linked from `parent`).
    pub fn add_children(&mut self, parent: &String, depth: usize, children: &Vec<String>) -> (r:
        Result<(), CrawlError>)
        requires
            old(self).wf(),
        ensures
            final(self).wf(),
            final(self).registry_view() == old(self).registry_view(),
            match r {
                Ok(()) => {
                    &&& fetched_ok(old(self).registry_view(), parent@)
                    &&& depth < usize::MAX
                    &&& fresh_children(old(self).link_view(), parent@, children@.map_values(|c: String| c@))
                    &&& final(self).link_view() == old(self).link_view() + links_from(
                        parent@,
                        children@.map_values(|c: String| c@),
                    )
                    &&& final(self).pending_view() == old(self).pending_view() + tasks_for(
                        children@.map_values(|c: String| c@),
                        (depth + 1) as nat,
                    )
                },
                Err(e) => {
                    &&& final(self).link_view() == old(self).link_view()
                    &&& final(self).pending_view() == old(self).pending_view()
                    &&& match e {
                        CrawlError::NotFetched => !fetched_ok(old(self).registry_view(), parent@),
                        CrawlError::DepthOverflow => fetched_ok(old(self).registry_view(), parent@)
                            && depth == usize::MAX,
                        CrawlError::DuplicateEdge => fetched_ok(old(self).registry_view(), parent@)
                            && depth < usize::MAX && !fresh_children(
                            old(self).link_view(),
                            parent@,
                            children@.map_values(|c: String| c@),
                        ),
                        _ => false,
                    }
                },
            },
    {
        let ghost cv = children@.map_values(|c: String| c@);
        let ghost entries = self.registry_view();
        if !self.registry.fetched_successfully(parent) {
            return Err(CrawlError::NotFetched);
        }
        proof {
            let j = choose|j: int|
                0 <= j < entries.len() && entries[j].0 == parent@ && entries[j].1 is Some
                    && entries[j].1.unwrap() is Success;
            assert(keys_of(entries)[j] == parent@);
        }
        if depth == usize::MAX {
            return Err(CrawlError::DepthOverflow);
        }
        let mut k: usize = 0;
        while k < children.len()
            invariant
                k <= children@.len(),
                cv == children@.map_values(|c: String| c@),
                self.wf(),
                depth < usize::MAX,
                fetched_ok(entries, parent@),
                entries == self.registry_view(),
                entries == old(self).registry_view(),
                self.link_view() == old(self).link_view(),
                self.pending_view() == old(self).pending_view(),
                forall|m: int| 0 <= m < k ==> !self.link_view().contains((parent@, #[trigger] cv[m])),
                forall|m1: int, m2: int| 0 <= m1 < m2 < k ==> cv[m1] != cv[m2],
            decreases children@.len() - k,
        {
            let mut m: usize = 0;
            while m < k
                invariant
                    m <= k < children@.len(),
                    cv == children@.map_values(|c: String| c@),
                    self.wf(),
                    depth < usize::MAX,
                    fetched_ok(entries, parent@),
                    entries == self.registry_view(),
                    entries == old(self).registry_view(),
                    self.link_view() == old(self).link_view(),
                    self.pending_view() == old(self).pending_view(),
                    forall|m1: int| 0 <= m1 < m ==> cv[m1] != cv[k as int],
                decreases k - m,
            {
                if children[m] == children[k] {
                    assert(cv[m as int] == cv[k as int]);
                    assert(!cv.no_duplicates());
                    return Err(CrawlError::DuplicateEdge);
                }
                m = m + 1;
            }
            if self.has_link(parent, &children[k]) {
                assert(cv[k as int] == children@[k as int]@);
                return Err(CrawlError::DuplicateEdge);
            }
            k = k + 1;
        }
        assert(fresh_children(self.link_view(), parent@, cv));
        let ghost links0 = self.link_view();
        let ghost pending0 = self.pending_view();
        let mut k: usize = 0;
        while k < children.len()
            invariant
                k <= children@.len(),
                depth < usize::MAX,
                cv == children@.map_values(|c: String| c@),
                fresh_children(links0, parent@, cv),
                fetched_ok(entries, parent@),
                keys_of(entries).contains(parent@),
                entries == self.registry_view(),
                entries == old(self).registry_view(),
                links0 == old(self).link_view(),
                pending0 == old(self).pending_view(),
                old(self).wf(),
                self.wf(),
                self.link_view() == links0 + links_from(parent@, cv.take(k as int)),
                self.pending_view() == pending0 + tasks_for(cv.take(k as int), (depth + 1) as nat),
            decreases children@.len() - k,
        {
            let ghost lv = self.link_view();
            let ghost pv = self.pending_view();
            let ghost pre = *self;
            self.links.push((parent.clone(), children[k].clone()));
            self.pending.push((children[k].clone(), depth + 1));
            assert(cv.take(k + 1) =~= cv.take(k as int).push(cv[k as int]));
            assert(self.link_view() =~= lv.push((parent@, cv[k as int])));
            assert(self.pending_view() =~= pv.push((cv[k as int], (depth + 1) as nat)));
            assert(self.link_view() =~= links0 + links_from(parent@, cv.take(k + 1)));
            assert(self.pending_view() =~= pending0 + tasks_for(cv.take(k + 1), (depth + 1) as nat));
            proof {
                let link = (parent@, cv[k as int]);
                assert(!lv.contains(link)) by {
                    if lv.contains(link) {
                        let q = choose|q: int| 0 <= q < lv.len() && lv[q] == link;
                        if q >= links0.len() {
                            assert(links_from(parent@, cv.take(k as int))[q - links0.len()] == link);
                            assert(cv.take(k as int)[q - links0.len()] == cv[k as int]);
                        } else {
                            assert(links0[q] == link);
                        }
                    }
                }
                let addrs = self.pending_addrs();
                assert(addrs[pv.len() as int] == cv[k as int]);
                assert forall|i: int| 0 <= i < self.link_view().len() implies {
                    &&& self.keys().contains(#[trigger] self.link_view()[i].0)
                    &&& self.keys().contains(self.link_view()[i].1) || self.pending_addrs().contains(
                        self.link_view()[i].1,
                    )
                } by {
                    if i < lv.len() {
                        let x = lv[i].1;
                        if !self.keys().contains(x) {
                            let pa = pre.pending_addrs();
                            assert(pre.link_view()[i].1 == x);
                            assert(pre.keys().contains(pre.link_view()[i].0));
                            assert(pre.keys() == self.keys());
                            assert(pa.contains(x));
                            let q = choose|q: int| 0 <= q < pa.len() && #[trigger] pa[q] == x;
                            assert(addrs[q] == x);
                        }
                    } else {
                        assert(self.link_view()[i] == link);
                    }
                }
            }
            k = k + 1;
        }
        assert(cv.take(k as int) =~= cv);
        Ok(())
    }

    /// The number of addresses claimed so far.
    pub fn visited_count(&self) -> (n: usize)
        ensures
            n == self.registry_view().len(),
    {
        self.registry.len()
    }

    /// The number of links recorded so far.
    pub fn link_count(&self) -> (n: usize)
        ensures
            n == self.link_view().len(),
    {
        self.links.len()
    }

    /// The number of queued tasks.
    pub fn pending_count(&self) -> (n: usize)
        ensures
            n == self.pending_view().len(),
    {
        self.pending.len()
    }

    /// Ends the crawl: the graph with one node per visited address, in visiting
    /// order, and one edge per recorded link, together with each address's
    /// outcome. Fails while tasks are still queued, or while a claimed address
    /// has no outcome.
    pub fn finish(&self) -> (r: Result<(DiGraph<String, ()>, Vec<(String, FetchOutcome)>), CrawlError>)
        requires
            self.wf(),
            self.registry_view().len() < u32::MAX,
            self.link_view().len() < u32::MAX,
        ensures
            match r {
                Ok((g, outcomes)) => {
                    &&& self.pending_view().len() == 0
                    &&& all_settled(self.registry_view())
                    &&& outcomes@.map_values(|p: (String, FetchOutcome)| (p.0@, p.1)) == settled_pairs(
                        self.registry_view(),
                    )
                    &&& graph_nodes(g) == self.keys()
                    &&& edges_match(self.keys(), self.link_view(), graph_edges(g))
                },
                Err(CrawlError::Pending) => self.pending_view().len() > 0,
                Err(CrawlError::Unsettled) => self.pending_view().len() == 0 && !all_settled(
                    self.registry_view(),
                ),
                Err(_) => false,
            },
    {
        if self.pending.len() > 0 {
            return Err(CrawlError::Pending);
        }
        let outcomes = match self.registry.snapshot() {
            Ok(v) => v,
            Err(e) => {
                return Err(e);
            },
        };
        let ghost pv = outcomes@.map_values(|p: (String, FetchOutcome)| (p.0@, p.1));
        let ghost rv = self.registry_view();
        assert(pv.len() == settled_pairs(rv).len());
        assert(outcomes@.len() == rv.len());
        assert(node_keys(outcomes@) =~= self.keys()) by {
            assert forall|i: int| 0 <= i < outcomes@.len() implies node_keys(outcomes@)[i]
                == self.keys()[i] by {
                assert(pv[i] == settled_pairs(rv)[i]);
                assert(pv[i] == (outcomes@[i].0@, outcomes@[i].1));
                assert(settled_pairs(rv)[i] == (rv[i].0, rv[i].1.unwrap()));
                assert(self.keys()[i] == rv[i].0);
            }
        }
        assert(self.pending_addrs() =~= Seq::<Seq<char>>::empty());
        match build_graph(&outcomes, &self.links) {
            Ok(g) => Ok((g, outcomes)),
            Err(e) => {
                proof {
                    assert forall|i: int| 0 <= i < self.link_view().len() implies self.keys().contains(
                        self.link_view()[i].0,
                    ) && self.keys().contains(self.link_view()[i].1) by {
                        assert(self.keys().contains(self.link_view()[i].0));
                    }
                }
                Err(e)
            },
        }
    }
}

/// Recording fresh children keeps the links distinct; and once `parent` is
/// linked to a child, any later report of that child for `parent` is not
/// fresh, so `add_children` refuses it instead of recording the link twice.
pub proof fn lemma_links_stay_unique(
    links: Seq<(Seq<char>, Seq<char>)>,
    parent: Seq<char>,
    children: Seq<Seq<char>>,
    later: Seq<Seq<char>>,
)
    requires
        links.no_duplicates(),
        fresh_children(links, parent, children),
    ensures
        (links + links_from(parent, children)).no_duplicates(),
        (exists|i: int| 0 <= i < later.len() && children.contains(#[trigger] later[i])) ==> !fresh_children(
            links + links_from(parent, children),
            parent,
            later,
        ),
{
    let all = links + links_from(parent, children);
    let added = links_from(parent, children);
    assert forall|i: int, j: int| 0 <= i < j < all.len() implies all[i] != all[j] by {
        if j >= links.len() {
            assert(all[j] == (parent, children[j - links.len()]));
            if i >= links.len() {
                assert(all[i] == (parent, children[i - links.len()]));
            } else {
                assert(links[i] == all[i]);
                if all[i] == all[j] {
                    assert(links.contains((parent, children[j - links.len()])));
                }
            }
        }
    }
    if exists|i: int| 0 <= i < later.len() && children.contains(#[trigger] later[i]) {
        let i = choose|i: int| 0 <= i < later.len() && children.contains(#[trigger] later[i]);
        let m = choose|m: int| 0 <= m < children.len() && children[m] == later[i];
        assert(all[links.len() + m] == (parent, later[i]));
    }
}

/// A finished crawl's graph agrees with its registry: as many nodes as
/// outcomes, each address on exactly one node, and every edge joins two nodes
/// of the graph, so no edge dangles.
pub proof fn lemma_finished_graph_consistent(
    c: Crawl,
    g: DiGraph<String, ()>,
    outcomes: Seq<(String, FetchOutcome)>,
)
    requires
        c.wf(),
        all_settled(c.registry_view()),
        outcomes.map_values(|p: (String, FetchOutcome)| (p.0@, p.1)) == settled_pairs(c.registry_view()),
        graph_nodes(g) == c.keys(),
        edges_match(c.keys(), c.link_view(), graph_edges(g)),
    ensures
        graph_nodes(g).len() == outcomes.len(),
        graph_nodes(g) == node_keys(outcomes),
        graph_nodes(g).no_duplicates(),
        graph_edges(g).len() == c.link_view().len(),
        forall|i: int|
            0 <= i < graph_edges(g).len() ==> 0 <= (#[trigger] graph_edges(g)[i]).0 < graph_nodes(g).len()
                && 0 <= graph_edges(g)[i].1 < graph_nodes(g).len(),
{
    let pv = outcomes.map_values(|p: (String, FetchOutcome)| (p.0@, p.1));
    let rv = c.registry_view();
    assert(pv.len() == rv.len());
    assert forall|i: int| 0 <= i < outcomes.len() implies node_keys(outcomes)[i] == c.keys()[i] by {
        assert(pv[i] == settled_pairs(rv)[i]);
        assert(pv[i] == (outcomes[i].0@, outcomes[i].1));
    }
    assert(node_keys(outcomes) =~= c.keys());
    let es = graph_edges(g);
    assert forall|i: int| 0 <= i < es.len() implies 0 <= (#[trigger] es[i]).0 < graph_nodes(g).len()
        && 0 <= es[i].1 < graph_nodes(g).len() by {
        assert(0 <= es[i].0 < c.keys().len());
    }
}

proof fn lemma_push_keeps(s: Seq<Seq<char>>, a: Seq<char>, y: Seq<char>)
    requires
        s.contains(y),
    ensures
        s.push(a).contains(y),
{
    let j = choose|j: int| 0 <= j < s.len() && s[j] == y;
    assert(s.push(a)[j] == y);
}

} // verus!
