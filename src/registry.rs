use vstd::prelude::*;

verus! {

/// What fetching an address produced: the document body, or why it failed.
#[derive(Clone, Debug, PartialEq, Eq)]
pub enum FetchOutcome {
    Success(String),
    Failure(String),
}

impl FetchOutcome {
    /// A copy of this outcome.
    pub fn copied(&self) -> (r: FetchOutcome)
        ensures
            r == *self,
    {
        match self {
            FetchOutcome::Success(b) => FetchOutcome::Success(b.clone()),
            FetchOutcome::Failure(m) => FetchOutcome::Failure(m.clone()),
        }
    }

    pub fn is_success(&self) -> (r: bool)
        ensures
            r == (*self is Success),
    {
        match self {
            FetchOutcome::Success(_) => true,
            FetchOutcome::Failure(_) => false,
        }
    }
}

/// One visited address and, once settled, its fetch outcome.
#[derive(Debug)]
pub struct Entry {
    pub address: String,
    pub outcome: Option<FetchOutcome>,
}

/// Errors raised when the claim / settle / edge protocol is misused.
#[derive(Clone, Copy, Debug, PartialEq, Eq, Structural)]
pub enum CrawlError {
    /// `settle` on an address that was never claimed.
    NotClaimed,
    /// `settle` on an address whose outcome is already recorded.
    AlreadySettled,
    /// An address was claimed but its outcome was never recorded.
    Unsettled,
    /// Children were reported for an address that was not fetched successfully.
    NotFetched,
    /// The same (parent, child) link was recorded twice.
    DuplicateEdge,
    /// A link names an address that the registry does not hold.
    DanglingEdge,
    /// Work is still queued, so the crawl is not finished.
    Pending,
    /// A depth counter would exceed the machine integer range.
    DepthOverflow,
}

/// A registry entry as plain values: the address and its outcome, if settled.
pub type EntryView = (Seq<char>, Option<FetchOutcome>);

impl View for Entry {
    type V = EntryView;

    open spec fn view(&self) -> EntryView {
        (self.address@, self.outcome)
    }
}

/// The addresses of a sequence of entries, in order.
pub open spec fn keys_of(entries: Seq<EntryView>) -> Seq<Seq<char>> {
    entries.map_values(|e: EntryView| e.0)
}

/// The entries after a claim of `a`: unchanged when `a` is already present,
/// otherwise `a` is appended, not yet settled.
pub open spec fn after_claim(entries: Seq<EntryView>, a: Seq<char>) -> Seq<EntryView> {
    if keys_of(entries).contains(a) {
        entries
    } else {
        entries.push((a, None))
    }
}

/// The set of all addresses ever started, each with its outcome once settled.
pub struct Registry {
    entries: Vec<Entry>,
}

impl View for Registry {
    type V = Seq<EntryView>;

    closed spec fn view(&self) -> Seq<EntryView> {
        self.entries@.map_values(|e: Entry| e@)
    }
}

impl Registry {
    /// The claimed addresses, in order of claiming.
    pub open spec fn keys(&self) -> Seq<Seq<char>> {
        keys_of(self@)
    }

    /// Each address has at most one entry.
    pub open spec fn wf(&self) -> bool {
        self.keys().no_duplicates()
    }

    pub fn new() -> (r: Registry)
        ensures
            r.wf(),
            r@ == Seq::<EntryView>::empty(),
    {
        Registry { entries: Vec::new() }
    }

    /// Position of the entry for `a`, or `None` when `a` was never claimed.
    pub fn find(&self, a: &String) -> (r: Option<usize>)
        ensures
            match r {
                Some(i) => i < self@.len() && self.keys()[i as int] == a@,
                None => !self.keys().contains(a@),
            },
    {
        let mut i: usize = 0;
        while i < self.entries.len()
            invariant
                i <= self.entries@.len(),
                forall|j: int| 0 <= j < i ==> self.keys()[j] != a@,
                self.keys().len() == self.entries@.len(),
            decreases self.entries@.len() - i,
        {
            if self.entries[i].address == *a {
                return Some(i);
            }
            i = i + 1;
        }
        None
    }
}

/// How `settle(a, outcome)` with result `r` takes the entries from `before`
/// to `after`: the outcome is recorded when `a` is claimed and unsettled;
/// otherwise the error says which of the two failed and nothing changes.
pub open spec fn settle_spec(
    before: Seq<EntryView>,
    a: Seq<char>,
    outcome: FetchOutcome,
    r: Result<(), CrawlError>,
    after: Seq<EntryView>,
) -> bool {
    match r {
        Ok(()) => exists|i: int|
            0 <= i < before.len() && keys_of(before)[i] == a && before[i].1 is None && after
                == before.update(i, (a, Some(outcome))),
        Err(CrawlError::NotClaimed) => !keys_of(before).contains(a) && after == before,
        Err(CrawlError::AlreadySettled) => after == before && keys_of(before).contains(a) && forall|
            i: int,
        |
            0 <= i < before.len() && keys_of(before)[i] == a ==> before[i].1 is Some,
        Err(_) => false,
    }
}

/// The address `a` has an entry whose fetch succeeded.
pub open spec fn fetched_ok(entries: Seq<EntryView>, a: Seq<char>) -> bool {
    exists|i: int|
        0 <= i < entries.len() && entries[i].0 == a && entries[i].1 is Some
            && entries[i].1.unwrap() is Success
}

/// Every entry has a recorded outcome.
pub open spec fn all_settled(entries: Seq<EntryView>) -> bool {
    forall|i: int| 0 <= i < entries.len() ==> entries[i].1 is Some
}

/// The settled entries as (address, outcome) pairs, in registry order.
pub open spec fn settled_pairs(entries: Seq<EntryView>) -> Seq<(Seq<char>, FetchOutcome)> {
    entries.map_values(|e: EntryView| (e.0, e.1.unwrap()))
}

impl Registry {
    /// The number of entries.
    pub fn len(&self) -> (n: usize)
        ensures
            n == self@.len(),
    {
        self.entries.len()
    }

    /// Whether `a` was fetched successfully.
    pub fn fetched_successfully(&self, a: &String) -> (r: bool)
        requires
            self.wf(),
        ensures
            r == fetched_ok(self@, a@),
    {
        match self.find(a) {
            None => {
                proof {
                    if fetched_ok(self@, a@) {
                        let j = choose|j: int|
                            0 <= j < self@.len() && self@[j].0 == a@ && self@[j].1 is Some
                                && self@[j].1.unwrap() is Success;
                        assert(self.keys()[j] == a@);
                    }
                }
                false
            },
            Some(i) => {
                assert(self@[i as int] == self.entries@[i as int]@);
                let r = match &self.entries[i].outcome {
                    Some(o) => o.is_success(),
                    None => false,
                };
                proof {
                    if fetched_ok(self@, a@) {
                        let j = choose|j: int|
                            0 <= j < self@.len() && self@[j].0 == a@ && self@[j].1 is Some
                                && self@[j].1.unwrap() is Success;
                        assert(self.keys()[j] == a@);
                        assert(self.keys()[i as int] == a@);
                    }
                    if r {
                        assert(self@[i as int].0 == self.keys()[i as int]);
                    }
                }
                r
            },
        }
    }

    /// Atomically checks for `a` and, when absent, records it as claimed by
    /// the caller, who then owns its fetch. Returns whether the claim was won.
    pub fn try_claim(&mut self, a: &String) -> (won: bool)
        requires
            old(self).wf(),
        ensures
            final(self).wf(),
            won == !old(self).keys().contains(a@),
            final(self)@ == after_claim(old(self)@, a@),
    {
        match self.find(a) {
            Some(_) => false,
            None => {
                let ghost before = self@;
                self.entries.push(Entry { address: a.clone(), outcome: None });
                assert(self@ =~= before.push((a@, None)));
                assert(self.keys() =~= keys_of(before).push(a@));
                true
            },
        }
    }

    /// Records the outcome of a claimed address. Fails when `a` was never
    /// claimed or already has an outcome; the registry is then unchanged.
    pub fn settle(&mut self, a: &String, outcome: FetchOutcome) -> (r: Result<(), CrawlError>)
        requires
            old(self).wf(),
        ensures
            final(self).wf(),
            settle_spec(old(self)@, a@, outcome, r, final(self)@),
    {
        match self.find(a) {
            None => Err(CrawlError::NotClaimed),
            Some(i) => {
                if self.entries[i].outcome.is_some() {
                    proof {
                        assert forall|j: int| 0 <= j < old(self)@.len() && old(self).keys()[j] == a@
                            implies old(self)@[j].1 is Some by {
                            assert(old(self).keys()[j] == old(self).keys()[i as int]);
                        }
                    }
                    Err(CrawlError::AlreadySettled)
                } else {
                    let ghost before = self@;
                    let addr = self.entries[i].address.clone();
                    self.entries.set(i, Entry { address: addr, outcome: Some(outcome) });
                    assert(self@ =~= before.update(i as int, (a@, Some(outcome))));
                    assert(self.keys() =~= keys_of(before));
                    Ok(())
                }
            },
        }
    }

    /// A copy of the settled registry as (address, outcome) pairs; fails while
    /// some claimed address still has no outcome.
    pub fn snapshot(&self) -> (r: Result<Vec<(String, FetchOutcome)>, CrawlError>)
        ensures
            match r {
                Ok(v) => all_settled(self@) && v@.map_values(|p: (String, FetchOutcome)| (p.0@, p.1))
                    == settled_pairs(self@),
                Err(e) => e == CrawlError::Unsettled && !all_settled(self@),
            },
    {
        let mut out: Vec<(String, FetchOutcome)> = Vec::new();
        let mut i: usize = 0;
        while i < self.entries.len()
            invariant
                i <= self.entries@.len(),
                self@.len() == self.entries@.len(),
                out@.len() == i,
                forall|j: int| 0 <= j < i ==> self@[j].1 is Some,
                out@.map_values(|p: (String, FetchOutcome)| (p.0@, p.1)) =~= settled_pairs(self@.take(i as int)),
            decreases self.entries@.len() - i,
        {
            match &self.entries[i].outcome {
                None => {
                    assert(self@[i as int].1 is None);
                    return Err(CrawlError::Unsettled);
                },
                Some(o) => {
                    let ghost before = out@;
                    out.push((self.entries[i].address.clone(), o.copied()));
                    assert(self@.take(i + 1) =~= self@.take(i as int).push(self@[i as int]));
                    assert(out@.map_values(|p: (String, FetchOutcome)| (p.0@, p.1)) =~= before.map_values(
                        |p: (String, FetchOutcome)| (p.0@, p.1),
                    ).push((self@[i as int].0, self@[i as int].1.unwrap())));
                },
            }
            i = i + 1;
        }
        assert(self@.take(i as int) =~= self@);
        Ok(out)
    }
}

/// The entries after claiming each of `addrs` in turn, first to last.
pub open spec fn claim_all(entries: Seq<EntryView>, addrs: Seq<Seq<char>>) -> Seq<EntryView>
    decreases addrs.len(),
{
    if addrs.len() == 0 {
        entries
    } else {
        after_claim(claim_all(entries, addrs.drop_last()), addrs.last())
    }
}

/// Claiming never changes or duplicates an entry: after any sequence of
/// claims, in any order and with any repetition (as when several parents, or
/// the members of a cycle, discover the same addresses), each address that was
/// present or claimed has exactly one entry, and no other address has one.
/// So a crawl that only ever meets the addresses of a finite set visits each at
/// most once and claims at most as many addresses as the set holds.
pub proof fn lemma_claims_visit_once(entries: Seq<EntryView>, addrs: Seq<Seq<char>>)
    requires
        keys_of(entries).no_duplicates(),
    ensures
        keys_of(claim_all(entries, addrs)).no_duplicates(),
        keys_of(claim_all(entries, addrs)).to_set() == keys_of(entries).to_set().union(addrs.to_set()),
        keys_of(claim_all(entries, addrs)).len() == keys_of(entries).to_set().union(addrs.to_set()).len(),
        claim_all(entries, addrs).len() >= entries.len(),
        forall|i: int|
            0 <= i < entries.len() ==> claim_all(entries, addrs)[i] == entries[i],
    decreases addrs.len(),
{
    let r = claim_all(entries, addrs);
    if addrs.len() == 0 {
        assert(addrs.to_set() =~= Set::<Seq<char>>::empty());
        assert(keys_of(entries).to_set().union(addrs.to_set()) =~= keys_of(entries).to_set());
    } else {
        let front = addrs.drop_last();
        let a = addrs.last();
        lemma_claims_visit_once(entries, front);
        let prev = claim_all(entries, front);
        assert(addrs =~= front.push(a));
        front.lemma_push_to_set_commute(a);
        assert(addrs.to_set() =~= front.to_set().insert(a));
        if keys_of(prev).contains(a) {
            assert(r == prev);
            assert(keys_of(prev).to_set().contains(a));
        } else {
            assert(r == prev.push((a, None)));
            assert(keys_of(r) =~= keys_of(prev).push(a));
            keys_of(prev).lemma_push_to_set_commute(a);
            assert(keys_of(r).to_set() =~= keys_of(prev).to_set().insert(a));
        }
        assert(keys_of(r).to_set() =~= keys_of(entries).to_set().union(addrs.to_set()));
        assert forall|i: int| 0 <= i < entries.len() implies r[i] == entries[i] by {
            assert(prev[i] == entries[i]);
        }
    }
    keys_of(r).unique_seq_to_set();
}

} // verus!
