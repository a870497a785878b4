use vstd::prelude::*;
use vstd::string::StringExecFns;

use crate::backoff::{grown, Backoff};
use crate::interactions::{all_nonempty, InteractionMap};

verus! {

/// One node of a search result page.
pub enum SearchNode {
    /// A user, with the identifiers of the repositories it starred, in page order.
    User { id: String, starred: Vec<String> },
    /// Any other kind of node (an organization, say), which is skipped.
    Other,
}

/// What came back for one page request.
pub enum PageOutcome {
    /// The request did not get through.
    TransportError,
    /// The response carried no data.
    EmptyBody,
    /// The response lacked a field that every page must have.
    Malformed,
    /// A page of results.
    Page { nodes: Vec<SearchNode>, end_cursor: Option<String>, rate_limit_remaining: Option<u64> },
}

/// What the caller does next.
#[derive(PartialEq, Eq, Structural, Debug, Clone, Copy)]
pub enum Action {
    /// Wait, then request the same page again.
    Retry { wait_ms: u64 },
    /// Wait, then request the next page.
    Continue { wait_ms: u64 },
    /// The partition is complete: its interactions are ready.
    Done,
    /// A malformed response ended the partition.
    Failed,
}

/// The request for the next page of a partition.
pub struct PageRequest {
    pub search: String,
    pub cursor: Option<String>,
    pub users_per_page: u8,
    pub stars_per_user: u8,
}

/// The character of a decimal digit.
pub open spec fn digit_char(d: nat) -> char
    recommends
        d < 10,
{
    ((d + 48) as u8) as char
}

/// The decimal digits of `n`, most significant first, with no leading zero.
pub open spec fn decimal_chars(n: nat) -> Seq<char>
    decreases n,
{
    if n < 10 {
        seq![digit_char(n)]
    } else {
        decimal_chars(n / 10).push(digit_char(n % 10))
    }
}

/// Relies on `ToString::to_string` for `u32`: its decimal form.
#[verifier::external_body]
fn decimal(n: u32) -> (r: String)
    ensures
        r@ == decimal_chars(n as nat),
{
    n.to_string()
}

/// The search qualifier selecting users whose follower count lies in `[low, low + 1)`,
/// that is, equals `low`.
pub open spec fn search_spec(low: u32) -> Seq<char> {
    "followers:"@ + decimal_chars(low as nat)
}

/// The search predicate of the partition `[low, low + 1)`.
pub fn search_predicate(low: u32) -> (r: String)
    ensures
        r@ == search_spec(low),
{
    let digits = decimal(low);
    let mut s = String::from_str("followers:");
    s.append(digits.as_str());
    proof {
        reveal_strlit("followers:");
    }
    s
}

/// The interactions after taking in the nodes of one page: each user with a non-empty
/// list of starred repositories is recorded under its identifier, replacing what was
/// there; other nodes, and users with no stars, leave the map as it was.
pub open spec fn collected(
    m: Map<Seq<char>, Seq<Seq<char>>>,
    nodes: Seq<SearchNode>,
) -> Map<Seq<char>, Seq<Seq<char>>>
    decreases nodes.len(),
{
    if nodes.len() == 0 {
        m
    } else {
        let before = collected(m, nodes.drop_last());
        match nodes.last() {
            SearchNode::User { id, starred } => if starred@.len() > 0 {
                before.insert(id@, starred.deep_view())
            } else {
                before
            },
            SearchNode::Other => before,
        }
    }
}

/// Taking in a page never records a subject with an empty object list.
pub proof fn lemma_collected_nonempty(m: Map<Seq<char>, Seq<Seq<char>>>, nodes: Seq<SearchNode>)
    requires
        all_nonempty(m),
    ensures
        all_nonempty(collected(m, nodes)),
    decreases nodes.len(),
{
    if nodes.len() > 0 {
        lemma_collected_nonempty(m, nodes.drop_last());
    }
}

/// Records the qualifying users of one page in `map`.
pub fn collect_page(map: &mut InteractionMap, nodes: &Vec<SearchNode>)
    requires
        old(map).wf(),
    ensures
        final(map).wf(),
        final(map).map() == collected(old(map).map(), nodes@),
        all_nonempty(old(map).map()) ==> all_nonempty(final(map).map()),
{
    let ghost start = map.map();
    let mut i: usize = 0;
    while i < nodes.len()
        invariant
            i <= nodes.len(),
            map.wf(),
            map.map() == collected(start, nodes@.take(i as int)),
        decreases nodes.len() - i,
    {
        proof {
            assert(nodes@.take(i as int + 1).drop_last() =~= nodes@.take(i as int));
        }
        match &nodes[i] {
            SearchNode::User { id, starred } => {
                if starred.len() > 0 {
                    map.insert(id.clone(), starred.clone());
                }
            },
            SearchNode::Other => {},
        }
        i += 1;
    }
    proof {
        assert(nodes@.take(i as int) =~= nodes@);
        if all_nonempty(start) {
            lemma_collected_nonempty(start, nodes@);
        }
    }
}

/// The state of a crawl as plain values.
pub struct FetchModel {
    pub pages_used: nat,
    pub max_pages: nat,
    pub cursor: Option<Seq<char>>,
    pub finished: bool,
    pub failed: bool,
    pub rate_limit_remaining: Option<u64>,
    pub wait_ms: u64,
    pub default_ms: u64,
    pub increment_ms: u64,
    pub interactions: Map<Seq<char>, Seq<Seq<char>>>,
}

/// The text of an optional cursor.
pub open spec fn cursor_view(c: Option<String>) -> Option<Seq<char>> {
    match c {
        Some(s) => Some(s@),
        None => None,
    }
}

/// The crawl after taking in one outcome; see `FetchMachine::on_outcome`.
pub open spec fn step(m: FetchModel, o: PageOutcome) -> FetchModel {
    let used = m.pages_used + 1;
    match o {
        PageOutcome::TransportError | PageOutcome::EmptyBody => FetchModel {
            pages_used: used,
            finished: used == m.max_pages,
            failed: false,
            wait_ms: grown(m.wait_ms, m.increment_ms),
            ..m
        },
        PageOutcome::Malformed => FetchModel { pages_used: used, finished: true, failed: true, ..m },
        PageOutcome::Page { nodes, end_cursor, rate_limit_remaining } => FetchModel {
            pages_used: used,
            cursor: if end_cursor is Some {
                cursor_view(end_cursor)
            } else {
                m.cursor
            },
            finished: end_cursor is None || used == m.max_pages,
            failed: false,
            rate_limit_remaining,
            wait_ms: m.default_ms,
            interactions: collected(m.interactions, nodes@),
            ..m
        },
    }
}

/// The crawl after taking in `outcomes`, in order.
pub open spec fn steps(m: FetchModel, outcomes: Seq<PageOutcome>) -> FetchModel
    decreases outcomes.len(),
{
    if outcomes.len() == 0 {
        m
    } else {
        step(steps(m, outcomes.drop_last()), outcomes.last())
    }
}

/// The crawl of one partition, page by page, under a budget of page requests.
pub struct FetchMachine {
    pub min_followers: u32,
    pub users_per_page: u8,
    pub stars_per_user: u8,
    pub max_pages: u16,
    pub pages_used: u16,
    pub cursor: Option<String>,
    pub finished: bool,
    pub failed: bool,
    pub rate_limit_remaining: Option<u64>,
    pub backoff: Backoff,
    pub interactions: InteractionMap,
}

impl FetchMachine {
    pub open spec fn wf(&self) -> bool {
        &&& self.interactions.wf()
        &&& all_nonempty(self.interactions.map())
        &&& self.pages_used <= self.max_pages
        &&& self.pages_used == self.max_pages ==> self.finished
        &&& self.failed ==> self.finished
    }

    pub open spec fn model(&self) -> FetchModel {
        FetchModel {
            pages_used: self.pages_used as nat,
            max_pages: self.max_pages as nat,
            cursor: cursor_view(self.cursor),
            finished: self.finished,
            failed: self.failed,
            rate_limit_remaining: self.rate_limit_remaining,
            wait_ms: self.backoff.current_ms,
            default_ms: self.backoff.default_ms,
            increment_ms: self.backoff.increment_ms,
            interactions: self.interactions.map(),
        }
    }

    /// Page requests that the budget still allows.
    pub open spec fn budget_left(&self) -> nat {
        (self.max_pages - self.pages_used) as nat
    }

    /// A crawl of the partition `[min_followers, min_followers + 1)` at its first page.
    pub fn new(
        min_followers: u32,
        users_per_page: u8,
        stars_per_user: u8,
        max_pages: u16,
        backoff: Backoff,
    ) -> (r: FetchMachine)
        ensures
            r.wf(),
            r.min_followers == min_followers,
            r.users_per_page == users_per_page,
            r.stars_per_user == stars_per_user,
            r.max_pages == max_pages,
            r.pages_used == 0,
            r.cursor is None,
            r.finished == (max_pages == 0),
            !r.failed,
            r.rate_limit_remaining is None,
            r.backoff == backoff,
            r.interactions.map() == Map::<Seq<char>, Seq<Seq<char>>>::empty(),
    {
        FetchMachine {
            min_followers,
            users_per_page,
            stars_per_user,
            max_pages,
            pages_used: 0,
            cursor: None,
            finished: max_pages == 0,
            failed: false,
            rate_limit_remaining: None,
            backoff,
            interactions: InteractionMap::new(),
        }
    }

    /// The request for the current page: the first page while no cursor is held,
    /// else the page after the cursor.
    pub fn next_request(&self) -> (r: PageRequest)
        ensures
            r.search@ == search_spec(self.min_followers),
            r.cursor == self.cursor,
            r.users_per_page == self.users_per_page,
            r.stars_per_user == self.stars_per_user,
    {
        let cursor = match &self.cursor {
            Some(c) => Some(c.clone()),
            None => None,
        };
        proof {
            if self.cursor is Some {
                assert(cursor->0@ == self.cursor->0@);
            }
        }
        PageRequest {
            search: search_predicate(self.min_followers),
            cursor,
            users_per_page: self.users_per_page,
            stars_per_user: self.stars_per_user,
        }
    }

    /// Takes in the outcome of the current request. Every outcome spends one page of
    /// the budget. A transport error or an empty body grows the backoff and keeps the
    /// page; a malformed response ends the crawl as failed; a page resets the backoff,
    /// records its qualifying users, and moves to its end cursor, or ends the crawl
    /// where there is none.
    pub fn on_outcome(&mut self, outcome: PageOutcome) -> (a: Action)
        requires
            old(self).wf(),
            !old(self).finished,
        ensures
            final(self).wf(),
            final(self).pages_used == old(self).pages_used + 1,
            final(self).model() == step(old(self).model(), outcome),
            final(self).min_followers == old(self).min_followers,
            final(self).users_per_page == old(self).users_per_page,
            final(self).stars_per_user == old(self).stars_per_user,
            final(self).max_pages == old(self).max_pages,
            final(self).backoff.default_ms == old(self).backoff.default_ms,
            final(self).backoff.increment_ms == old(self).backoff.increment_ms,
            match outcome {
                PageOutcome::TransportError | PageOutcome::EmptyBody => {
                    &&& final(self).backoff.current_ms == grown(
                        old(self).backoff.current_ms,
                        old(self).backoff.increment_ms,
                    )
                    &&& final(self).cursor == old(self).cursor
                    &&& final(self).interactions == old(self).interactions
                    &&& !final(self).failed
                    &&& final(self).finished == (final(self).pages_used == final(self).max_pages)
                    &&& a == if final(self).finished {
                        Action::Done
                    } else {
                        Action::Retry { wait_ms: final(self).backoff.current_ms }
                    }
                },
                PageOutcome::Malformed => {
                    &&& final(self).backoff == old(self).backoff
                    &&& final(self).cursor == old(self).cursor
                    &&& final(self).interactions == old(self).interactions
                    &&& final(self).failed
                    &&& final(self).finished
                    &&& a == Action::Failed
                },
                PageOutcome::Page { nodes, end_cursor, rate_limit_remaining } => {
                    &&& final(self).backoff.current_ms == old(self).backoff.default_ms
                    &&& final(self).interactions.map() == collected(
                        old(self).interactions.map(),
                        nodes@,
                    )
                    &&& final(self).rate_limit_remaining == rate_limit_remaining
                    &&& !final(self).failed
                    &&& final(self).finished == (end_cursor is None || final(self).pages_used
                        == final(self).max_pages)
                    &&& (end_cursor is Some ==> final(self).cursor == end_cursor)
                    &&& a == if final(self).finished {
                        Action::Done
                    } else {
                        Action::Continue { wait_ms: old(self).backoff.default_ms }
                    }
                },
            },
    {
        self.pages_used = self.pages_used + 1;
        match outcome {
            PageOutcome::TransportError | PageOutcome::EmptyBody => {
                self.backoff.on_failure();
                self.finished = self.pages_used == self.max_pages;
                if self.finished {
                    Action::Done
                } else {
                    Action::Retry { wait_ms: self.backoff.current_ms }
                }
            },
            PageOutcome::Malformed => {
                self.failed = true;
                self.finished = true;
                Action::Failed
            },
            PageOutcome::Page { nodes, end_cursor, rate_limit_remaining } => {
                self.backoff.on_success();
                self.rate_limit_remaining = rate_limit_remaining;
                collect_page(&mut self.interactions, &nodes);
                let at_end = end_cursor.is_none();
                if !at_end {
                    self.cursor = end_cursor;
                }
                self.finished = at_end || self.pages_used == self.max_pages;
                if self.finished {
                    Action::Done
                } else {
                    Action::Continue { wait_ms: self.backoff.current_ms }
                }
            },
        }
    }

    /// Feeds `outcomes` in order, one per request, until the crawl is finished or
    /// they run out, and returns how many were taken in. No more outcomes are taken
    /// than the budget allows, and one outcome for each page of the budget always
    /// finishes the crawl.
    pub fn run(&mut self, outcomes: Vec<PageOutcome>) -> (n: usize)
        requires
            old(self).wf(),
        ensures
            final(self).wf(),
            n <= outcomes@.len(),
            n <= old(self).budget_left(),
            old(self).finished ==> n == 0,
            outcomes@.len() >= old(self).budget_left() ==> final(self).finished,
            n < outcomes@.len() ==> final(self).finished,
            final(self).model() == steps(old(self).model(), outcomes@.take(n as int)),
            forall|j: int| 0 <= j < n ==> !(#[trigger] steps(old(self).model(), outcomes@.take(j))).finished,
            final(self).min_followers == old(self).min_followers,
            final(self).max_pages == old(self).max_pages,
            all_nonempty(final(self).interactions.map()),
    {
        let mut n: usize = 0;
        let ghost start_used = self.pages_used;
        let ghost total = outcomes@.len();
        let ghost all = outcomes@;
        let ghost start = self.model();
        let mut rest = outcomes;
        while !self.finished && rest.len() > 0
            invariant
                self.wf(),
                n + rest@.len() == total,
                self.pages_used == start_used + n,
                start_used <= self.pages_used,
                self.min_followers == old(self).min_followers,
                self.max_pages == old(self).max_pages,
                old(self).finished ==> n == 0 && self.finished,
                all == outcomes@,
                total == all.len(),
                n <= all.len(),
                start == old(self).model(),
                rest@ == all.skip(n as int),
                self.model() == steps(start, all.take(n as int)),
                forall|j: int| 0 <= j < n ==> !(#[trigger] steps(start, all.take(j))).finished,
            decreases rest@.len(),
        {
            let ghost rest_before = rest@;
            let outcome = rest.remove(0);
            proof {
                assert(rest_before[0] == all[n as int]);
                assert(outcome == all[n as int]);
                assert(all.take(n as int + 1).drop_last() =~= all.take(n as int));
                assert(all.take(n as int + 1).last() == all[n as int]);
            }
            self.on_outcome(outcome);
            n = n + 1;
            proof {
                assert(rest@ =~= rest_before.subrange(1, rest_before.len() as int));
                assert(rest@ =~= all.skip(n as int));
            }
        }
        n
    }
}

/// Every crawl ends: a crawl that has not finished has budget left, and each
/// outcome taken in spends one page of it.
pub proof fn lemma_unfinished_has_budget(m: FetchMachine)
    requires
        m.wf(),
        !m.finished,
    ensures
        m.budget_left() > 0,
{
}

/// After `k` consecutive transient failures the wait is the wait before them plus `k`
/// increments, so it strictly increases across them when the increment is positive
/// (as long as it fits in `u64`); the page asked for and the interactions stay as
/// they were. A page straight after them brings the wait back to the default.
pub proof fn lemma_failures_grow_wait(m: FetchModel, failures: Seq<PageOutcome>, page: PageOutcome)
    requires
        forall|i: int|
            0 <= i < failures.len() ==> (#[trigger] failures[i] is TransportError || failures[i] is EmptyBody),
        m.wait_ms + failures.len() * m.increment_ms <= u64::MAX,
        page is Page,
    ensures
        steps(m, failures).wait_ms == m.wait_ms + failures.len() * m.increment_ms,
        steps(m, failures).cursor == m.cursor,
        steps(m, failures).interactions == m.interactions,
        steps(m, failures).increment_ms == m.increment_ms,
        steps(m, failures).default_ms == m.default_ms,
        step(steps(m, failures), page).wait_ms == m.default_ms,
    decreases failures.len(),
{
    if failures.len() > 0 {
        let k = failures.len() - 1;
        assert(0 <= k * m.increment_ms <= failures.len() * m.increment_ms) by (nonlinear_arith)
            requires
                k == failures.len() - 1,
                k >= 0,
        ;
        assert(forall|i: int| 0 <= i < failures.drop_last().len() ==> failures.drop_last()[i] == failures[i]);
        lemma_failures_grow_wait(m, failures.drop_last(), page);
        assert(failures.last() == failures[k]);
        assert(k * m.increment_ms + m.increment_ms == failures.len() * m.increment_ms) by (nonlinear_arith)
            requires
                k == failures.len() - 1,
        ;
    }
}

} // verus!
