use reporeco::backoff::{Backoff, BACKOFF_INCREMENT_MS, JITTER_MAX_MS, JITTER_MIN_MS};
use reporeco::fetch::{collect_page, search_predicate, Action, FetchMachine, PageOutcome, SearchNode};
use reporeco::interactions::InteractionMap;
use reporeco::partition::{net_gathered, partition_bounds};

fn s(x: &str) -> String {
    x.to_string()
}

fn user(id: &str, stars: &[&str]) -> SearchNode {
    SearchNode::User { id: s(id), starred: stars.iter().map(|x| s(x)).collect() }
}

fn page(nodes: Vec<SearchNode>, end_cursor: Option<&str>) -> PageOutcome {
    PageOutcome::Page { nodes, end_cursor: end_cursor.map(s), rate_limit_remaining: Some(4999) }
}

#[test]
fn backoff_grows_on_failures_and_resets_on_success() {
    let mut b = Backoff::new(150, 5000);
    b.on_failure();
    assert_eq!(b.current_ms, 5150);
    b.on_failure();
    assert_eq!(b.current_ms, 10150);
    b.on_success();
    assert_eq!(b.current_ms, 150);
    assert_eq!(b.default_ms, 150);
}

#[test]
fn backoff_alternating_failure_and_success() {
    let mut b = Backoff::new(120, 5000);
    for _ in 0..3 {
        let before = b.current_ms;
        b.on_failure();
        assert!(b.current_ms > before);
        let grown = b.current_ms;
        b.on_failure();
        assert!(b.current_ms > grown);
        b.on_success();
        assert_eq!(b.current_ms, 120);
    }
}

#[test]
fn backoff_saturates_at_the_top() {
    let mut b = Backoff::new(1, u64::MAX - 1);
    b.on_failure();
    b.on_failure();
    assert_eq!(b.current_ms, u64::MAX);
}

#[test]
fn jittered_default_is_in_window() {
    for _ in 0..50 {
        let b = Backoff::jittered();
        assert!(JITTER_MIN_MS <= b.default_ms && b.default_ms < JITTER_MAX_MS);
        assert_eq!(b.current_ms, b.default_ms);
        assert_eq!(b.increment_ms, BACKOFF_INCREMENT_MS);
    }
}

#[test]
fn search_predicate_names_the_bucket() {
    assert_eq!(search_predicate(20), "followers:20");
    assert_eq!(search_predicate(0), "followers:0");
    assert_eq!(search_predicate(4294967295), "followers:4294967295");
}

#[test]
fn collect_page_skips_other_nodes_and_empty_users() {
    let mut m = InteractionMap::new();
    let nodes = vec![user("u1", &["r1", "r2"]), SearchNode::Other, user("u2", &[]), user("u3", &["r3"])];
    collect_page(&mut m, &nodes);
    assert_eq!(m.len(), 2);
    assert_eq!(m.get(&s("u1")), Some(vec![s("r1"), s("r2")]));
    assert_eq!(m.get(&s("u2")), None);
    assert_eq!(m.get(&s("u3")), Some(vec![s("r3")]));
}

#[test]
fn interaction_map_insert_overwrites_in_place() {
    let mut m = InteractionMap::new();
    m.insert(s("a"), vec![s("1")]);
    m.insert(s("b"), vec![s("2")]);
    m.insert(s("a"), vec![s("3")]);
    assert_eq!(m.len(), 2);
    assert_eq!(m.entry(0).0, "a");
    assert_eq!(m.get(&s("a")), Some(vec![s("3")]));
    assert_eq!(m.position(&s("b")), Some(1));
    assert_eq!(m.position(&s("c")), None);
    let pairs = m.flatten();
    assert_eq!(pairs, vec![(s("a"), s("3")), (s("b"), s("2"))]);
}

#[test]
fn first_request_has_no_cursor_then_follows_end_cursor() {
    let mut f = FetchMachine::new(20, 5, 100, 10, Backoff::new(150, 5000));
    let req = f.next_request();
    assert_eq!(req.search, "followers:20");
    assert_eq!(req.cursor, None);
    assert_eq!(req.users_per_page, 5);
    assert_eq!(req.stars_per_user, 100);
    let a = f.on_outcome(page(vec![user("u1", &["r1"])], Some("c1")));
    assert_eq!(a, Action::Continue { wait_ms: 150 });
    assert_eq!(f.next_request().cursor, Some(s("c1")));
    assert_eq!(f.rate_limit_remaining, Some(4999));
}

#[test]
fn transient_failures_retry_same_page_with_growing_wait() {
    let mut f = FetchMachine::new(20, 5, 100, 10, Backoff::new(150, 5000));
    f.on_outcome(page(vec![], Some("c1")));
    assert_eq!(f.on_outcome(PageOutcome::TransportError), Action::Retry { wait_ms: 5150 });
    assert_eq!(f.on_outcome(PageOutcome::EmptyBody), Action::Retry { wait_ms: 10150 });
    assert_eq!(f.next_request().cursor, Some(s("c1")));
    assert_eq!(f.on_outcome(page(vec![user("u1", &["r1"])], None)), Action::Done);
    assert_eq!(f.backoff.current_ms, 150);
    assert!(f.finished);
    assert!(!f.failed);
    assert_eq!(f.pages_used, 4);
}

#[test]
fn malformed_response_fails_the_partition() {
    let mut f = FetchMachine::new(20, 5, 100, 10, Backoff::new(150, 5000));
    assert_eq!(f.on_outcome(PageOutcome::Malformed), Action::Failed);
    assert!(f.finished);
    assert!(f.failed);
}

#[test]
fn run_stops_at_page_budget_on_endless_cursor_chain() {
    let mut f = FetchMachine::new(20, 5, 100, 3, Backoff::new(150, 5000));
    let outcomes: Vec<PageOutcome> = (0..10).map(|i| page(vec![user(&format!("u{}", i), &["r"])], Some("next"))).collect();
    let n = f.run(outcomes);
    assert_eq!(n, 3);
    assert!(f.finished);
    assert_eq!(f.interactions.len(), 3);
}

#[test]
fn run_stops_when_no_end_cursor() {
    let mut f = FetchMachine::new(20, 5, 100, 200, Backoff::new(150, 5000));
    let outcomes = vec![page(vec![user("u1", &["r1"])], Some("c")), page(vec![user("u2", &["r2"])], None), page(vec![user("u3", &["r3"])], None)];
    assert_eq!(f.run(outcomes), 2);
    assert!(f.finished);
    assert_eq!(f.interactions.len(), 2);
}

#[test]
fn run_with_zero_budget_takes_nothing() {
    let mut f = FetchMachine::new(20, 5, 100, 0, Backoff::new(150, 5000));
    assert!(f.finished);
    assert_eq!(f.run(vec![PageOutcome::TransportError]), 0);
}

#[test]
fn failures_count_against_the_budget() {
    let mut f = FetchMachine::new(20, 5, 100, 2, Backoff::new(150, 5000));
    assert_eq!(f.run(vec![PageOutcome::TransportError, PageOutcome::EmptyBody, PageOutcome::TransportError]), 2);
    assert!(f.finished);
    assert_eq!(f.interactions.len(), 0);
}

#[test]
fn partitions_cover_the_range() {
    assert_eq!(partition_bounds(20, 23), vec![20, 21, 22]);
    assert_eq!(partition_bounds(20, 20), Vec::<u32>::new());
    assert_eq!(partition_bounds(21, 20), Vec::<u32>::new());
    assert_eq!(partition_bounds(u32::MAX - 1, u32::MAX), vec![u32::MAX - 1]);
}

#[test]
fn net_gathered_is_the_growth() {
    assert_eq!(net_gathered(3, 5), 2);
    assert_eq!(net_gathered(5, 5), 0);
    assert_eq!(net_gathered(5, 3), 0);
}
