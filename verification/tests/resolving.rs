use stacked_pr::pr::PullRequest;
use stacked_pr::render::render_stack;
use stacked_pr::resolve::{ResolveError, StackVisualizer};
use stacked_pr::url::parse_github_url;

fn pr(number: u32, title: &str, body: &str, base: &str, head: &str) -> PullRequest {
    PullRequest {
        number,
        title: title.to_string(),
        body: body.to_string(),
        state: "OPEN".to_string(),
        base_ref: base.to_string(),
        head_ref: head.to_string(),
    }
}

fn numbers(stack: &[PullRequest]) -> Vec<u32> {
    stack.iter().map(|p| p.number).collect()
}

#[test]
fn unrelated_start_resolves_to_itself() {
    let mut v = StackVisualizer::new();
    v.insert(pr(1, "solo", "nothing to see", "dev", "topic"));
    let stack = v.build_stack_graph(1, &vec![1]).unwrap();
    assert_eq!(numbers(&stack), vec![1]);
}

#[test]
fn missing_start_is_fatal() {
    let v = StackVisualizer::new();
    let r = v.build_stack_graph(7, &vec![]);
    assert!(matches!(r, Err(ResolveError::StartNotFound)));
}

#[test]
fn insert_is_write_once() {
    let mut v = StackVisualizer::new();
    v.insert(pr(4, "first", "", "a", "b"));
    v.insert(pr(4, "second", "", "c", "d"));
    assert_eq!(v.fetch_cached(4).unwrap().title, "first");
}

#[test]
fn declared_stack_preserves_order() {
    let mut v = StackVisualizer::new();
    v.insert(pr(10, "A", "Stack:\n- #10 A\n- #11 B\n- #12 C\n", "b10", "h10"));
    v.insert(pr(11, "B", "", "b11", "h11"));
    v.insert(pr(12, "C", "", "b12", "h12"));
    let stack = v.build_stack_graph(10, &vec![10, 11, 12]).unwrap();
    assert_eq!(numbers(&stack), vec![10, 11, 12]);
}

#[test]
fn declared_stack_skips_failed_fetches() {
    let mut v = StackVisualizer::new();
    v.insert(pr(1, "A", "Stack:\n- #1\n- #2\n- #3\n", "b1", "h1"));
    v.insert(pr(3, "C", "", "b3", "h3"));
    let stack = v.build_stack_graph(1, &vec![1, 3]).unwrap();
    assert_eq!(numbers(&stack), vec![1, 3]);
}

#[test]
fn declared_stack_expands_by_branch_chaining() {
    // 3 adjoins 2 by branch, 4 adjoins 3: both are appended to the declared
    // stack, 4 through the appended member 3, until no new request is found.
    let mut v = StackVisualizer::new();
    v.insert(pr(1, "A", "Stack:\n- #1\n- #2\n", "main", "h1"));
    v.insert(pr(2, "B", "", "h1", "h2"));
    v.insert(pr(3, "C", "", "h2", "h3"));
    v.insert(pr(4, "D", "", "h3", "h4"));
    let stack = v.build_stack_graph(1, &vec![1, 2, 3, 4]).unwrap();
    assert_eq!(numbers(&stack), vec![1, 2, 3, 4]);
}

#[test]
fn declared_stack_drops_repeated_numbers() {
    // A list naming the same request twice yields it once, first place kept.
    let mut v = StackVisualizer::new();
    v.insert(pr(1, "A", "Stack:\n- #1\n- #2\n- #1\n", "b1", "h1"));
    v.insert(pr(2, "B", "", "b2", "h2"));
    let stack = v.build_stack_graph(1, &vec![1, 2]).unwrap();
    assert_eq!(numbers(&stack), vec![1, 2]);
}

#[test]
fn reverse_declaration_drops_repeated_numbers() {
    let mut v = StackVisualizer::new();
    v.insert(pr(7, "start", "plain", "b7", "h7"));
    v.insert(pr(8, "declarer", "Stack:\n- #7\n- #9\n- #7\n", "b8", "h8"));
    v.insert(pr(9, "other", "", "b9", "h9"));
    let stack = v.build_stack_graph(7, &vec![7, 8, 9]).unwrap();
    assert_eq!(numbers(&stack), vec![7, 9]);
}

#[test]
fn reverse_declaration_is_found() {
    let mut v = StackVisualizer::new();
    v.insert(pr(7, "start", "no section here", "b7", "h7"));
    v.insert(pr(8, "declarer", "Stack:\n- #7 x\n- #9 y\n", "b8", "h8"));
    v.insert(pr(9, "other", "", "b9", "h9"));
    let stack = v.build_stack_graph(7, &vec![7, 8, 9]).unwrap();
    assert_eq!(numbers(&stack), vec![7, 9]);
}

#[test]
fn reverse_declaration_skips_failed_fetches() {
    let mut v = StackVisualizer::new();
    v.insert(pr(7, "start", "plain", "b7", "h7"));
    v.insert(pr(8, "declarer", "Stack:\n- #7\n- #99\n", "b8", "h8"));
    let stack = v.build_stack_graph(7, &vec![7, 8]).unwrap();
    assert_eq!(numbers(&stack), vec![7]);
}

#[test]
fn branch_chain_sorts_main_based_first() {
    // 2 and 3 are both reachable from 1 by branch chaining; 2 is based on
    // "main" and must come first although 1 is discovered before it.
    let mut v = StackVisualizer::new();
    v.insert(pr(1, "mid", "", "feature-x", "h1"));
    v.insert(pr(2, "bottom", "", "main", "feature-x"));
    v.insert(pr(3, "top", "", "h1", "h3"));
    let stack = v.build_stack_graph(1, &vec![1, 2, 3]).unwrap();
    assert_eq!(numbers(&stack), vec![2, 1, 3]);
}

#[test]
fn dependency_cycle_terminates_with_each_once() {
    let mut v = StackVisualizer::new();
    v.insert(pr(1, "A", "depends on #2", "b1", "h1"));
    v.insert(pr(2, "B", "depends on #1", "b2", "h2"));
    let stack = v.build_stack_graph(1, &vec![1, 2]).unwrap();
    let mut ns = numbers(&stack);
    assert_eq!(ns.len(), 2);
    ns.sort();
    assert_eq!(ns, vec![1, 2]);
}

#[test]
fn dependency_traversal_sorts_by_phrase_count() {
    // 1 names 2; 2 names nothing; 3 names both 1 and 9. Fewest phrases come
    // first, ties keeping discovery order.
    let mut v = StackVisualizer::new();
    v.insert(pr(1, "A", "depends on #2", "b1", "h1"));
    v.insert(pr(2, "B", "quiet", "b2", "h2"));
    v.insert(pr(3, "C", "depends on #1 and requires #9", "b3", "h3"));
    v.insert(pr(9, "I", "quiet", "b9", "h9"));
    let stack = v.build_stack_graph(1, &vec![1, 2, 3]).unwrap();
    assert_eq!(numbers(&stack), vec![2, 9, 1, 3]);
}

#[test]
fn self_reference_is_harmless() {
    let mut v = StackVisualizer::new();
    v.insert(pr(5, "loop", "depends on #5", "b5", "h5"));
    let stack = v.build_stack_graph(5, &vec![5]).unwrap();
    assert_eq!(numbers(&stack), vec![5]);
}

#[test]
fn listing_failure_degrades_to_empty_candidates() {
    // With no open listing the phrase strategies still follow the body's own
    // references.
    let mut v = StackVisualizer::new();
    v.insert(pr(1, "A", "depends on #2", "b1", "h1"));
    v.insert(pr(2, "B", "quiet", "b2", "h2"));
    let stack = v.build_stack_graph(1, &vec![]).unwrap();
    assert_eq!(numbers(&stack), vec![2, 1]);
}

#[test]
fn end_to_end_scenario() {
    let (owner, repo, number) = parse_github_url("https://github.com/o/r/pull/10").unwrap();
    assert_eq!(owner, "o");
    assert_eq!(repo, "r");
    assert_eq!(number, 10);

    let mut v = StackVisualizer::new();
    v.insert(pr(10, "A", "Stack:\n- #10 A\n- #11 B\n- #12 C\n", "b10", "h10"));
    v.insert(pr(11, "B", "", "b11", "h11"));
    v.insert(pr(12, "C", "", "b12", "h12"));
    let stack = v.build_stack_graph(number, &vec![10, 11, 12]).unwrap();
    assert_eq!(numbers(&stack), vec![10, 11, 12]);

    let text = render_stack(&stack, number);
    let expected = "\nstack:\n\
                    - #10 (OPEN): A <-\n\
                    - #11 (OPEN): B\n\
                    - #12 (OPEN): C\n\
                    --------\n\
                    \nstack:\n\
                    - #10 <-\n\
                    - #11\n\
                    - #12\n";
    assert_eq!(text, expected);
}

#[test]
fn render_multi_digit_numbers() {
    let stack = vec![
        pr(105, "wide", "", "main", "h105"),
        pr(7, "narrow", "", "h105", "h7"),
    ];
    let text = render_stack(&stack, 7);
    let expected = "\nstack:\n\
                    - #105 (OPEN): wide\n\
                    - #7 (OPEN): narrow <-\n\
                    --------\n\
                    \nstack:\n\
                    - #105\n\
                    - #7 <-\n";
    assert_eq!(text, expected);
}

#[test]
fn render_empty_stack_is_just_headers() {
    let stack: Vec<stacked_pr::pr::PullRequest> = Vec::new();
    let text = render_stack(&stack, 1);
    assert_eq!(text, "\nstack:\n--------\n\nstack:\n");
}

#[test]
fn referenced_ids_lists_declared_and_phrase_numbers() {
    let mut v = StackVisualizer::new();
    v.insert(pr(1, "A", "Stack:\n- #1\n- #2\ndepends on #6", "b1", "h1"));
    let ids = v.referenced_ids();
    assert_eq!(ids, vec![1, 2, 6]);
}
