use navi::block::{Block, BlockKind};
use navi::expand::BlockRootExpander;
use navi::listing::{BatchDecision, decide_page_batch, window_cutoff, DAY_MS};
use navi::roots::{BlockRootFinder, DEFAULT_SEARCH_BUDGET_MS};
use navi::snapshot::{BlockSnapshot, SnapshotEntry};
use navi::traversal::{TraversalStep, contains_id};
use navi::tree::build_markdown_from_trees;

const NOW: i64 = 1_700_000_000_000;

fn node(id: &str, text: &str, update_date: i64, has_children: bool) -> Block {
    Block {
        id: id.to_string(),
        page_id: "page".to_string(),
        block_type: BlockKind::Paragraph,
        text: text.to_string(),
        creation_date: 0,
        update_date,
        parent_block_id: None,
        has_children,
    }
}

fn entry(parent: &str, children: Vec<Block>) -> SnapshotEntry {
    SnapshotEntry { parent_id: parent.to_string(), children }
}

fn ids(blocks: &[Block]) -> Vec<&str> {
    blocks.iter().map(|b| b.id.as_str()).collect()
}

fn find(snapshot: &BlockSnapshot, children: Vec<Block>, cutoff: i64) -> Vec<Block> {
    let mut finder = BlockRootFinder::with_deadline(children, cutoff, NOW, DEFAULT_SEARCH_BUDGET_MS);
    snapshot.run_finder(&mut finder, NOW);
    assert!(!finder.was_truncated());
    finder.into_roots()
}

fn expand(snapshot: &BlockSnapshot, roots: Vec<Block>) -> String {
    let mut expander = BlockRootExpander::new(roots);
    snapshot.run_expander(&mut expander);
    assert!(expander.is_done());
    build_markdown_from_trees(expander.into_trees())
}

#[test]
fn recent_task_expands_with_its_subtasks() {
    let a = node("a", "Task", NOW, true);
    let snapshot = BlockSnapshot {
        entries: vec![entry("a", vec![node("b", "Sub 1", 0, false), node("c", "Sub 2", 0, false)])],
    };
    let roots = find(&snapshot, vec![a], NOW - DAY_MS);
    assert_eq!(ids(&roots), vec!["a"]);
    assert_eq!(expand(&snapshot, roots), "Task\n\tSub 1\n\tSub 2\n");
}

#[test]
fn search_stops_at_the_highest_recent_block() {
    let snapshot = BlockSnapshot {
        entries: vec![
            entry("x", vec![node("y", "Y", NOW, true), node("w", "W", 10, false)]),
            entry("y", vec![node("z", "Z", NOW, false)]),
        ],
    };
    let roots = find(&snapshot, vec![node("x", "X", 10, true)], 100);
    assert_eq!(ids(&roots), vec!["y"]);
}

#[test]
fn roots_come_breadth_first() {
    let snapshot = BlockSnapshot {
        entries: vec![
            entry("p", vec![node("q", "Q", 10, true), node("r", "R", NOW, false)]),
            entry("q", vec![node("s", "S", NOW, false)]),
        ],
    };
    let top = vec![node("p", "P", 10, true), node("t", "T", NOW, false)];
    let roots = find(&snapshot, top, 100);
    assert_eq!(ids(&roots), vec!["t", "r", "s"]);
}

#[test]
fn empty_recent_blocks_are_no_roots_and_not_searched() {
    let snapshot = BlockSnapshot {
        entries: vec![entry("e", vec![node("f", "F", NOW, false)])],
    };
    let roots = find(&snapshot, vec![node("e", "", NOW, true), node("g", "", NOW, false)], 100);
    assert!(roots.is_empty());
}

#[test]
fn stale_block_without_children_is_not_fetched() {
    let mut finder = BlockRootFinder::with_deadline(vec![node("a", "A", 10, false)], 100, NOW, 0);
    assert_eq!(finder.next_step(NOW), TraversalStep::Continue);
    assert_eq!(finder.next_step(NOW), TraversalStep::Done);
    assert!(finder.roots().is_empty());
}

#[test]
fn raising_the_cutoff_keeps_a_subset_when_ancestors_are_old() {
    let snapshot = BlockSnapshot {
        entries: vec![entry("p", vec![node("a", "A", 500, false), node("b", "B", 900, false)])],
    };
    let low = find(&snapshot, vec![node("p", "P", 10, true)], 400);
    let high = find(&snapshot, vec![node("p", "P", 10, true)], 800);
    assert_eq!(ids(&low), vec!["a", "b"]);
    assert_eq!(ids(&high), vec!["b"]);
}

#[test]
fn self_child_is_fetched_once_by_the_finder() {
    let snapshot = BlockSnapshot { entries: vec![entry("a", vec![node("a", "A", 10, true)])] };
    let mut finder = BlockRootFinder::with_deadline(vec![node("a", "A", 10, true)], 100, NOW, 1000);
    let mut fetches = 0;
    loop {
        match finder.next_step(NOW) {
            TraversalStep::Fetch(id) => {
                fetches += 1;
                assert!(fetches < 10);
                finder.deliver_children(snapshot.children_of(&id));
            }
            TraversalStep::Continue => {}
            TraversalStep::Done => break,
        }
    }
    assert_eq!(fetches, 1);
    assert!(finder.into_roots().is_empty());
}

#[test]
fn self_child_is_fetched_once_by_the_expander() {
    let snapshot = BlockSnapshot { entries: vec![entry("a", vec![node("a", "A", 10, true)])] };
    let mut expander = BlockRootExpander::new(vec![node("a", "A", NOW, true)]);
    let mut fetches = 0;
    loop {
        match expander.next_step() {
            TraversalStep::Fetch(id) => {
                fetches += 1;
                assert!(fetches < 10);
                expander.deliver_children(snapshot.children_of(&id));
            }
            TraversalStep::Continue => {}
            TraversalStep::Done => break,
        }
    }
    assert_eq!(fetches, 1);
    assert_eq!(build_markdown_from_trees(expander.into_trees()), "A\n");
}

#[test]
fn longer_cycle_terminates() {
    let snapshot = BlockSnapshot {
        entries: vec![
            entry("a", vec![node("b", "B", 10, true)]),
            entry("b", vec![node("a", "A", 10, true), node("c", "C", NOW, false)]),
        ],
    };
    let roots = find(&snapshot, vec![node("a", "A", 10, true)], 100);
    assert_eq!(ids(&roots), vec!["c"]);
    assert_eq!(expand(&snapshot, vec![node("a", "A", NOW, true)]), "A\n\tB\n\t\tC\n");
}

#[test]
fn duplicates_across_roots_are_expanded_once() {
    let snapshot = BlockSnapshot {
        entries: vec![
            entry("r1", vec![node("s", "Shared", 0, true)]),
            entry("r2", vec![node("s", "Shared", 0, true), node("t", "", 0, false)]),
            entry("s", vec![node("u", "Under", 0, false)]),
        ],
    };
    let out = expand(&snapshot, vec![node("r1", "One", NOW, true), node("r2", "Two", NOW, true)]);
    assert_eq!(out, "One\n\tShared\n\t\tUnder\nTwo\n");
}

#[test]
fn zero_budget_stops_before_any_fetch() {
    let top = vec![node("a", "A", 10, true), node("b", "B", NOW, false)];
    let mut finder = BlockRootFinder::with_deadline(top, 100, NOW, 0);
    assert_eq!(finder.next_step(NOW + 1), TraversalStep::Done);
    assert!(finder.was_truncated());
    assert!(finder.roots().is_empty());
    assert_eq!(finder.next_step(NOW), TraversalStep::Done);
}

#[test]
fn deadline_keeps_roots_found_so_far() {
    let top = vec![node("a", "A", NOW, false), node("b", "B", NOW, false)];
    let mut finder = BlockRootFinder::with_deadline(top, 100, NOW, 5);
    assert_eq!(finder.next_step(NOW + 5), TraversalStep::Continue);
    assert_eq!(finder.next_step(NOW + 6), TraversalStep::Done);
    assert!(finder.was_truncated());
    assert_eq!(ids(&finder.into_roots()), vec!["a"]);
}

#[test]
fn deadline_saturates() {
    let mut finder = BlockRootFinder::with_deadline(vec![node("a", "A", 10, false)], 0, i64::MAX - 1, 10);
    assert_eq!(finder.next_step(i64::MAX), TraversalStep::Continue);
}

#[test]
fn pending_fetch_is_asked_again_until_answered() {
    let mut finder = BlockRootFinder::with_deadline(vec![node("a", "A", 10, true)], 100, NOW, 0);
    assert_eq!(finder.next_step(NOW), TraversalStep::Fetch("a".to_string()));
    assert_eq!(finder.next_step(NOW + 100), TraversalStep::Fetch("a".to_string()));
    finder.deliver_children(vec![node("b", "B", NOW, false)]);
    finder.deliver_children(vec![node("c", "C", NOW, false)]);
    assert_eq!(finder.next_step(NOW + 100), TraversalStep::Done);
    assert!(finder.was_truncated());
}

#[test]
fn clock_driven_finder_runs() {
    let mut finder = BlockRootFinder::new(vec![node("a", "A", 10, false), node("b", "B", 200, false)], 100);
    loop {
        match finder.poll() {
            TraversalStep::Done => break,
            TraversalStep::Continue => {}
            TraversalStep::Fetch(_) => panic!("nothing has children"),
        }
    }
    assert_eq!(ids(&finder.into_roots()), vec!["b"]);
}

#[test]
fn expander_without_roots_is_done() {
    let mut expander = BlockRootExpander::new(Vec::new());
    assert!(expander.is_done());
    assert_eq!(expander.next_step(), TraversalStep::Done);
    assert!(expander.into_trees().is_empty());
}

#[test]
fn expander_skips_empty_children() {
    let snapshot = BlockSnapshot {
        entries: vec![entry("a", vec![node("b", "", 0, true), node("c", "C", 0, false)]), entry("b", vec![node("d", "D", 0, false)])],
    };
    assert_eq!(expand(&snapshot, vec![node("a", "A", NOW, true)]), "A\n\tC\n");
}

#[test]
fn snapshot_lookup_takes_the_first_entry() {
    let snapshot = BlockSnapshot {
        entries: vec![entry("a", vec![node("x", "X", 0, false)]), entry("a", vec![node("y", "Y", 0, false)])],
    };
    assert_eq!(ids(&snapshot.children_of(&"a".to_string())), vec!["x"]);
    assert!(snapshot.children_of(&"b".to_string()).is_empty());
}

#[test]
fn id_membership() {
    let seen = vec!["a".to_string(), "b".to_string()];
    assert!(contains_id(&seen, &"b".to_string()));
    assert!(!contains_id(&seen, &"c".to_string()));
    assert!(!contains_id(&Vec::new(), &"a".to_string()));
}

#[test]
fn page_batches_stop_at_the_first_old_page() {
    assert_eq!(decide_page_batch(&vec![30, 20, 5, 40], 10, true), BatchDecision { keep: 2, done: true });
    assert_eq!(decide_page_batch(&vec![30, 20], 10, true), BatchDecision { keep: 2, done: false });
    assert_eq!(decide_page_batch(&vec![30, 20], 10, false), BatchDecision { keep: 2, done: true });
    assert_eq!(decide_page_batch(&vec![10], 10, true), BatchDecision { keep: 1, done: false });
    assert_eq!(decide_page_batch(&Vec::new(), 10, true), BatchDecision { keep: 0, done: false });
}

#[test]
fn cutoff_is_whole_days_back() {
    assert_eq!(window_cutoff(NOW, 7), NOW - 7 * 86_400_000);
    assert_eq!(window_cutoff(NOW, 0), NOW);
    assert_eq!(window_cutoff(i64::MIN + 5, 1), i64::MIN);
}
