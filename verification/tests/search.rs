//! Drives the traversal algorithms, the default frontier and the node
//! table over the crate's example problems: the balanced binary tree of
//! depth 3 and the number-line walker.

use problem_tree_search::Invertable;
use problem_tree_search::Lookup;
use problem_tree_search::Operable;
use problem_tree_search::ProblemTree;
use problem_tree_search::Queue;
use problem_tree_search::VecDeQueue;
use problem_tree_search::bfs;
use problem_tree_search::dfs;
use problem_tree_search::examples::Branch;
use problem_tree_search::examples::Move;
use problem_tree_search::examples::NodeTable;
use problem_tree_search::examples::TreeNode;
use problem_tree_search::examples::Walker;

/// The goal mask for the single leaf reached by Right, Left, Right.
fn designated_leaf() -> u16 {
    // Bit 0 of the packed path is the first step; Right is 1.
    TreeNode::node_bit(3, 0b101)
}

#[test]
fn queue_is_fifo() {
    let mut q: VecDeQueue<i32> = Queue::new();
    assert!(q.is_empty());
    assert_eq!(q.size(), 0);
    assert_eq!(q.pop(), None);
    q.push(1);
    q.push(2);
    q.push(3);
    assert!(!q.is_empty());
    assert_eq!(q.size(), 3);
    assert_eq!(q.peek(), Some(&1));
    assert_eq!(q.pop(), Some(1));
    q.push(4);
    assert_eq!(q.pop(), Some(2));
    assert_eq!(q.pop(), Some(3));
    assert_eq!(q.pop(), Some(4));
    assert_eq!(q.pop(), None);
    assert!(q.is_empty());
}

#[test]
fn lookup_table_store_then_contains() {
    let mut table = NodeTable::new();
    let root = TreeNode::root(0);
    let left = root.operate(Branch::Left).unwrap();
    let right = root.operate(Branch::Right).unwrap();
    assert!(!table.contains(&left));
    assert_eq!(table.size(), 0);
    table.store(&left);
    assert!(table.contains(&left));
    assert!(!table.contains(&right));
    assert_eq!(table.size(), 1);
    table.store(&right);
    assert!(table.contains(&left));
    assert!(table.contains(&right));
    assert_eq!(table.size(), 2);
    table.store(&left);
    assert!(table.contains(&left));
    assert_eq!(table.size(), 2);
}

#[test]
fn bfs_without_table_finds_the_designated_leaf() {
    let root = TreeNode::root(designated_leaf());
    let found = bfs::without_table::<TreeNode, VecDeQueue<TreeNode>>(root, 3);
    assert_eq!(found, Some(vec![Branch::Right, Branch::Left, Branch::Right]));
}

#[test]
fn bfs_with_table_finds_the_same_leaf_and_counts_visits() {
    let root = TreeNode::root(designated_leaf());
    let mut table = NodeTable::new();
    let found =
        bfs::with_table::<TreeNode, NodeTable, VecDeQueue<TreeNode>>(&root, &mut table, 3);
    assert_eq!(found, Some(vec![Branch::Right, Branch::Left, Branch::Right]));
    // The traversal stores the root, the six inner nodes and five leaves
    // before it reaches the designated leaf; the tree has 15 nodes in all.
    assert_eq!(table.size(), 12);
    assert!(table.size() <= 15);
}

#[test]
fn bfs_returns_a_shortest_path_first() {
    let goals = designated_leaf() | TreeNode::node_bit(1, 0);
    let root = TreeNode::root(goals);
    let found = bfs::without_table::<TreeNode, VecDeQueue<TreeNode>>(root, 3);
    assert_eq!(found, Some(vec![Branch::Left]));
    let mut table = NodeTable::new();
    let tabled =
        bfs::with_table::<TreeNode, NodeTable, VecDeQueue<TreeNode>>(&root, &mut table, 3);
    assert_eq!(tabled, Some(vec![Branch::Left]));
}

#[test]
fn bfs_reports_no_solution_when_nothing_is_solved() {
    let root = TreeNode::root(0);
    let found = bfs::without_table::<TreeNode, VecDeQueue<TreeNode>>(root, 5);
    assert_eq!(found, None);
    let mut table = NodeTable::new();
    let tabled =
        bfs::with_table::<TreeNode, NodeTable, VecDeQueue<TreeNode>>(&root, &mut table, 5);
    assert_eq!(tabled, None);
}

#[test]
fn bfs_tests_children_only_never_the_root() {
    // The root itself is the only goal: breadth-first expansion tests the
    // children it generates, never the initial state.
    let root = TreeNode::root(TreeNode::node_bit(0, 0));
    let found = bfs::without_table::<TreeNode, VecDeQueue<TreeNode>>(root, 3);
    assert_eq!(found, None);
}

#[test]
fn dfs_respects_the_depth_bound() {
    let root = TreeNode::root(designated_leaf());
    assert_eq!(dfs::default(root, 2), None);
    assert_eq!(
        dfs::default(root, 3),
        Some(vec![Branch::Right, Branch::Left, Branch::Right])
    );
}

#[test]
fn dfs_tests_the_root_before_descending() {
    let root = TreeNode::root(TreeNode::node_bit(0, 0));
    assert_eq!(dfs::default(root, 0), Some(Vec::new()));
}

#[test]
fn dfs_takes_the_first_branch_that_solves() {
    // Two goals: the leaf Right at depth 1, and Left, Left at depth 2.
    let goals = TreeNode::node_bit(1, 1) | TreeNode::node_bit(2, 0);
    let root = TreeNode::root(goals);
    // Depth-first order explores the left subtree first, so the deeper
    // goal on the left wins; breadth-first finds the shallower goal.
    assert_eq!(dfs::default(root, 3), Some(vec![Branch::Left, Branch::Left]));
    let breadth = bfs::without_table::<TreeNode, VecDeQueue<TreeNode>>(root, 3);
    assert_eq!(breadth, Some(vec![Branch::Right]));
}

#[test]
fn next_states_drops_failed_operations() {
    let root = TreeNode::root(0);
    let leaf = root
        .operate(Branch::Left)
        .unwrap()
        .operate(Branch::Left)
        .unwrap()
        .operate(Branch::Left)
        .unwrap();
    assert_eq!(leaf.possible_operations().len(), 2);
    assert_eq!(leaf.next_states().len(), 0);
    let edge = Walker::start(2, 0);
    let onward = edge.next_states();
    assert_eq!(onward.len(), 1);
    assert_eq!(onward[0].position(), 1);
}

#[test]
fn operate_leaves_the_receiver_unchanged() {
    let root = TreeNode::root(0);
    let child = root.operate(Branch::Left).unwrap();
    assert_eq!(root.get_prev_operations(), Vec::new());
    assert_eq!(child.get_prev_operations(), vec![Branch::Left]);
}

#[test]
fn operate_mut_rejects_an_illegal_operator() {
    let root = TreeNode::root(0);
    let mut leaf = root
        .operate(Branch::Right)
        .unwrap()
        .operate(Branch::Right)
        .unwrap()
        .operate(Branch::Right)
        .unwrap();
    let before = leaf;
    assert_eq!(leaf.operate_mut(Branch::Left), Err(()));
    assert_eq!(leaf, before);
    let mut edge = Walker::start(2, 0);
    assert_eq!(edge.operate_mut(Move::Inc), Err(()));
    assert_eq!(edge.position(), 2);
}

#[test]
fn child_paths_extend_the_parent_path() {
    let root = TreeNode::root(0);
    let parent = root.operate(Branch::Right).unwrap();
    let child = parent.operate(Branch::Left).unwrap();
    let mut expected = parent.get_prev_operations();
    expected.push(Branch::Left);
    assert_eq!(child.get_prev_operations(), expected);

    let ops = root.possible_operations();
    let children = root.next_states();
    assert_eq!(children.len(), 2);
    for (i, c) in children.iter().enumerate() {
        let mut want = root.get_prev_operations();
        want.push(ops[i]);
        assert_eq!(c.get_prev_operations(), want);
    }
}

#[test]
fn inverting_an_operator_undoes_its_move() {
    assert_eq!(Move::Inc.invert(), Move::Dec);
    assert_eq!(Move::Dec.invert(), Move::Inc);
    assert_eq!(Branch::Left.invert(), Branch::Right);
    let start = Walker::start(0, 2);
    let there = start.operate(Move::Inc).unwrap();
    assert_eq!(there.position(), 1);
    let back = there.operate(Move::Inc.invert()).unwrap();
    // The walker is back on its starting point; only the recorded path
    // remembers the detour.
    assert_eq!(back.position(), start.position());
    assert_eq!(back.get_prev_operations(), vec![Move::Inc, Move::Dec]);
}

#[test]
fn bfs_walks_to_a_target_on_the_line() {
    let start = Walker::start(0, 2);
    let found = bfs::without_table::<Walker, VecDeQueue<Walker>>(start, 4);
    assert_eq!(found, Some(vec![Move::Inc, Move::Inc]));
}

#[test]
fn bfs_gives_up_at_the_depth_bound() {
    let start = Walker::start(0, 2);
    let short = bfs::without_table::<Walker, VecDeQueue<Walker>>(start, 1);
    assert_eq!(short, None);
    let enough = bfs::without_table::<Walker, VecDeQueue<Walker>>(start, 2);
    assert_eq!(enough, Some(vec![Move::Inc, Move::Inc]));
}
