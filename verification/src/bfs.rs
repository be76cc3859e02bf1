//! Breadth-first traversal, in two variants: without a deduplication table
//! (may revisit states reached via different operator sequences) and with
//! one (each state the table judges equivalent to a seen one is expanded at
//! most once, at the cost of retaining every visited state).
//!
//! Both variants seed a FIFO frontier with the initial state and repeatedly
//! pop one state, expand it, and return the operator path of the first
//! solved child produced. Because the frontier is FIFO, states are expanded
//! in non-decreasing depth order, which is what makes the path returned by
//! the untabled variant shortest in step count. Expansion stops at an
//! explicit depth bound, so that every traversal provably terminates even
//! on infinite state spaces.

use vstd::prelude::*;

use crate::traits::Invertable;
use crate::traits::Lookup;
use crate::traits::ProblemTree;
use crate::traits::Queue;
use crate::traits::lemma_reach_snoc;
use crate::traits::lemma_step_path;
use crate::traits::reach;
use crate::traits::step;
use crate::traits::succs;

verus! {

/// How many operator applications `s` lies below `root`, measured by the
/// length of its operator path.
spec fn depth_below<P: ProblemTree>(root: P, s: P) -> int {
    s.spec_path().len() - root.spec_path().len()
}

/// Whether some element of the frontier `qs` accounts for the solved state
/// `s` at total depth `m` below `root`: `s` is reachable from that element,
/// and the element's own depth plus the remaining distance is `m`.
spec fn anchored<P: ProblemTree>(qs: Seq<P>, root: P, s: P, m: nat) -> bool {
    exists|i: int, k: nat|
        0 <= i < qs.len() && #[trigger] reach(qs[i], s, k) && depth_below(root, qs[i]) + k == m
}

/// Whether some child of `root` is a goal state.
spec fn solvable_in_one<P: ProblemTree>(root: P) -> bool {
    exists|c: P| #[trigger] step(root, c) && c.spec_solved()
}

/// How many elements of `qs` lie exactly `d` operator applications below
/// `root`.
spec fn count_at<P: ProblemTree>(root: P, qs: Seq<P>, d: int) -> nat
    decreases qs.len(),
{
    if qs.len() == 0 {
        0
    } else {
        (if depth_below(root, qs[0]) == d {
            1nat
        } else {
            0nat
        }) + count_at(root, qs.skip(1), d)
    }
}

/// The number of frontier levels still open below the depth bound: the
/// first component of the termination measure of the traversal loops.
spec fn level_measure<P: ProblemTree>(root: P, qs: Seq<P>, bound: int) -> int {
    if qs.len() == 0 {
        0
    } else {
        bound + 1 - depth_below(root, qs[0])
    }
}

/// The number of frontier elements on the level of the frontier's front:
/// the second component of the termination measure of the traversal loops.
spec fn count_front<P: ProblemTree>(root: P, qs: Seq<P>) -> nat {
    if qs.len() == 0 {
        0
    } else {
        count_at(root, qs, depth_below(root, qs[0]))
    }
}

proof fn lemma_count_at_concat<P: ProblemTree>(root: P, a: Seq<P>, b: Seq<P>, d: int)
    ensures
        count_at(root, a + b, d) == count_at(root, a, d) + count_at(root, b, d),
    decreases a.len(),
{
    if a.len() == 0 {
        assert(a + b =~= b);
    } else {
        assert((a + b)[0] == a[0]);
        assert((a + b).skip(1) =~= a.skip(1) + b);
        lemma_count_at_concat(root, a.skip(1), b, d);
    }
}

proof fn lemma_count_at_none<P: ProblemTree>(root: P, qs: Seq<P>, d: int)
    requires
        forall|i: int| 0 <= i < qs.len() ==> depth_below(root, #[trigger] qs[i]) != d,
    ensures
        count_at(root, qs, d) == 0,
    decreases qs.len(),
{
    if qs.len() > 0 {
        assert forall|i: int|
            0 <= i < qs.skip(1).len() implies depth_below(root, #[trigger] qs.skip(1)[i])
            != d by {
            assert(qs.skip(1)[i] == qs[i + 1]);
        }
        lemma_count_at_none(root, qs.skip(1), d);
    }
}

/// After one expansion the frontier `qs_head` has lost its front (at depth
/// `d`) and gained `tail` (all at depth `d + 1`) at its back: the frontier
/// stays a depth-sorted band of width one within the depth cap, every
/// element stays reachable at its own depth, and the termination measure
/// bookkeeping holds.
proof fn lemma_requeue<P: ProblemTree>(root: P, qs_head: Seq<P>, tail: Seq<P>, d: int, cap: int)
    requires
        qs_head.len() > 0,
        d == depth_below(root, qs_head[0]),
        0 <= d <= cap,
        tail.len() > 0 ==> d + 1 <= cap,
        forall|i: int|
            0 <= i < qs_head.len() ==> depth_below(root, #[trigger] qs_head[i]) >= 0 && reach(
                root,
                qs_head[i],
                depth_below(root, qs_head[i]) as nat,
            ),
        forall|i: int, j: int|
            0 <= i <= j < qs_head.len() ==> depth_below(root, #[trigger] qs_head[i])
                <= depth_below(root, #[trigger] qs_head[j]),
        forall|i: int|
            0 <= i < qs_head.len() ==> depth_below(root, #[trigger] qs_head[i]) <= depth_below(
                root,
                qs_head[0],
            ) + 1,
        forall|i: int| 0 <= i < qs_head.len() ==> depth_below(root, #[trigger] qs_head[i]) <= cap,
        forall|t: int|
            0 <= t < tail.len() ==> depth_below(root, #[trigger] tail[t]) == d + 1 && reach(
                root,
                tail[t],
                (d + 1) as nat,
            ),
    ensures
        forall|i: int|
            0 <= i < (qs_head.skip(1) + tail).len() ==> depth_below(
                root,
                #[trigger] (qs_head.skip(1) + tail)[i],
            ) >= 0 && reach(
                root,
                (qs_head.skip(1) + tail)[i],
                depth_below(root, (qs_head.skip(1) + tail)[i]) as nat,
            ),
        forall|i: int, j: int|
            0 <= i <= j < (qs_head.skip(1) + tail).len() ==> depth_below(
                root,
                #[trigger] (qs_head.skip(1) + tail)[i],
            ) <= depth_below(root, #[trigger] (qs_head.skip(1) + tail)[j]),
        forall|i: int|
            0 <= i < (qs_head.skip(1) + tail).len() ==> depth_below(
                root,
                #[trigger] (qs_head.skip(1) + tail)[i],
            ) <= depth_below(root, (qs_head.skip(1) + tail)[0]) + 1,
        forall|i: int|
            0 <= i < (qs_head.skip(1) + tail).len() ==> depth_below(
                root,
                #[trigger] (qs_head.skip(1) + tail)[i],
            ) <= cap,
        count_at(root, qs_head, d) == 1 + count_at(root, qs_head.skip(1) + tail, d),
        (qs_head.skip(1) + tail).len() > 0 ==> (depth_below(root, (qs_head.skip(1) + tail)[0]) == d
            || depth_below(root, (qs_head.skip(1) + tail)[0]) == d + 1),
{
    let rest = qs_head.skip(1);
    let qs_end = rest + tail;
    assert forall|i: int| 0 <= i < rest.len() implies rest[i] == qs_head[i + 1] by {}
    assert forall|i: int|
        0 <= i < qs_end.len() implies depth_below(root, #[trigger] qs_end[i]) >= 0 && reach(
        root,
        qs_end[i],
        depth_below(root, qs_end[i]) as nat,
    ) && depth_below(root, qs_end[i]) <= cap && d <= depth_below(root, qs_end[i]) <= d + 1 by {
        if i < rest.len() {
            assert(qs_end[i] == qs_head[i + 1]);
            assert(depth_below(root, qs_head[i + 1]) <= depth_below(root, qs_head[0]) + 1);
            assert(depth_below(root, qs_head[0]) <= depth_below(root, qs_head[i + 1]));
        } else {
            assert(qs_end[i] == tail[i - rest.len()]);
        }
    }
    assert forall|i: int, j: int|
        0 <= i <= j < qs_end.len() implies depth_below(root, #[trigger] qs_end[i]) <= depth_below(
        root,
        #[trigger] qs_end[j],
    ) by {
        if i < rest.len() && j < rest.len() {
            assert(qs_end[i] == qs_head[i + 1]);
            assert(qs_end[j] == qs_head[j + 1]);
        } else if i < rest.len() {
            assert(qs_end[i] == qs_head[i + 1]);
            assert(qs_end[j] == tail[j - rest.len()]);
            assert(depth_below(root, qs_head[i + 1]) <= depth_below(root, qs_head[0]) + 1);
        } else {
            assert(qs_end[i] == tail[i - rest.len()]);
            assert(qs_end[j] == tail[j - rest.len()]);
        }
    }
    assert(count_at(root, qs_head, d) == 1 + count_at(root, rest, d)) by {
        assert(qs_head.skip(1) == rest);
        assert(depth_below(root, qs_head[0]) == d);
    }
    assert(count_at(root, qs_end, d) == count_at(root, rest, d)) by {
        lemma_count_at_concat(root, rest, tail, d);
        assert forall|t: int|
            0 <= t < tail.len() implies depth_below(root, #[trigger] tail[t]) != d by {}
        lemma_count_at_none(root, tail, d);
    }
}

/// Breadth-first traversal without a deduplication table.
///
/// Returns the operator path of a solved state reachable from `problem`,
/// found at the smallest possible positive number of operator applications
/// (breadth-first optimality in step count); returns `None` exactly when no
/// state reachable by one to `max_depth` operator applications is solved.
/// Expansion never descends more than `max_depth` operator applications
/// below the initial state, which keeps the traversal finite; states
/// reached via different operator sequences may be expanded repeatedly.
/// The initial state itself is never tested: only children produced by
/// expansion are.
#[verifier::loop_isolation(false)]
pub fn without_table<Problem, Q>(problem: Problem, max_depth: usize) -> (r: Option<
    Vec<Problem::Op>,
>) where Problem: ProblemTree, Problem::Op: Invertable, Q: Queue<Problem>
    ensures
        match r {
            Some(ops) => exists|c: Problem, n: nat|
                1 <= n <= max_depth && #[trigger] reach(problem, c, n) && c.spec_solved() && ops@
                    == c.spec_path() && ops@.len() == problem.spec_path().len() + n && (forall|
                    s: Problem,
                    m: nat,
                |
                    1 <= m < n && #[trigger] reach(problem, s, m) ==> !s.spec_solved()),
            None => forall|s: Problem, m: nat|
                1 <= m <= max_depth && #[trigger] reach(problem, s, m) ==> !s.spec_solved(),
        },
{
    let root_len = problem.get_prev_operations().len();
    let ghost root = problem;
    let mut queue = Q::new();
    queue.push(problem);
    proof {
        assert(reach(root, root, 0));
        assert(queue.contents()[0] == root);
        assert forall|s: Problem, m: nat|
            1 <= m <= max_depth && #[trigger] reach(root, s, m) && s.spec_solved()
                implies anchored(queue.contents(), root, s, m) by {
            assert(reach(queue.contents()[0], s, m));
        }
    }

    while !queue.is_empty()
        invariant
            forall|i: int|
                0 <= i < queue.contents().len() ==> depth_below(
                    root,
                    #[trigger] queue.contents()[i],
                ) >= 0 && reach(
                    root,
                    queue.contents()[i],
                    depth_below(root, queue.contents()[i]) as nat,
                ),
            forall|i: int, j: int|
                0 <= i <= j < queue.contents().len() ==> depth_below(
                    root,
                    #[trigger] queue.contents()[i],
                ) <= depth_below(root, #[trigger] queue.contents()[j]),
            forall|i: int|
                0 <= i < queue.contents().len() ==> depth_below(
                    root,
                    #[trigger] queue.contents()[i],
                ) <= depth_below(root, queue.contents()[0]) + 1,
            forall|i: int|
                0 <= i < queue.contents().len() ==> depth_below(
                    root,
                    #[trigger] queue.contents()[i],
                ) <= max_depth,
            forall|i: int|
                0 <= i < queue.contents().len() && (#[trigger] queue.contents()[i]).spec_solved()
                    ==> depth_below(root, queue.contents()[i]) == 0,
            forall|s: Problem, m: nat|
                1 <= m <= max_depth && #[trigger] reach(root, s, m) && s.spec_solved()
                    ==> anchored(queue.contents(), root, s, m),
        decreases
                level_measure(root, queue.contents(), max_depth as int),
                count_front(root, queue.contents()),
    {
        let ghost qs_head = queue.contents();
        let node = match queue.pop() {
            Some(node) => node,
            None => break ,
        };
        let ghost rest = qs_head.skip(1);
        let ghost d = depth_below(root, node);
        proof {
            assert(node == qs_head[0]);
            assert(d >= 0 && reach(root, node, d as nat));
            assert(d <= max_depth);
        }
        let node_path = node.get_prev_operations();
        let node_depth = node_path.len() - root_len;
        proof {
            assert(node_depth == d);
        }
        let ghost mut tail: Seq<Problem> = Seq::empty();

        if node_depth < max_depth {
            let mut children = node.next_states();
            let ghost cs = children@;
            proof {
                assert(cs == succs(node));
            }
            let ghost done: int = 0;
            while children.len() > 0
                invariant
                    0 <= done <= cs.len(),
                    children@ == cs.skip(done),
                    queue.contents() == rest + cs.take(done),
                    forall|j: int| 0 <= j < done ==> !(#[trigger] cs[j]).spec_solved(),
                decreases children@.len(),
            {
                let child = children.remove(0);
                proof {
                    assert(child == cs[done]);
                    assert(succs(node).contains(child));
                    assert(step(node, child));
                    lemma_step_path(node, child);
                    lemma_reach_snoc(root, node, d as nat, child);
                }
                if child.is_solved() {
                    let ops = child.get_prev_operations();
                    proof {
                        assert forall|s: Problem, m: nat|
                            1 <= m < d + 1 && #[trigger] reach(root, s, m)
                                implies !s.spec_solved() by {
                            if s.spec_solved() {
                                assert(anchored(qs_head, root, s, m));
                                let (i, k) = choose|i: int, k: nat|
                                    0 <= i < qs_head.len() && #[trigger] reach(qs_head[i], s, k)
                                        && depth_below(root, qs_head[i]) + k == m;
                                assert(depth_below(root, qs_head[i]) >= d);
                                if k == 0 {
                                    assert(s == qs_head[i]);
                                    assert(depth_below(root, qs_head[i]) == 0);
                                }
                            }
                        }
                        assert(reach(root, child, (d + 1) as nat));
                    }
                    return Some(ops);
                } else {
                    queue.push(child);
                }
                proof {
                    done = done + 1;
                    assert(children@ =~= cs.skip(done));
                    assert(queue.contents() =~= rest + cs.take(done));
                }
            }
            proof {
                assert(done == cs.len());
                assert(cs.take(done) =~= cs);
                tail = cs;
            }
        }

        proof {
            let qs_end = queue.contents();
            assert(qs_end =~= rest + tail);
            assert forall|t: int|
                0 <= t < tail.len() implies depth_below(root, #[trigger] tail[t]) == d + 1 && reach(
                root,
                tail[t],
                (d + 1) as nat,
            ) && !tail[t].spec_solved() by {
                assert(succs(node).contains(tail[t]));
                assert(step(node, tail[t]));
                lemma_step_path(node, tail[t]);
                lemma_reach_snoc(root, node, d as nat, tail[t]);
            }
            lemma_requeue(root, qs_head, tail, d, max_depth as int);
            assert forall|s: Problem, m: nat|
                1 <= m <= max_depth && #[trigger] reach(root, s, m) && s.spec_solved()
                    implies anchored(qs_end, root, s, m) by {
                assert(anchored(qs_head, root, s, m));
                let (i, k) = choose|i: int, k: nat|
                    0 <= i < qs_head.len() && #[trigger] reach(qs_head[i], s, k) && depth_below(
                        root,
                        qs_head[i],
                    ) + k == m;
                if i >= 1 {
                    assert(qs_end[i - 1] == qs_head[i]);
                    assert(reach(qs_end[i - 1], s, k));
                } else {
                    assert(qs_head[0] == node);
                    if k == 0 {
                        assert(s == node);
                        assert(depth_below(root, qs_head[0]) == 0);
                        assert(false);
                    } else if d < max_depth {
                        let c = choose|c: Problem| #[trigger] step(node, c) && reach(
                            c,
                            s,
                            (k - 1) as nat,
                        );
                        let j = choose|j: int| 0 <= j < tail.len() && tail[j] == c;
                        assert(qs_end[rest.len() + j] == c);
                        assert(reach(qs_end[rest.len() + j], s, (k - 1) as nat));
                        assert(depth_below(root, qs_end[rest.len() + j]) + (k - 1) == m);
                    } else {
                        assert(m == d + k);
                        assert(m > max_depth);
                        assert(false);
                    }
                }
            }
        }
    }

    proof {
        assert(queue.contents().len() == 0);
        assert forall|s: Problem, m: nat|
            1 <= m <= max_depth && #[trigger] reach(root, s, m) implies !s.spec_solved() by {
            if s.spec_solved() {
                assert(anchored(queue.contents(), root, s, m));
                let (i, k) = choose|i: int, k: nat|
                    0 <= i < queue.contents().len() && #[trigger] reach(queue.contents()[i], s, k)
                        && depth_below(root, queue.contents()[i]) + k == m;
                assert(false);
            }
        }
    }
    None
}

/// Breadth-first traversal with a deduplication table.
///
/// As [`without_table`], but before a child is pushed the table is asked
/// whether an equivalent state was already seen: if so the child is
/// discarded silently, otherwise it is pushed and stored. The initial state
/// is stored before the traversal starts, the table only ever grows, and
/// every path returned leads to a solved state reachable within
/// `max_depth` operator applications. Which states the table judges
/// equivalent is the table's own notion; a coarse table may therefore cut
/// off every path to a solved state, so exhaustion promises only that no
/// child of the initial state itself is solved (the initial state's own
/// expansion is never suppressed).
///
/// Deduplication is what the table buys: the loop maintains, as checked
/// invariants over the ghost history `expanded`, that every state ever
/// expanded is recorded in the table, that no state is expanded twice, and
/// that no state the table contains is ever pushed again, so each distinct
/// state value has its children generated at most once per traversal.
#[verifier::loop_isolation(false)]
pub fn with_table<Problem, Table, Q>(problem: &Problem, table: &mut Table, max_depth: usize) -> (r:
    Option<Vec<Problem::Op>>) where
    Problem: ProblemTree,
    Problem::Op: Invertable,
    Table: Lookup<Problem>,
    Q: Queue<Problem>,

    ensures
        final(table).spec_contains(*problem),
        forall|x: Problem| old(table).spec_contains(x) ==> final(table).spec_contains(x),
        match r {
            Some(ops) => exists|c: Problem, n: nat|
                1 <= n <= max_depth && #[trigger] reach(*problem, c, n) && c.spec_solved() && ops@
                    == c.spec_path() && ops@.len() == problem.spec_path().len() + n,
            None => max_depth >= 1 ==> forall|c: Problem|
                #[trigger] step(*problem, c) ==> !c.spec_solved(),
        },
{
    let root_len = problem.get_prev_operations().len();
    let ghost root = *problem;
    let mut queue = Q::new();
    queue.push(problem.duplicate());
    table.store(problem);
    let ghost mut expanded: Seq<Problem> = Seq::empty();
    proof {
        assert(reach(root, root, 0));
        assert(queue.contents()[0] == root);
        assert(queue.contents().contains(root));
    }

    while !queue.is_empty()
        invariant
            table.spec_contains(*problem),
            forall|x: Problem| old(table).spec_contains(x) ==> table.spec_contains(x),
            forall|i: int|
                0 <= i < queue.contents().len() ==> table.spec_contains(
                    #[trigger] queue.contents()[i],
                ),
            forall|i: int, j: int|
                0 <= i < j < queue.contents().len() ==> #[trigger] queue.contents()[i]
                    != #[trigger] queue.contents()[j],
            forall|i: int| 0 <= i < expanded.len() ==> table.spec_contains(#[trigger] expanded[i]),
            forall|i: int, j: int|
                0 <= i < j < expanded.len() ==> #[trigger] expanded[i] != #[trigger] expanded[j],
            forall|i: int, j: int|
                0 <= i < queue.contents().len() && 0 <= j < expanded.len()
                    ==> #[trigger] queue.contents()[i] != #[trigger] expanded[j],
            forall|i: int|
                0 <= i < queue.contents().len() ==> depth_below(
                    root,
                    #[trigger] queue.contents()[i],
                ) >= 0 && reach(
                    root,
                    queue.contents()[i],
                    depth_below(root, queue.contents()[i]) as nat,
                ),
            forall|i: int, j: int|
                0 <= i <= j < queue.contents().len() ==> depth_below(
                    root,
                    #[trigger] queue.contents()[i],
                ) <= depth_below(root, #[trigger] queue.contents()[j]),
            forall|i: int|
                0 <= i < queue.contents().len() ==> depth_below(
                    root,
                    #[trigger] queue.contents()[i],
                ) <= depth_below(root, queue.contents()[0]) + 1,
            forall|i: int|
                0 <= i < queue.contents().len() ==> depth_below(
                    root,
                    #[trigger] queue.contents()[i],
                ) <= max_depth,
            solvable_in_one(root) && max_depth >= 1 ==> queue.contents().contains(root),
        decreases
                level_measure(root, queue.contents(), max_depth as int),
                count_front(root, queue.contents()),
    {
        let ghost qs_head = queue.contents();
        let node = match queue.pop() {
            Some(node) => node,
            None => break ,
        };
        let ghost rest = qs_head.skip(1);
        let ghost d = depth_below(root, node);
        proof {
            assert(node == qs_head[0]);
            assert(d >= 0 && reach(root, node, d as nat));
            assert(d <= max_depth);
        }
        let node_path = node.get_prev_operations();
        let node_depth = node_path.len() - root_len;
        proof {
            assert(node_depth == d);
        }
        let ghost mut tail: Seq<Problem> = Seq::empty();
        let ghost mut expanded_all_unsolved = false;

        if node_depth < max_depth {
            let mut children = node.next_states();
            let ghost cs = children@;
            let ghost expanded0 = expanded;
            proof {
                assert(cs == succs(node));
                expanded = expanded.push(node);
                assert(queue.contents() =~= rest + tail);
                assert forall|i: int|
                    0 <= i < queue.contents().len() implies table.spec_contains(
                    #[trigger] queue.contents()[i],
                ) by {
                    assert(queue.contents()[i] == qs_head[i + 1]);
                }
                assert forall|i: int, j: int|
                    0 <= i < j < queue.contents().len() implies #[trigger] queue.contents()[i]
                    != #[trigger] queue.contents()[j] by {
                    assert(queue.contents()[i] == qs_head[i + 1]);
                    assert(queue.contents()[j] == qs_head[j + 1]);
                }
                assert forall|i: int|
                    0 <= i < expanded.len() implies table.spec_contains(#[trigger] expanded[i]) by {
                    if i < expanded0.len() {
                        assert(expanded[i] == expanded0[i]);
                    } else {
                        assert(expanded[i] == node && node == qs_head[0]);
                    }
                }
                assert forall|i: int, j: int|
                    0 <= i < j < expanded.len() implies #[trigger] expanded[i]
                    != #[trigger] expanded[j] by {
                    assert(expanded[i] == expanded0[i]);
                    if j < expanded0.len() {
                        assert(expanded[j] == expanded0[j]);
                    } else {
                        assert(expanded[j] == node && node == qs_head[0]);
                    }
                }
                assert forall|i: int, j: int|
                    0 <= i < queue.contents().len() && 0 <= j < expanded.len()
                        implies #[trigger] queue.contents()[i] != #[trigger] expanded[j] by {
                    assert(queue.contents()[i] == qs_head[i + 1]);
                    if j < expanded0.len() {
                        assert(expanded[j] == expanded0[j]);
                    } else {
                        assert(expanded[j] == node && node == qs_head[0]);
                    }
                }
            }
            let ghost done: int = 0;
            while children.len() > 0
                invariant
                    0 <= done <= cs.len(),
                    children@ == cs.skip(done),
                    queue.contents() == rest + tail,
                    table.spec_contains(*problem),
                    forall|x: Problem| old(table).spec_contains(x) ==> table.spec_contains(x),
                    forall|j: int| 0 <= j < done ==> !(#[trigger] cs[j]).spec_solved(),
                    forall|t: int|
                        0 <= t < tail.len() ==> depth_below(root, #[trigger] tail[t]) == d + 1
                            && reach(root, tail[t], (d + 1) as nat),
                    forall|i: int|
                        0 <= i < queue.contents().len() ==> table.spec_contains(
                            #[trigger] queue.contents()[i],
                        ),
                    forall|i: int, j: int|
                        0 <= i < j < queue.contents().len() ==> #[trigger] queue.contents()[i]
                            != #[trigger] queue.contents()[j],
                    forall|i: int|
                        0 <= i < expanded.len() ==> table.spec_contains(#[trigger] expanded[i]),
                    forall|i: int, j: int|
                        0 <= i < j < expanded.len() ==> #[trigger] expanded[i]
                            != #[trigger] expanded[j],
                    forall|i: int, j: int|
                        0 <= i < queue.contents().len() && 0 <= j < expanded.len()
                            ==> #[trigger] queue.contents()[i] != #[trigger] expanded[j],
                decreases children@.len(),
            {
                let child = children.remove(0);
                proof {
                    assert(child == cs[done]);
                    assert(succs(node).contains(child));
                    assert(step(node, child));
                    lemma_step_path(node, child);
                    lemma_reach_snoc(root, node, d as nat, child);
                }
                if child.is_solved() {
                    let ops = child.get_prev_operations();
                    proof {
                        assert(reach(root, child, (d + 1) as nat));
                    }
                    return Some(ops);
                } else if !table.contains(&child) {
                    queue.push(child.duplicate());
                    table.store(&child);
                    proof {
                        tail = tail.push(child);
                        assert(queue.contents() =~= rest + tail);
                    }
                }
                proof {
                    done = done + 1;
                    assert(children@ =~= cs.skip(done));
                }
            }
            proof {
                assert(done == cs.len());
                expanded_all_unsolved = true;
            }
        }

        proof {
            let qs_end = queue.contents();
            assert(qs_end =~= rest + tail);
            lemma_requeue(root, qs_head, tail, d, max_depth as int);
            assert forall|i: int|
                0 <= i < qs_end.len() implies table.spec_contains(#[trigger] qs_end[i]) by {
                if i < rest.len() {
                    assert(qs_end[i] == qs_head[i + 1]);
                }
            }
            assert forall|i: int, j: int|
                0 <= i < j < qs_end.len() implies #[trigger] qs_end[i] != #[trigger] qs_end[j] by {
                if i < rest.len() {
                    assert(qs_end[i] == qs_head[i + 1]);
                }
                if j < rest.len() {
                    assert(qs_end[j] == qs_head[j + 1]);
                }
            }
            assert forall|i: int, j: int|
                0 <= i < qs_end.len() && 0 <= j < expanded.len() implies #[trigger] qs_end[i]
                != #[trigger] expanded[j] by {
                if i < rest.len() {
                    assert(qs_end[i] == qs_head[i + 1]);
                }
            }
            if solvable_in_one(root) && max_depth >= 1 {
                let i = choose|i: int| 0 <= i < qs_head.len() && qs_head[i] == root;
                if i >= 1 {
                    assert(qs_end[i - 1] == qs_head[i]);
                    assert(qs_end.contains(root));
                } else {
                    assert(node == root);
                    assert(d == 0);
                    assert(expanded_all_unsolved);
                    let c = choose|c: Problem| #[trigger] step(root, c) && c.spec_solved();
                    let j = choose|j: int| 0 <= j < succs(node).len() && succs(node)[j] == c;
                    assert(false);
                }
            }
        }
    }

    proof {
        assert(queue.contents().len() == 0);
        if max_depth >= 1 {
            assert forall|c: Problem| #[trigger] step(root, c) implies !c.spec_solved() by {
                if c.spec_solved() {
                    assert(solvable_in_one(root));
                    assert(queue.contents().contains(root));
                    assert(false);
                }
            }
        }
    }
    None
}

} // verus!
