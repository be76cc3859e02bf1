//! Depth-bounded depth-first traversal.
//!
//! Recursive descent over the implicit tree: each call tests the current
//! state for solvedness, gives up on the branch once the depth bound is
//! reached, and otherwise recurses into each child in expansion order,
//! returning on the first branch that yields a solution.

use vstd::prelude::*;

use crate::traits::Invertable;
use crate::traits::ProblemTree;
use crate::traits::lemma_step_path;
use crate::traits::reach;
use crate::traits::step;
use crate::traits::succs;

verus! {

/// Depth-first traversal with an explicit recursion-depth bound.
///
/// Returns the operator path of a solved state reachable within `max_depth`
/// operator applications of `problem`, or `None` exactly when no such state
/// exists. The path found is the first in depth-first pre-order, not
/// necessarily a shortest one; it never uses more than `max_depth`
/// operators beyond the initial state's own path.
pub fn default<Problem>(problem: Problem, max_depth: usize) -> (r: Option<Vec<Problem::Op>>) where
    Problem: ProblemTree,
    Problem::Op: Invertable,

    ensures
        match r {
            Some(ops) => exists|c: Problem, n: nat|
                n <= max_depth && #[trigger] reach(problem, c, n) && c.spec_solved() && ops@
                    == c.spec_path() && ops@.len() == problem.spec_path().len() + n,
            None => forall|s: Problem, n: nat|
                n <= max_depth && #[trigger] reach(problem, s, n) ==> !s.spec_solved(),
        },
{
    default_helper(problem, max_depth, 0)
}

/// The recursive worker behind [`default`]: explores the subtree rooted at
/// `problem`, which sits `current_depth` operator applications below the
/// state the traversal started from.
#[verifier::loop_isolation(false)]
pub fn default_helper<Problem>(
    problem: Problem,
    max_depth: usize,
    current_depth: usize,
) -> (r: Option<Vec<Problem::Op>>) where Problem: ProblemTree, Problem::Op: Invertable
    requires
        current_depth <= max_depth,
    ensures
        match r {
            Some(ops) => exists|c: Problem, n: nat|
                n + current_depth <= max_depth && #[trigger] reach(problem, c, n)
                    && c.spec_solved() && ops@ == c.spec_path() && ops@.len()
                    == problem.spec_path().len() + n,
            None => forall|s: Problem, n: nat|
                n + current_depth <= max_depth && #[trigger] reach(problem, s, n)
                    ==> !s.spec_solved(),
        },
    decreases max_depth - current_depth,
{
    if problem.is_solved() {
        let ops = problem.get_prev_operations();
        proof {
            assert(reach(problem, problem, 0));
        }
        return Some(ops);
    }
    if current_depth >= max_depth {
        return None;
    }

    let mut children = problem.next_states();
    let ghost cs = children@;
    let ghost done: int = 0;
    while children.len() > 0
        invariant
            0 <= done <= cs.len(),
            children@ == cs.skip(done),
            forall|j: int, s: Problem, n: nat|
                0 <= j < done && n + current_depth + 1 <= max_depth && #[trigger] reach(
                    cs[j],
                    s,
                    n,
                ) ==> !s.spec_solved(),
        decreases children@.len(),
    {
        let child = children.remove(0);
        proof {
            assert(child == cs[done]);
            assert(succs(problem).contains(child));
            assert(step(problem, child));
        }
        if let Some(path) = default_helper(child, max_depth, current_depth + 1) {
            proof {
                let (c, n) = choose|c: Problem, n: nat|
                    n + current_depth + 1 <= max_depth && #[trigger] reach(child, c, n)
                        && c.spec_solved() && path@ == c.spec_path() && path@.len()
                        == child.spec_path().len() + n;
                lemma_step_path(problem, child);
                assert(reach(problem, c, n + 1));
            }
            return Some(path);
        }
        proof {
            done = done + 1;
            assert(children@ =~= cs.skip(done));
        }
    }

    proof {
        assert(done == cs.len());
        assert forall|s: Problem, n: nat|
            n + current_depth <= max_depth && #[trigger] reach(problem, s, n)
                implies !s.spec_solved() by {
            if n > 0 {
                let c = choose|c: Problem| #[trigger] step(problem, c) && reach(
                    c,
                    s,
                    (n - 1) as nat,
                );
                let j = choose|j: int| 0 <= j < cs.len() && cs[j] == c;
                assert(reach(cs[j], s, (n - 1) as nat));
            }
        }
    }
    None
}

} // verus!
