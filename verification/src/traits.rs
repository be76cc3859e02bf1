//! The contracts a problem must satisfy to be searchable, the frontier and
//! lookup-table abstractions the traversal algorithms are built on, and the
//! mathematical model of the search space (successor states, reachability)
//! that the algorithms' contracts are stated over.

use vstd::prelude::*;
use vstd::multiset::Multiset;

verus! {

/// The frontier abstraction: an ordered container of pending problem states.
///
/// The container is modelled by the sequence of items it holds, in the order
/// they will leave it. The contract is first-in-first-out: `push` appends to
/// the tail and `pop` removes from the head, which is the discipline the
/// breadth-first traversals rely on.
pub trait Queue<Item>: Sized {
    /// The items currently held, front first.
    spec fn contents(self) -> Seq<Item>;

    /// An empty frontier.
    fn new() -> (q: Self)
        ensures
            q.contents() == Seq::<Item>::empty(),
    ;

    /// Append `item` at the tail.
    fn push(&mut self, item: Item)
        ensures
            final(self).contents() == old(self).contents().push(item),
    ;

    /// Borrow the item at the head, if any.
    fn peek(&self) -> (r: Option<&Item>)
        ensures
            match r {
                Some(x) => self.contents().len() > 0 && *x == self.contents()[0],
                None => self.contents().len() == 0,
            },
    ;

    /// Remove and return the item at the head, if any.
    fn pop(&mut self) -> (r: Option<Item>)
        ensures
            match r {
                Some(x) => old(self).contents().len() > 0 && x == old(self).contents()[0]
                    && final(self).contents() == old(self).contents().skip(1),
                None => old(self).contents().len() == 0
                    && final(self).contents() == old(self).contents(),
            },
    ;

    /// Whether no item is pending.
    fn is_empty(&self) -> (r: bool)
        ensures
            r == (self.contents().len() == 0),
    ;

    /// The number of pending items.
    fn size(&self) -> (r: usize)
        ensures
            r == self.contents().len(),
    ;
}

/// A priority-ordered frontier: a declared extension point for best-first
/// search. No algorithm in this crate consumes it.
///
/// The container is modelled by the multiset of item/priority pairs it
/// holds; which pair `pop` selects is the concrete type's discipline and is
/// deliberately not pinned down here, so membership is all the contract
/// states.
pub trait PrioQueue<Item, Prio>: Sized where Prio: PartialOrd {
    /// The item/priority pairs currently held.
    spec fn prio_contents(self) -> Multiset<(Item, Prio)>;

    /// An empty frontier.
    fn new() -> (q: Self)
        ensures
            q.prio_contents() == Multiset::<(Item, Prio)>::empty(),
    ;

    /// Insert `item` with priority `prio`.
    fn push(&mut self, item: Item, prio: Prio)
        ensures
            final(self).prio_contents() == old(self).prio_contents().insert((item, prio)),
    ;

    /// Borrow one held pair, if any.
    fn peek(&self) -> (r: Option<(&Item, &Prio)>)
        ensures
            match r {
                Some(ip) => self.prio_contents().contains((*ip.0, *ip.1)),
                None => self.prio_contents().len() == 0,
            },
    ;

    /// Remove and return one held pair, if any; which one is the concrete
    /// type's discipline.
    fn pop(&mut self) -> (r: Option<(Item, Prio)>)
        ensures
            match r {
                Some(ip) => old(self).prio_contents().contains(ip)
                    && final(self).prio_contents() == old(self).prio_contents().remove(ip),
                None => old(self).prio_contents().len() == 0
                    && final(self).prio_contents() == old(self).prio_contents(),
            },
    ;

    /// Whether no pair is pending.
    fn is_empty(&self) -> (r: bool)
        ensures
            r == (self.prio_contents().len() == 0),
    ;

    /// The number of pending pairs.
    fn size(&self) -> (r: usize)
        ensures
            r == self.prio_contents().len(),
    ;
}

/// A heuristic value for best-first search: a declared extension point.
pub trait Heuristic: Sized {
    /// The heuristic value of this state.
    spec fn spec_h(self) -> nat;

    /// Return the heuristic value of this state.
    fn h(&self) -> (r: usize)
        ensures
            r == self.spec_h(),
    ;
}

/// A distance between two values: a declared extension point for best-first
/// search.
pub trait Norm<RHS = Self>: Sized where RHS: Sized {
    /// The type of the distance.
    type Result;

    /// The distance from `self` to `other`.
    spec fn spec_d(self, other: RHS) -> Self::Result;

    /// Return the distance from `self` to `other`.
    fn d(&self, other: &RHS) -> (r: Self::Result)
        ensures
            r == self.spec_d(*other),
    ;
}

/// The visited-state set used by the tabled breadth-first traversal to
/// suppress redundant expansion.
///
/// The table is modelled by the predicate `spec_contains`: which values it
/// answers `true` for. Storing a value makes the table contain it and forgets
/// nothing (entries persist for the lifetime of one traversal); a table may
/// consider further values equivalent to a stored one and contain those too,
/// so `store` bounds the table from below, never from above.
pub trait Lookup<T>: Sized {
    /// Whether the table currently answers `true` for `el`.
    spec fn spec_contains(self, el: T) -> bool;

    /// The number of elements currently stored.
    spec fn spec_size(self) -> nat;

    /// Record `el` in the table, without changing `el` itself.
    fn store(&mut self, el: &T)
        ensures
            final(self).spec_contains(*el),
            forall|x: T| old(self).spec_contains(x) ==> final(self).spec_contains(x),
            old(self).spec_size() <= final(self).spec_size() <= old(self).spec_size() + 1,
    ;

    /// Whether `el` is stored in the table (or is considered equivalent to a
    /// stored element).
    fn contains(&self, el: &T) -> (r: bool)
        ensures
            r == self.spec_contains(*el),
    ;

    /// The number of elements currently stored.
    fn size(&self) -> (r: usize)
        ensures
            r == self.spec_size(),
    ;
}

/// An interface for invertable types: every value has an inverse of the same
/// type.
///
/// When a problem's operator type is invertable, "going back" to the previous
/// problem state is always possible, so a traversal may store operator paths
/// rather than full ancestor states. The traversals here declare the
/// capability as a bound but still store full child states; replaying
/// inverses instead is the intended memory-optimized extension.
pub trait Invertable: Sized {
    /// The inverse of this value.
    spec fn spec_invert(self) -> Self;

    /// Return the inverse of `self`.
    fn invert(&self) -> (r: Self)
        ensures
            r == self.spec_invert(),
    ;
}

/// An interface allowing operators to be applied to a problem state.
///
/// Which state (if any) an operator leads to is modelled by `op_result`:
/// `Some(next)` when the operator is legal for the current state, `None`
/// when it is not.
pub trait Operable: Sized {
    /// The type of one operation on the problem space. All search algorithms
    /// return, on success, the sequence of operations that leads from the
    /// initial state to a solved state.
    type Op;

    /// The side value returned on a successful mutating operation.
    type S;

    /// The value returned when an operation is not legal for a state.
    type E;

    /// The state reached by applying `op` to this state, or `None` when `op`
    /// is not legal here.
    spec fn op_result(self, op: Self::Op) -> Option<Self>;

    /// Produce an independent copy of this state, equal to it.
    ///
    /// The non-mutating `operate` and the state expansion of the traversals
    /// duplicate states; this method is the capability they rely on.
    fn duplicate(&self) -> (r: Self)
        ensures
            r == *self,
    ;

    /// Apply `op` to this state in place. On success the state becomes the
    /// state `op` leads to; on failure the state is left unchanged.
    fn operate_mut(&mut self, op: Self::Op) -> (r: Result<Self::S, Self::E>)
        ensures
            match r {
                Ok(_) => old(self).op_result(op) == Some(*final(self)),
                Err(_) => old(self).op_result(op) is None && *final(self) == *old(self),
            },
    ;

    /// Apply `op` without mutating this state, producing the resulting state.
    ///
    /// The default implementation duplicates the state and applies the
    /// mutating operation to the duplicate.
    fn operate(&self, op: Self::Op) -> (r: Result<Self, Self::E>)
        ensures
            match r {
                Ok(c) => self.op_result(op) == Some(c),
                Err(_) => self.op_result(op) is None,
            },
    {
        let mut c = self.duplicate();
        match c.operate_mut(op) {
            Ok(_) => Ok(c),
            Err(e) => Err(e),
        }
    }
}

/// The states produced by attempting the operators `ops` on `s`, keeping
/// only the successful results, in the order the operators are listed.
pub open spec fn succ_seq<P: Operable>(s: P, ops: Seq<P::Op>) -> Seq<P>
    decreases ops.len(),
{
    if ops.len() == 0 {
        Seq::empty()
    } else {
        let rest = succ_seq(s, ops.drop_last());
        match s.op_result(ops.last()) {
            Some(c) => rest.push(c),
            None => rest,
        }
    }
}

/// The children of `s` in the search tree: the states its possible
/// operations lead to.
pub open spec fn succs<P: ProblemTree>(s: P) -> Seq<P> {
    succ_seq(s, s.spec_ops())
}

/// Whether `c` is a child of `s` in the search tree.
pub open spec fn step<P: ProblemTree>(s: P, c: P) -> bool {
    succs(s).contains(c)
}

/// Whether `s` is reachable from `root` by exactly `n` operator
/// applications, each taken from the possible operations of the state it is
/// applied to.
pub open spec fn reach<P: ProblemTree>(root: P, s: P, n: nat) -> bool
    decreases n,
{
    if n == 0 {
        s == root
    } else {
        exists|c: P| #[trigger] step(root, c) && reach(c, s, (n - 1) as nat)
    }
}

/// The main trait needed for solving a problem: tree-shaped exploration
/// built atop operator application.
///
/// A state fully determines its possible operations (`spec_ops`), its
/// solved/unsolved status (`spec_solved`) and the operator path that
/// produced it (`spec_path`); the executable methods report exactly those.
/// Implementers must also prove `path_consistency`: each child's path is its
/// parent's path extended by the operator that produced it. That law is what
/// lets the traversals return an operator path instead of a goal state.
pub trait ProblemTree: Operable {
    /// The operations syntactically applicable to this state, in the order
    /// expansion attempts them.
    spec fn spec_ops(self) -> Seq<Self::Op>;

    /// Whether this state is a goal state.
    spec fn spec_solved(self) -> bool;

    /// The operator path from the initial state of the search to this state.
    spec fn spec_path(self) -> Seq<Self::Op>;

    /// All operations syntactically applicable to this state; the list may
    /// include operations that fail when applied, and expansion drops those
    /// silently.
    fn possible_operations(&self) -> (r: Vec<Self::Op>)
        ensures
            r@ == self.spec_ops(),
    ;

    /// Expand this state: attempt every possible operation and collect the
    /// successful resulting states, in the order the operations were listed.
    fn next_states(&self) -> (r: Vec<Self>)
        ensures
            r@ == succ_seq(*self, self.spec_ops()),
    {
        let mut ops = self.possible_operations();
        let ghost all_ops = ops@;
        let mut res: Vec<Self> = Vec::new();
        let ghost done: int = 0;
        while ops.len() > 0
            invariant
                0 <= done <= all_ops.len(),
                ops@ == all_ops.skip(done),
                res@ == succ_seq(*self, all_ops.take(done)),
            decreases ops@.len(),
        {
            let op = ops.remove(0);
            proof {
                assert(op == all_ops[done]);
                assert(all_ops.take(done + 1).drop_last() =~= all_ops.take(done));
                assert(all_ops.take(done + 1).last() == all_ops[done]);
            }
            match self.operate(op) {
                Ok(v) => {
                    res.push(v);
                },
                Err(_) => {},
            }
            proof {
                done = done + 1;
                assert(ops@ =~= all_ops.skip(done));
            }
        }
        proof {
            assert(all_ops.take(done) =~= all_ops);
            assert(all_ops == self.spec_ops());
        }
        res
    }

    /// The operator path that produced this state from the initial state of
    /// the search.
    fn get_prev_operations(&self) -> (r: Vec<Self::Op>)
        ensures
            r@ == self.spec_path(),
    ;

    /// Whether this state is a goal state.
    fn is_solved(&self) -> (r: bool)
        ensures
            r == self.spec_solved(),
    ;

    /// Path consistency: a state produced by one legal operator application
    /// carries the operator path of its parent extended by that operator.
    /// Every implementation must prove this of its own bookkeeping.
    proof fn path_consistency(s: Self, op: Self::Op)
        requires
            s.op_result(op) is Some,
        ensures
            match s.op_result(op) {
                Some(c) => c.spec_path() == s.spec_path().push(op),
                None => true,
            },
    ;
}

/// Every state collected by `succ_seq` is the result of one of the attempted
/// operations.
pub proof fn lemma_succ_seq_origin<P: Operable>(s: P, ops: Seq<P::Op>, c: P)
    requires
        succ_seq(s, ops).contains(c),
    ensures
        exists|i: int| 0 <= i < ops.len() && s.op_result(#[trigger] ops[i]) == Some(c),
    decreases ops.len(),
{
    if ops.len() == 0 {
        assert(false);
    } else {
        let rest = succ_seq(s, ops.drop_last());
        let found_here = match s.op_result(ops.last()) {
            Some(d) => d == c,
            None => false,
        };
        if found_here {
            assert(s.op_result(ops[ops.len() - 1]) == Some(c));
        } else {
            assert(rest.contains(c)) by {
                let j = choose|j: int| 0 <= j < succ_seq(s, ops).len() && succ_seq(s, ops)[j] == c;
                assert(j < rest.len());
                assert(rest[j] == c);
            }
            lemma_succ_seq_origin(s, ops.drop_last(), c);
            let i = choose|i: int|
                0 <= i < ops.drop_last().len() && s.op_result(#[trigger] ops.drop_last()[i])
                    == Some(c);
            assert(ops.drop_last()[i] == ops[i]);
        }
    }
}

/// A child of `t` lies one operator application deeper than `t`: its path is
/// one operator longer.
pub proof fn lemma_step_path<P: ProblemTree>(t: P, c: P)
    requires
        step(t, c),
    ensures
        c.spec_path().len() == t.spec_path().len() + 1,
{
    lemma_succ_seq_origin(t, t.spec_ops(), c);
    let i = choose|i: int|
        0 <= i < t.spec_ops().len() && t.op_result(#[trigger] t.spec_ops()[i]) == Some(c);
    P::path_consistency(t, t.spec_ops()[i]);
}

/// Path consistency, at the crate's surface: for every non-initial reached
/// state, its operator path equals its parent's path concatenated with the
/// single operator that produced it.
pub proof fn lemma_path_consistent<P: ProblemTree>(parent: P, op: P::Op, child: P)
    requires
        parent.op_result(op) == Some(child),
    ensures
        child.spec_path() == parent.spec_path().push(op),
{
    P::path_consistency(parent, op);
}

/// Reachability extends by one step at the far end: a child of a reachable
/// state is reachable, one application deeper.
pub proof fn lemma_reach_snoc<P: ProblemTree>(root: P, t: P, n: nat, c: P)
    requires
        reach(root, t, n),
        step(t, c),
    ensures
        reach(root, c, n + 1),
    decreases n,
{
    if n == 0 {
        assert(reach(c, c, 0));
        assert(reach(root, c, 1));
    } else {
        let d = choose|d: P| #[trigger] step(root, d) && reach(d, t, (n - 1) as nat);
        lemma_reach_snoc(d, t, (n - 1) as nat, c);
        assert(step(root, d) && reach(d, c, n as nat));
    }
}

/// A state reachable in `n` steps carries an operator path exactly `n`
/// operators longer than the root's.
pub proof fn lemma_reach_path_len<P: ProblemTree>(root: P, s: P, n: nat)
    requires
        reach(root, s, n),
    ensures
        s.spec_path().len() == root.spec_path().len() + n,
    decreases n,
{
    if n > 0 {
        let c = choose|c: P| #[trigger] step(root, c) && reach(c, s, (n - 1) as nat);
        lemma_step_path(root, c);
        lemma_reach_path_len(c, s, (n - 1) as nat);
    }
}

} // verus!
