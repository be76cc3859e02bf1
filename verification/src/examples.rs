//! Two small, fully verified problems and a lookup table for them: a
//! balanced binary tree of depth 3 whose states are the branch sequences
//! that reached them, and a walker on the integer points between -2 and 2
//! whose moves have genuine inverses. They exercise every contract of the
//! problem abstraction, and they are the problems the crate's tests drive
//! the traversal algorithms on.
//!
//! Both states pack their operator path into the bits of an integer: bit
//! `i` holds the operator applied at step `i`, and a step counter says how
//! many bits are in use.

use vstd::prelude::*;

use crate::traits::Invertable;
use crate::traits::Lookup;
use crate::traits::Operable;
use crate::traits::ProblemTree;

verus! {

/// One branching decision in the binary tree.
#[derive(Clone, Copy, PartialEq, Eq, Structural, Debug)]
pub enum Branch {
    Left,
    Right,
}

/// The bit that encodes `op` in a packed path.
pub open spec fn branch_bit(op: Branch) -> u8 {
    match op {
        Branch::Left => 0,
        Branch::Right => 1,
    }
}

/// The branch encoded at position `i` of the packed path `turns`.
pub open spec fn turn_at(turns: u8, i: u8) -> Branch {
    if (turns >> i) & 1 == 1 {
        Branch::Right
    } else {
        Branch::Left
    }
}

/// The branch sequence of the first `depth` bits of `turns`.
pub open spec fn path_of(turns: u8, depth: u8) -> Seq<Branch>
    decreases depth,
{
    if depth == 0 {
        Seq::empty()
    } else {
        path_of(turns, (depth - 1) as u8).push(turn_at(turns, (depth - 1) as u8))
    }
}

/// Packed paths that encode the same branches decode to the same sequence.
proof fn lemma_path_of_agree(t1: u8, t2: u8, d: u8)
    requires
        forall|i: u8| i < d ==> turn_at(t1, i) == turn_at(t2, i),
    ensures
        path_of(t1, d) == path_of(t2, d),
    decreases d,
{
    if d > 0 {
        lemma_path_of_agree(t1, t2, (d - 1) as u8);
        assert(turn_at(t1, (d - 1) as u8) == turn_at(t2, (d - 1) as u8));
    }
}

impl Invertable for Branch {
    open spec fn spec_invert(self) -> Branch {
        match self {
            Branch::Left => Branch::Right,
            Branch::Right => Branch::Left,
        }
    }

    fn invert(&self) -> (r: Branch) {
        match self {
            Branch::Left => Branch::Right,
            Branch::Right => Branch::Left,
        }
    }
}

/// One node of a balanced binary tree of depth 3.
///
/// The state is the branch sequence that reached the node, packed into
/// `turns`; `goals` marks the solved nodes, one bit per node of the tree
/// in breadth-first numbering (see [`TreeNode::node_bit`]).
#[derive(Clone, Copy, PartialEq, Eq, Structural, Debug)]
pub struct TreeNode {
    depth: u8,
    turns: u8,
    goals: u16,
}

/// Whether the fields describe a node of the tree: at most 3 levels down,
/// with no path bits beyond the depth.
pub open spec fn node_wf(depth: u8, turns: u8) -> bool {
    depth <= 3 && turns < (1u8 << depth)
}

/// The breadth-first number of the node reached by the first `depth` bits
/// of `turns`: 0 for the root, 1 and 2 for the two children of the root,
/// and so on; always below 15 for a node of the tree.
pub open spec fn node_idx(depth: u8, turns: u8) -> u16 {
    ((1u16 << depth) - 1 + turns) as u16
}

proof fn lemma_node_idx_small(depth: u8, turns: u8)
    requires
        node_wf(depth, turns),
    ensures
        node_idx(depth, turns) < 15,
        (1u16 << depth) >= 1,
        (1u16 << depth) - 1 + turns < 15,
{
    assert(depth <= 3 && turns < (1u8 << depth) ==> ((1u16 << depth) >= 1 && (1u16 << depth) - 1
        + turns < 15)) by (bit_vector);
}

impl TreeNode {
    /// The root of a tree whose solved nodes are marked in `goals`.
    pub fn root(goals: u16) -> (r: TreeNode)
        ensures
            r.spec_path() == Seq::<Branch>::empty(),
            r.spec_solved() == ((goals & 1) == 1),
    {
        let r = TreeNode { depth: 0, turns: 0, goals };
        proof {
            assert((1u8 << 0u8) == 1 && (1u16 << 0u8) == 1 && (goals >> 0u16) == goals)
                by (bit_vector);
            assert(node_wf(0, 0));
            assert(node_idx(0, 0) == 0);
        }
        r
    }

    /// The goal bit for the node reached by the first `depth` bits of
    /// `turns`: a mask with exactly that node's bit set.
    pub fn node_bit(depth: u8, turns: u8) -> (r: u16)
        requires
            node_wf(depth, turns),
        ensures
            r == 1u16 << node_idx(depth, turns),
    {
        proof {
            lemma_node_idx_small(depth, turns);
        }
        let idx: u16 = (1u16 << depth) - 1 + (turns as u16);
        1u16 << idx
    }
}

impl Operable for TreeNode {
    type Op = Branch;

    type S = ();

    type E = ();

    closed spec fn op_result(self, op: Branch) -> Option<TreeNode> {
        if self.depth < 3 && self.turns < (1u8 << self.depth) {
            Some(
                TreeNode {
                    depth: (self.depth + 1) as u8,
                    turns: self.turns | (branch_bit(op) << self.depth),
                    goals: self.goals,
                },
            )
        } else {
            None
        }
    }

    fn duplicate(&self) -> (r: TreeNode) {
        *self
    }

    fn operate_mut(&mut self, op: Branch) -> (r: Result<(), ()>) {
        if self.depth < 3 && self.turns < (1u8 << self.depth) {
            let b: u8 = match op {
                Branch::Left => 0,
                Branch::Right => 1,
            };
            self.turns = self.turns | (b << self.depth);
            self.depth = self.depth + 1;
            Ok(())
        } else {
            Err(())
        }
    }
}

impl ProblemTree for TreeNode {
    closed spec fn spec_ops(self) -> Seq<Branch> {
        seq![Branch::Left, Branch::Right]
    }

    closed spec fn spec_solved(self) -> bool {
        node_wf(self.depth, self.turns) && (self.goals >> node_idx(self.depth, self.turns)) & 1
            == 1
    }

    closed spec fn spec_path(self) -> Seq<Branch> {
        path_of(self.turns, if self.depth > 3 {
            3
        } else {
            self.depth
        })
    }

    fn possible_operations(&self) -> (r: Vec<Branch>) {
        let mut v: Vec<Branch> = Vec::new();
        v.push(Branch::Left);
        v.push(Branch::Right);
        proof {
            assert(v@ =~= seq![Branch::Left, Branch::Right]);
        }
        v
    }

    #[verifier::loop_isolation(false)]
    fn get_prev_operations(&self) -> (r: Vec<Branch>) {
        let d = if self.depth > 3 {
            3
        } else {
            self.depth
        };
        let mut v: Vec<Branch> = Vec::new();
        let mut i: u8 = 0;
        while i < d
            invariant
                0 <= i <= d,
                v@ == path_of(self.turns, i),
            decreases d - i,
        {
            if (self.turns >> i) & 1 == 1 {
                v.push(Branch::Right);
            } else {
                v.push(Branch::Left);
            }
            i = i + 1;
        }
        v
    }

    fn is_solved(&self) -> (r: bool) {
        if self.depth <= 3 && self.turns < (1u8 << self.depth) {
            proof {
                lemma_node_idx_small(self.depth, self.turns);
            }
            let idx: u16 = (1u16 << self.depth) - 1 + (self.turns as u16);
            ((self.goals >> idx) & 1) == 1
        } else {
            false
        }
    }

    proof fn path_consistency(s: TreeNode, op: Branch) {
        if s.op_result(op) is Some {
            let t = s.turns;
            let d = s.depth;
            let b = branch_bit(op);
            let t2 = t | (b << d);
            assert(((t | (b << d)) >> d) & 1 == b) by (bit_vector)
                requires
                    t < (1u8 << d),
                    d < 3,
                    b <= 1,
            ;
            assert(turn_at(t2, d) == op);
            assert forall|i: u8| i < d implies turn_at(t2, i) == turn_at(t, i) by {
                assert(((t | (b << d)) >> i) & 1 == (t >> i) & 1) by (bit_vector)
                    requires
                        i < d,
                ;
            }
            lemma_path_of_agree(t2, t, d);
        }
    }
}

/// A lookup table for [`TreeNode`] states: one bit per node of the tree,
/// and one catch-all flag for values that describe no node.
pub struct NodeTable {
    bits: u16,
    junk: bool,
    count: usize,
}

impl NodeTable {
    /// An empty table.
    pub fn new() -> (r: NodeTable)
        ensures
            r.spec_size() == 0,
            forall|x: TreeNode| !r.spec_contains(x),
    {
        let r = NodeTable { bits: 0, junk: false, count: 0 };
        proof {
            assert forall|x: TreeNode| !r.spec_contains(x) by {
                let ix = node_idx(x.depth, x.turns);
                assert((0u16 >> ix) & 1 == 0) by (bit_vector);
            }
        }
        r
    }
}

impl Lookup<TreeNode> for NodeTable {
    closed spec fn spec_contains(self, el: TreeNode) -> bool {
        if node_wf(el.depth, el.turns) {
            (self.bits >> node_idx(el.depth, el.turns)) & 1 == 1
        } else {
            self.junk
        }
    }

    closed spec fn spec_size(self) -> nat {
        self.count as nat
    }

    fn store(&mut self, el: &TreeNode) {
        if el.depth <= 3 && el.turns < (1u8 << el.depth) {
            proof {
                lemma_node_idx_small(el.depth, el.turns);
            }
            let idx: u16 = (1u16 << el.depth) - 1 + (el.turns as u16);
            if (self.bits >> idx) & 1 != 1 {
                self.bits = self.bits | (1u16 << idx);
                if self.count < usize::MAX {
                    self.count = self.count + 1;
                }
            }
            proof {
                let b0 = old(self).bits;
                assert(((b0 | (1u16 << idx)) >> idx) & 1 == 1) by (bit_vector)
                    requires
                        idx < 15,
                ;
                assert forall|x: TreeNode|
                    old(self).spec_contains(x) implies self.spec_contains(x) by {
                    if node_wf(x.depth, x.turns) {
                        let ix = node_idx(x.depth, x.turns);
                        assert(((b0 | (1u16 << idx)) >> ix) & 1 == 1) by (bit_vector)
                            requires
                                (b0 >> ix) & 1 == 1,
                        ;
                    }
                }
            }
        } else {
            if !self.junk {
                self.junk = true;
                if self.count < usize::MAX {
                    self.count = self.count + 1;
                }
            }
        }
    }

    fn contains(&self, el: &TreeNode) -> (r: bool) {
        if el.depth <= 3 && el.turns < (1u8 << el.depth) {
            proof {
                lemma_node_idx_small(el.depth, el.turns);
            }
            let idx: u16 = (1u16 << el.depth) - 1 + (el.turns as u16);
            ((self.bits >> idx) & 1) == 1
        } else {
            self.junk
        }
    }

    fn size(&self) -> (r: usize) {
        self.count
    }
}

/// One step of the walker.
#[derive(Clone, Copy, PartialEq, Eq, Structural, Debug)]
pub enum Move {
    Inc,
    Dec,
}

/// The bit that encodes `op` in a packed move path.
pub open spec fn move_bit(op: Move) -> u8 {
    match op {
        Move::Inc => 1,
        Move::Dec => 0,
    }
}

/// The move encoded at position `i` of the packed path `moves`.
pub open spec fn move_at(moves: u8, i: u8) -> Move {
    if (moves >> i) & 1 == 1 {
        Move::Inc
    } else {
        Move::Dec
    }
}

/// The move sequence of the first `len` bits of `moves`.
pub open spec fn moves_of(moves: u8, len: u8) -> Seq<Move>
    decreases len,
{
    if len == 0 {
        Seq::empty()
    } else {
        moves_of(moves, (len - 1) as u8).push(move_at(moves, (len - 1) as u8))
    }
}

/// A packed move path of `len` bits decodes to `len` moves.
proof fn lemma_moves_of_len(m: u8, d: u8)
    ensures
        moves_of(m, d).len() == d,
    decreases d,
{
    if d > 0 {
        lemma_moves_of_len(m, (d - 1) as u8);
    }
}

/// Packed move paths that encode the same moves decode to the same
/// sequence.
proof fn lemma_moves_of_agree(m1: u8, m2: u8, d: u8)
    requires
        forall|i: u8| i < d ==> move_at(m1, i) == move_at(m2, i),
    ensures
        moves_of(m1, d) == moves_of(m2, d),
    decreases d,
{
    if d > 0 {
        lemma_moves_of_agree(m1, m2, (d - 1) as u8);
        assert(move_at(m1, (d - 1) as u8) == move_at(m2, (d - 1) as u8));
    }
}

impl Invertable for Move {
    open spec fn spec_invert(self) -> Move {
        match self {
            Move::Inc => Move::Dec,
            Move::Dec => Move::Inc,
        }
    }

    fn invert(&self) -> (r: Move) {
        match self {
            Move::Inc => Move::Dec,
            Move::Dec => Move::Inc,
        }
    }
}

/// A walker on the integer points between -2 and 2: a move that would
/// leave that range, or an eighth move, is illegal. Applying a move and
/// then its inverse returns the walker to its previous point; only the
/// recorded path remembers the detour.
#[derive(Clone, Copy, PartialEq, Eq, Structural, Debug)]
pub struct Walker {
    pos: i8,
    target: i8,
    len: u8,
    moves: u8,
}

/// The point `op` leads to from `pos`.
pub open spec fn moved(pos: i8, op: Move) -> int {
    match op {
        Move::Inc => pos + 1,
        Move::Dec => pos - 1,
    }
}

impl Walker {
    /// A walker standing on `pos`, looking for `target`, with an empty
    /// path.
    pub fn start(pos: i8, target: i8) -> (r: Walker)
        ensures
            r.spec_path() == Seq::<Move>::empty(),
            r.spec_solved() == (pos == target),
            r.spec_position() == pos,
    {
        Walker { pos, target, len: 0, moves: 0 }
    }

    /// The point the walker stands on.
    pub fn position(&self) -> (r: i8)
        ensures
            r == self.spec_position(),
    {
        self.pos
    }

    /// The point the walker stands on.
    pub closed spec fn spec_position(self) -> i8 {
        self.pos
    }
}

impl Operable for Walker {
    type Op = Move;

    type S = ();

    type E = ();

    closed spec fn op_result(self, op: Move) -> Option<Walker> {
        if self.len < 8 && self.moves < (1u8 << self.len) && -2 <= moved(self.pos, op) <= 2 {
            Some(
                Walker {
                    pos: moved(self.pos, op) as i8,
                    target: self.target,
                    len: (self.len + 1) as u8,
                    moves: self.moves | (move_bit(op) << self.len),
                },
            )
        } else {
            None
        }
    }

    fn duplicate(&self) -> (r: Walker) {
        *self
    }

    fn operate_mut(&mut self, op: Move) -> (r: Result<(), ()>) {
        if self.len < 8 && self.moves < (1u8 << self.len) {
            let next: i16 = match op {
                Move::Inc => self.pos as i16 + 1,
                Move::Dec => self.pos as i16 - 1,
            };
            if next < -2 || next > 2 {
                Err(())
            } else {
                let b: u8 = match op {
                    Move::Inc => 1,
                    Move::Dec => 0,
                };
                self.moves = self.moves | (b << self.len);
                self.len = self.len + 1;
                self.pos = next as i8;
                Ok(())
            }
        } else {
            Err(())
        }
    }
}

impl ProblemTree for Walker {
    closed spec fn spec_ops(self) -> Seq<Move> {
        seq![Move::Inc, Move::Dec]
    }

    closed spec fn spec_solved(self) -> bool {
        self.pos == self.target
    }

    closed spec fn spec_path(self) -> Seq<Move> {
        moves_of(self.moves, if self.len > 8 {
            8
        } else {
            self.len
        })
    }

    fn possible_operations(&self) -> (r: Vec<Move>) {
        let mut v: Vec<Move> = Vec::new();
        v.push(Move::Inc);
        v.push(Move::Dec);
        proof {
            assert(v@ =~= seq![Move::Inc, Move::Dec]);
        }
        v
    }

    #[verifier::loop_isolation(false)]
    fn get_prev_operations(&self) -> (r: Vec<Move>) {
        let d = if self.len > 8 {
            8
        } else {
            self.len
        };
        let mut v: Vec<Move> = Vec::new();
        let mut i: u8 = 0;
        while i < d
            invariant
                0 <= i <= d,
                v@ == moves_of(self.moves, i),
            decreases d - i,
        {
            if (self.moves >> i) & 1 == 1 {
                v.push(Move::Inc);
            } else {
                v.push(Move::Dec);
            }
            i = i + 1;
        }
        v
    }

    fn is_solved(&self) -> (r: bool) {
        self.pos == self.target
    }

    proof fn path_consistency(s: Walker, op: Move) {
        if s.op_result(op) is Some {
            let m = s.moves;
            let d = s.len;
            let b = move_bit(op);
            let m2 = m | (b << d);
            assert(((m | (b << d)) >> d) & 1 == b) by (bit_vector)
                requires
                    m < (1u8 << d),
                    d < 8,
                    b <= 1,
            ;
            assert(move_at(m2, d) == op);
            assert forall|i: u8| i < d implies move_at(m2, i) == move_at(m, i) by {
                assert(((m | (b << d)) >> i) & 1 == (m >> i) & 1) by (bit_vector)
                    requires
                        i < d,
                ;
            }
            lemma_moves_of_agree(m2, m, d);
        }
    }
}

/// Invertibility round trip, on the walker: applying a legal move and then
/// its inverse returns the walker to the point it stood on, and the
/// recorded path keeps both moves. Stated for walkers standing inside the
/// range, with room for two more recorded moves: a walker standing outside
/// the range can make a move whose inverse is illegal, and a seventh move
/// leaves no room to record the inverse.
pub proof fn lemma_walker_inverse_returns(s: Walker, op: Move)
    requires
        s.op_result(op) is Some,
        -2 <= s.spec_position() <= 2,
        s.spec_path().len() < 7,
    ensures
        match s.op_result(op) {
            Some(t) => match t.op_result(op.spec_invert()) {
                Some(b) => b.spec_position() == s.spec_position() && b.spec_path()
                    == s.spec_path().push(op).push(op.spec_invert()),
                None => false,
            },
            None => true,
        },
{
    lemma_moves_of_len(s.moves, if s.len > 8 {
        8
    } else {
        s.len
    });
    let m = s.moves;
    let len = s.len;
    let b = move_bit(op);
    let t = Walker {
        pos: moved(s.pos, op) as i8,
        target: s.target,
        len: (s.len + 1) as u8,
        moves: s.moves | (move_bit(op) << s.len),
    };
    assert(s.op_result(op) == Some(t));
    assert((m | (b << len)) < (1u8 << (len + 1))) by (bit_vector)
        requires
            m < (1u8 << len),
            b <= 1,
            len < 7,
    ;
    <Walker as ProblemTree>::path_consistency(s, op);
    <Walker as ProblemTree>::path_consistency(t, op.spec_invert());
}

} // verus!
