//! The order-maintenance index: a splay tree whose in-order sequence is a total
//! order over tokens.
//!
//! The tree has no keys. A token is the index of a node, and the order of two
//! tokens is read off the shape of the tree. Every comparison splays, so tokens
//! that are compared often stay near the root. Nodes live in a vector and name
//! each other by index; a slot is never used twice.

use crate::error::TyckError;
use vstd::prelude::*;

verus! {

/// A side of a node: which child, or on which side of another token.
#[derive(Clone, Copy, Debug, PartialEq, Eq, Structural)]
pub enum Direction {
    Left,
    Right,
}

impl Direction {
    /// The other side.
    pub open spec fn flipped(self) -> Direction {
        match self {
            Direction::Left => Direction::Right,
            Direction::Right => Direction::Left,
        }
    }
}

impl core::ops::Not for Direction {
    type Output = Direction;

    /// The other side, written `!side`.
    fn not(self) -> (r: Direction) {
        match self {
            Direction::Left => Direction::Right,
            Direction::Right => Direction::Left,
        }
    }
}

impl vstd::std_specs::ops::NotSpecImpl for Direction {
    open spec fn obeys_not_spec() -> bool {
        true
    }

    open spec fn not_req(self) -> bool {
        true
    }

    /// What `!side` means in contracts: the other side.
    open spec fn not_spec(self) -> Direction {
        self.flipped()
    }
}

/// One node of the tree.
pub struct TreeNode {
    parent: Option<usize>,
    left: Option<usize>,
    right: Option<usize>,
    live: bool,
}

/// Where a node and its subtree stand in the in-order sequence: the node at
/// index `pos`, its subtree on the indices from `lo` up to but excluding `hi`.
pub struct Span {
    pub lo: int,
    pub pos: int,
    pub hi: int,
}

/// A total order over a changing set of tokens, with insertion next to a known
/// token, removal, and comparison.
pub struct OrderIndex {
    nodes: Vec<TreeNode>,
    root: Option<usize>,
    order: Ghost<Seq<usize>>,
    span: Ghost<Map<usize, Span>>,
}

impl OrderIndex {
    spec fn has(self, t: usize) -> bool {
        self.span@.dom().contains(t)
    }

    /// The node `t` stands at its index of the sequence, its children cover the
    /// two parts of its span beside it, and its parent points back at it.
    spec fn node_ok(self, t: usize) -> bool {
        let s = self.span@[t];
        &&& 0 <= s.lo <= s.pos < s.hi <= self.order@.len()
        &&& self.order@[s.pos] == t
        &&& match self.nodes[t as int].left {
            None => s.lo == s.pos,
            Some(l) => self.has(l) && self.nodes[l as int].parent == Some(t) && self.span@[l].lo
                == s.lo && self.span@[l].hi == s.pos,
        }
        &&& match self.nodes[t as int].right {
            None => s.pos + 1 == s.hi,
            Some(r) => self.has(r) && self.nodes[r as int].parent == Some(t) && self.span@[r].lo
                == s.pos + 1 && self.span@[r].hi == s.hi,
        }
        &&& match self.nodes[t as int].parent {
            None => self.root == Some(t) && s.lo == 0 && s.hi == self.order@.len(),
            Some(p) => self.has(p) && p != t && (self.nodes[p as int].left == Some(t)
                || self.nodes[p as int].right == Some(t)),
        }
    }

    /// The tree is a binary tree over the live nodes whose in-order sequence is
    /// `order()`.
    pub closed spec fn wf(self) -> bool {
        &&& forall|t: usize|
            #![trigger self.has(t)]
            #![trigger self.nodes[t as int]]
            self.has(t) <==> t < self.nodes.len() && self.nodes[t as int].live
        &&& forall|i: int|
            0 <= i < self.order@.len() ==> self.has(#[trigger] self.order@[i])
                && self.span@[self.order@[i]].pos == i
        &&& forall|t: usize| self.has(t) ==> #[trigger] self.node_ok(t)
        &&& match self.root {
            None => self.order@.len() == 0,
            Some(r) => self.has(r) && self.nodes[r as int].parent is None,
        }
    }

    /// The live tokens in their order.
    pub closed spec fn order(self) -> Seq<usize> {
        self.order@
    }

    /// The token that the next insertion will hand out.
    pub closed spec fn next_token(self) -> usize {
        self.nodes.len()
    }

    /// Whether `t` is a token of the order.
    pub open spec fn is_live(self, t: usize) -> bool {
        self.order().contains(t)
    }

    /// The index of the token `t` in the order.
    pub open spec fn index_of(self, t: usize) -> int {
        self.order().index_of(t)
    }

    /// A token is live exactly when the tree holds it, and then it stands in the
    /// sequence at the index that its span records.
    proof fn lemma_live(self, t: usize)
        requires
            self.wf(),
        ensures
            self.is_live(t) == self.has(t),
            self.has(t) ==> self.index_of(t) == self.span@[t].pos && 0 <= self.span@[t].pos
                < self.order@.len() && self.order@[self.span@[t].pos] == t,
    {
        if self.has(t) {
            assert(self.node_ok(t));
            let p = self.span@[t].pos;
            assert(self.order@[p] == t);
            assert(self.order@.contains(t));
            let k = self.order@.index_of(t);
            assert(self.order@[k] == t);
            assert(self.span@[self.order@[k]].pos == k);
        }
        if self.order@.contains(t) {
            let k = self.order@.index_of(t);
            assert(self.has(self.order@[k]));
        }
    }

    /// No token occurs twice in the order, and every token was handed out before.
    pub proof fn lemma_order(self)
        requires
            self.wf(),
        ensures
            self.order().no_duplicates(),
            forall|i: int|
                0 <= i < self.order().len() ==> #[trigger] self.order()[i] < self.next_token(),
            forall|t: usize|
                self.is_live(t) ==> 0 <= #[trigger] self.index_of(t) < self.order().len()
                    && self.order()[self.index_of(t)] == t,
            forall|i: int|
                0 <= i < self.order().len() ==> self.index_of(#[trigger] self.order()[i]) == i,
    {
        assert forall|i: int, j: int|
            0 <= i < self.order@.len() && 0 <= j < self.order@.len() && i != j
                implies self.order@[i] != self.order@[j] by {
            assert(self.span@[self.order@[i]].pos == i);
            assert(self.span@[self.order@[j]].pos == j);
        }
        assert forall|t: usize| self.is_live(t) implies 0 <= #[trigger] self.index_of(t)
            < self.order().len() && self.order()[self.index_of(t)] == t by {
            self.lemma_live(t);
        }
        assert forall|i: int| 0 <= i < self.order().len() implies self.index_of(
            #[trigger] self.order()[i],
        ) == i by {
            let t = self.order@[i];
            self.lemma_live(t);
            assert(self.span@[self.order@[i]].pos == i);
        }
        assert forall|i: int| 0 <= i < self.order().len() implies #[trigger] self.order()[i]
            < self.next_token() by {
            assert(self.has(self.order@[i]));
        }
    }

    /// An empty order.
    pub fn new() -> (index: Self)
        ensures
            index.wf(),
            index.order() == Seq::<usize>::empty(),
    {
        OrderIndex {
            nodes: Vec::new(),
            root: None,
            order: Ghost(Seq::empty()),
            span: Ghost(Map::empty()),
        }
    }

    /// Whether `t` is a token of the order.
    pub fn contains(&self, t: usize) -> (r: bool)
        requires
            self.wf(),
        ensures
            r == self.is_live(t),
    {
        proof {
            self.lemma_live(t);
        }
        t < self.nodes.len() && self.nodes[t].live
    }

    /// What promoting the node `x` above its parent does to the tree.
    proof fn lemma_rotate(before: Self, after: Self, x: usize)
        requires
            before.wf(),
            before.has(x),
            before.nodes[x as int].parent is Some,
            after.nodes.len() == before.nodes.len(),
            after.order@ == before.order@,
            ({
                let p = before.nodes[x as int].parent.unwrap();
                let g = before.nodes[p as int].parent;
                let on_left = before.nodes[p as int].left == Some(x);
                let b = if on_left {
                    before.nodes[x as int].right
                } else {
                    before.nodes[x as int].left
                };
                let sx = before.span@[x];
                let sp = before.span@[p];
                &&& after.root == (if g is None {
                    Some(x)
                } else {
                    before.root
                })
                &&& after.span@ == before.span@.insert(
                    x,
                    Span { lo: sp.lo, pos: sx.pos, hi: sp.hi },
                ).insert(
                    p,
                    if on_left {
                        Span { lo: sx.pos + 1, pos: sp.pos, hi: sp.hi }
                    } else {
                        Span { lo: sp.lo, pos: sp.pos, hi: sx.pos }
                    },
                )
                &&& forall|t: usize|
                    t < before.nodes.len() ==> {
                        let o = before.nodes[t as int];
                        let n = #[trigger] after.nodes[t as int];
                        &&& n.live == o.live
                        &&& n.parent == (if t == x {
                            g
                        } else if t == p {
                            Some(x)
                        } else if b == Some(t) {
                            Some(p)
                        } else {
                            o.parent
                        })
                        &&& n.left == (if t == x && !on_left {
                            Some(p)
                        } else if t == p && on_left {
                            b
                        } else if g == Some(t) && o.left == Some(p) {
                            Some(x)
                        } else {
                            o.left
                        })
                        &&& n.right == (if t == x && on_left {
                            Some(p)
                        } else if t == p && !on_left {
                            b
                        } else if g == Some(t) && o.left != Some(p) {
                            Some(x)
                        } else {
                            o.right
                        })
                    }
            }),
        ensures
            after.wf(),
    {
        let p = before.nodes[x as int].parent.unwrap();
        let g = before.nodes[p as int].parent;
        let on_left = before.nodes[p as int].left == Some(x);
        let b = if on_left {
            before.nodes[x as int].right
        } else {
            before.nodes[x as int].left
        };
        assert(before.node_ok(x));
        assert(before.node_ok(p));
        if let Some(gg) = g {
            assert(before.node_ok(gg));
        }
        if let Some(bb) = b {
            assert(before.node_ok(bb));
        }
        assert forall|t: usize| after.has(t) implies #[trigger] after.node_ok(t) by {
            assert(before.has(t));
            assert(before.node_ok(t));
            if let Some(l) = before.nodes[t as int].left {
                assert(before.node_ok(l));
            }
            if let Some(r) = before.nodes[t as int].right {
                assert(before.node_ok(r));
            }
            if let Some(q) = before.nodes[t as int].parent {
                assert(before.node_ok(q));
            }
        }
        assert forall|i: int| 0 <= i < after.order@.len() implies after.has(
            #[trigger] after.order@[i],
        ) && after.span@[after.order@[i]].pos == i by {
            assert(before.has(before.order@[i]));
        }
        assert forall|t: usize|
            #![trigger after.has(t)]
            #![trigger after.nodes[t as int]]
            after.has(t) <==> t < after.nodes.len() && after.nodes[t as int].live by {
            assert(before.has(t) <==> t < before.nodes.len() && before.nodes[t as int].live);
        }
    }

    /// The parent that the node `t` has once `x` is promoted above its parent.
    spec fn parent_after_rotate(self, x: usize, t: usize) -> Option<usize> {
        let p = self.nodes[x as int].parent.unwrap();
        let b = if self.nodes[p as int].left == Some(x) {
            self.nodes[x as int].right
        } else {
            self.nodes[x as int].left
        };
        if t == x {
            self.nodes[p as int].parent
        } else if t == p {
            Some(x)
        } else if b == Some(t) {
            Some(p)
        } else {
            self.nodes[t as int].parent
        }
    }

    /// Promotes the node `x` above its parent and relinks the grandparent. The
    /// order of the tokens stays as it is.
    fn rotate(&mut self, x: usize)
        requires
            old(self).wf(),
            old(self).has(x),
            old(self).nodes[x as int].parent is Some,
        ensures
            final(self).wf(),
            final(self).order@ == old(self).order@,
            final(self).nodes.len() == old(self).nodes.len(),
            final(self).span@.dom() == old(self).span@.dom(),
            final(self).span@[x].lo == old(self).span@[old(self).nodes[x as int].parent.unwrap()].lo,
            final(self).span@[x].hi == old(self).span@[old(self).nodes[x as int].parent.unwrap()].hi,
            forall|t: usize|
                t < old(self).nodes.len() ==> (#[trigger] final(self).nodes[t as int]).parent
                    == old(self).parent_after_rotate(x, t),
            forall|t: usize|
                old(self).has(t) && t != x && t != old(self).nodes[x as int].parent.unwrap()
                    ==> #[trigger] final(self).span@[t] == old(self).span@[t],
    {
        let ghost before = *self;
        proof {
            assert(before.node_ok(x));
        }
        let p = self.nodes[x].parent.unwrap();
        proof {
            assert(before.node_ok(p));
        }
        let g = self.nodes[p].parent;
        let on_left = match self.nodes[p].left {
            Some(l) => l == x,
            None => false,
        };
        let b = if on_left {
            self.nodes[x].right
        } else {
            self.nodes[x].left
        };
        proof {
            if let Some(gg) = g {
                assert(before.node_ok(gg));
            }
            if let Some(bb) = b {
                assert(before.node_ok(bb));
            }
        }
        if on_left {
            self.nodes[p].left = b;
            self.nodes[x].right = Some(p);
        } else {
            self.nodes[p].right = b;
            self.nodes[x].left = Some(p);
        }
        match b {
            Some(bb) => {
                self.nodes[bb].parent = Some(p);
            },
            None => {},
        }
        self.nodes[p].parent = Some(x);
        self.nodes[x].parent = g;
        match g {
            None => {
                self.root = Some(x);
            },
            Some(gg) => {
                let g_left = match self.nodes[gg].left {
                    Some(l) => l == p,
                    None => false,
                };
                if g_left {
                    self.nodes[gg].left = Some(x);
                } else {
                    self.nodes[gg].right = Some(x);
                }
            },
        }
        proof {
            let sx = before.span@[x];
            let sp = before.span@[p];
            self.span@ = before.span@.insert(x, Span { lo: sp.lo, pos: sx.pos, hi: sp.hi }).insert(
                p,
                if on_left {
                    Span { lo: sx.pos + 1, pos: sp.pos, hi: sp.hi }
                } else {
                    Span { lo: sp.lo, pos: sp.pos, hi: sx.pos }
                },
            );
            assert(self.span@.dom() =~= before.span@.dom());
            Self::lemma_rotate(before, *self, x);
        }
    }

    /// Brings the node `x` to the root by rotations: one where its parent is the
    /// root, else two, the parent first where `x` and its parent are children on
    /// the same side.
    fn splay(&mut self, x: usize)
        requires
            old(self).wf(),
            old(self).has(x),
        ensures
            final(self).wf(),
            final(self).order@ == old(self).order@,
            final(self).nodes.len() == old(self).nodes.len(),
            final(self).span@.dom() == old(self).span@.dom(),
            final(self).root == Some(x),
            final(self).nodes[x as int].parent is None,
    {
        loop
            invariant
                self.wf(),
                self.has(x),
                self.order@ == old(self).order@,
                self.nodes.len() == old(self).nodes.len(),
                self.span@.dom() == old(self).span@.dom(),
            ensures
                self.nodes[x as int].parent is None,
            decreases self.order@.len() - (self.span@[x].hi - self.span@[x].lo),
        {
            proof {
                assert(self.node_ok(x));
            }
            let p = match self.nodes[x].parent {
                None => {
                    break ;
                },
                Some(p) => p,
            };
            proof {
                assert(self.node_ok(p));
            }
            match self.nodes[p].parent {
                None => {
                    self.rotate(x);
                },
                Some(g) => {
                    proof {
                        assert(self.node_ok(g));
                    }
                    let x_left = match self.nodes[p].left {
                        Some(l) => l == x,
                        None => false,
                    };
                    let p_left = match self.nodes[g].left {
                        Some(l) => l == p,
                        None => false,
                    };
                    let ghost mid = *self;
                    if x_left == p_left {
                        self.rotate(p);
                        proof {
                            assert(self.nodes[x as int].parent == mid.parent_after_rotate(p, x));
                            assert(self.span@[x] == mid.span@[x]);
                        }
                        self.rotate(x);
                    } else {
                        self.rotate(x);
                        proof {
                            assert(self.nodes[x as int].parent == mid.parent_after_rotate(x, x));
                            assert(self.span@[g] == mid.span@[g]);
                        }
                        self.rotate(x);
                    }
                },
            }
        }
        proof {
            assert(self.node_ok(x));
        }
    }

    /// A node other than the root has a parent, and its subtree lies wholly on
    /// one side of the root.
    proof fn lemma_side(self, t: usize)
        requires
            self.wf(),
            self.has(t),
            self.root != Some(t),
        ensures
            self.root is Some,
            self.nodes[t as int].parent is Some,
            self.span@[t].hi <= self.span@[self.root.unwrap()].pos || self.span@[t].lo
                > self.span@[self.root.unwrap()].pos,
        decreases self.order@.len() - (self.span@[t].hi - self.span@[t].lo),
    {
        assert(self.node_ok(t));
        let p = self.nodes[t as int].parent.unwrap();
        assert(self.node_ok(p));
        if self.root != Some(p) {
            self.lemma_side(p);
        }
    }

    /// On which side of the token `b` the token `a` stands: `Left` where `a`
    /// comes earlier in the order. Both tokens are splayed. Two tokens that are
    /// not both live, or that are the same, are an invariant violation.
    pub fn compare(&mut self, a: usize, b: usize) -> (r: Result<Direction, TyckError>)
        requires
            old(self).wf(),
        ensures
            final(self).wf(),
            final(self).order() == old(self).order(),
            final(self).next_token() == old(self).next_token(),
            !old(self).is_live(a) || !old(self).is_live(b) || a == b ==> r == Err::<
                Direction,
                TyckError,
            >(TyckError::InvariantViolation),
            old(self).is_live(a) && old(self).is_live(b) && a != b ==> r == Ok::<
                Direction,
                TyckError,
            >(
                if old(self).index_of(a) < old(self).index_of(b) {
                    Direction::Left
                } else {
                    Direction::Right
                },
            ),
    {
        if !self.contains(a) || !self.contains(b) || a == b {
            return Err(TyckError::InvariantViolation);
        }
        proof {
            self.lemma_live(a);
            self.lemma_live(b);
        }
        self.splay(b);
        self.splay(a);
        proof {
            self.lemma_live(a);
            self.lemma_live(b);
            assert(self.node_ok(a));
            assert(self.node_ok(b));
        }
        let mut cur = b;
        loop
            invariant
                self.wf(),
                self.has(cur),
                self.has(a),
                self.has(b),
                cur != a,
                self.root == Some(a),
                self.span@[cur].lo <= self.span@[b].pos < self.span@[cur].hi,
            ensures
                self.has(cur),
                self.span@[cur].lo <= self.span@[b].pos < self.span@[cur].hi,
                self.nodes[cur as int].parent == Some(a),
            decreases self.order@.len() - (self.span@[cur].hi - self.span@[cur].lo),
        {
            proof {
                assert(self.node_ok(cur));
                self.lemma_side(cur);
            }
            let p = self.nodes[cur].parent.unwrap();
            proof {
                assert(self.node_ok(p));
            }
            if p == a {
                break ;
            }
            cur = p;
        }
        proof {
            assert(self.node_ok(cur));
            assert(self.node_ok(a));
        }
        let on_left = match self.nodes[a].left {
            Some(l) => l == cur,
            None => false,
        };
        if on_left {
            Ok(Direction::Right)
        } else {
            Ok(Direction::Left)
        }
    }

    /// A span moved by `d` places.
    spec fn shifted(s: Span, d: int) -> Span {
        Span { lo: s.lo + d, pos: s.pos + d, hi: s.hi + d }
    }

    /// What hanging a new node beside the root does to the tree: as its right
    /// child where `after_root`, else as its left child. The new node takes
    /// over the root's subtree on that side.
    proof fn lemma_insert(before: Self, after: Self, t: usize, after_root: bool)
        requires
            before.wf(),
            before.root == Some(t),
            after.root == Some(t),
            after.nodes.len() == before.nodes.len() + 1,
            ({
                let x = before.nodes.len() as usize;
                let pt = before.span@[t].pos;
                let n = before.order@.len() as int;
                let c = if after_root {
                    before.nodes[t as int].right
                } else {
                    before.nodes[t as int].left
                };
                &&& after.order@ == before.order@.insert(
                    if after_root {
                        pt + 1
                    } else {
                        pt
                    },
                    x,
                )
                &&& after.span@ == Map::<usize, Span>::new(
                    |k: usize| before.has(k) || k == x,
                    |k: usize|
                        if k == x {
                            if after_root {
                                Span { lo: pt + 1, pos: pt + 1, hi: n + 1 }
                            } else {
                                Span { lo: 0, pos: pt, hi: pt + 1 }
                            }
                        } else if k == t {
                            Span { lo: 0, pos: if after_root { pt } else { pt + 1 }, hi: n + 1 }
                        } else if before.span@[k].pos > pt {
                            Self::shifted(before.span@[k], 1)
                        } else {
                            before.span@[k]
                        },
                )
                &&& after.nodes[x as int] == (TreeNode {
                    parent: Some(t),
                    left: if after_root { None } else { c },
                    right: if after_root { c } else { None },
                    live: true,
                })
                &&& forall|k: usize|
                    k < before.nodes.len() ==> {
                        let o = before.nodes[k as int];
                        let w = #[trigger] after.nodes[k as int];
                        &&& w.live == o.live
                        &&& w.parent == (if c == Some(k) {
                            Some(x)
                        } else {
                            o.parent
                        })
                        &&& w.left == (if k == t && !after_root {
                            Some(x)
                        } else {
                            o.left
                        })
                        &&& w.right == (if k == t && after_root {
                            Some(x)
                        } else {
                            o.right
                        })
                    }
            }),
        ensures
            after.wf(),
    {
        let x = before.nodes.len() as usize;
        let pt = before.span@[t].pos;
        let n = before.order@.len() as int;
        let c = if after_root {
            before.nodes[t as int].right
        } else {
            before.nodes[t as int].left
        };
        let at = if after_root { pt + 1 } else { pt };
        assert(before.node_ok(t));
        assert(!before.has(x));
        if let Some(cc) = c {
            assert(before.node_ok(cc));
        }
        assert forall|k: usize| after.has(k) implies #[trigger] after.node_ok(k) by {
            if k == x {
                assert(after.order@[at] == x);
            } else if k == t {
                assert(after.order@[if after_root { pt } else { pt + 1 }] == before.order@[pt]);
                if let Some(l) = before.nodes[t as int].left {
                    assert(before.node_ok(l));
                }
                if let Some(r) = before.nodes[t as int].right {
                    assert(before.node_ok(r));
                }
            } else {
                assert(before.has(k));
                assert(before.node_ok(k));
                before.lemma_side(k);
                let sk = before.span@[k];
                if sk.pos > pt {
                    assert(after.order@[sk.pos + 1] == before.order@[sk.pos]);
                } else {
                    assert(after.order@[sk.pos] == before.order@[sk.pos]);
                }
                if let Some(l) = before.nodes[k as int].left {
                    assert(before.node_ok(l));
                    assert(l != t);
                }
                if let Some(r) = before.nodes[k as int].right {
                    assert(before.node_ok(r));
                    assert(r != t);
                }
                let q = before.nodes[k as int].parent.unwrap();
                assert(before.node_ok(q));
            }
        }
        assert forall|i: int| 0 <= i < after.order@.len() implies after.has(
            #[trigger] after.order@[i],
        ) && after.span@[after.order@[i]].pos == i by {
            if i < at {
                assert(after.order@[i] == before.order@[i]);
                assert(before.has(before.order@[i]));
            } else if i > at {
                assert(after.order@[i] == before.order@[i - 1]);
                assert(before.has(before.order@[i - 1]));
            }
        }
        assert forall|k: usize|
            #![trigger after.has(k)]
            #![trigger after.nodes[k as int]]
            after.has(k) <==> k < after.nodes.len() && after.nodes[k as int].live by {
            assert(before.has(k) <==> k < before.nodes.len() && before.nodes[k as int].live);
        }
    }

    /// Hangs a new node beside the node `t`, which must be live: right after it in
    /// the order where `after_t`, else right before it.
    fn insert_beside(&mut self, t: usize, after_t: bool) -> (x: usize)
        requires
            old(self).wf(),
            old(self).has(t),
        ensures
            final(self).wf(),
            x == old(self).nodes.len(),
            final(self).nodes.len() == old(self).nodes.len() + 1,
            final(self).order@ == old(self).order@.insert(
                if after_t {
                    old(self).span@[t].pos + 1
                } else {
                    old(self).span@[t].pos
                },
                x,
            ),
    {
        let ghost start = *self;
        proof {
            start.lemma_live(t);
        }
        self.splay(t);
        let ghost before = *self;
        proof {
            before.lemma_live(t);
            assert(before.node_ok(t));
        }
        let x = self.nodes.len();
        let c = if after_t {
            self.nodes[t].right
        } else {
            self.nodes[t].left
        };
        proof {
            if let Some(cc) = c {
                assert(before.node_ok(cc));
            }
        }
        if after_t {
            self.nodes.push(TreeNode { parent: Some(t), left: None, right: c, live: true });
            self.nodes[t].right = Some(x);
        } else {
            self.nodes.push(TreeNode { parent: Some(t), left: c, right: None, live: true });
            self.nodes[t].left = Some(x);
        }
        match c {
            Some(cc) => {
                self.nodes[cc].parent = Some(x);
            },
            None => {},
        }
        proof {
            let pt = before.span@[t].pos;
            let n = before.order@.len() as int;
            self.order@ = before.order@.insert(
                if after_t {
                    pt + 1
                } else {
                    pt
                },
                x,
            );
            self.span@ = Map::<usize, Span>::new(
                |k: usize| before.has(k) || k == x,
                |k: usize|
                    if k == x {
                        if after_t {
                            Span { lo: pt + 1, pos: pt + 1, hi: n + 1 }
                        } else {
                            Span { lo: 0, pos: pt, hi: pt + 1 }
                        }
                    } else if k == t {
                        Span { lo: 0, pos: if after_t { pt } else { pt + 1 }, hi: n + 1 }
                    } else if before.span@[k].pos > pt {
                        Self::shifted(before.span@[k], 1)
                    } else {
                        before.span@[k]
                    },
            );
            Self::lemma_insert(before, *self, t, after_t);
        }
        x
    }

    /// Puts a new token into an empty order.
    fn insert_first(&mut self) -> (x: usize)
        requires
            old(self).wf(),
            old(self).root is None,
        ensures
            final(self).wf(),
            x == old(self).nodes.len(),
            final(self).nodes.len() == old(self).nodes.len() + 1,
            final(self).order@ == old(self).order@.insert(0, x),
    {
        let ghost before = *self;
        let x = self.nodes.len();
        self.nodes.push(TreeNode { parent: None, left: None, right: None, live: true });
        self.root = Some(x);
        proof {
            self.order@ = before.order@.insert(0, x);
            self.span@ = Map::<usize, Span>::empty().insert(x, Span { lo: 0, pos: 0, hi: 1 });
            assert forall|k: usize| !before.has(k) by {
                if before.has(k) {
                    assert(before.node_ok(k));
                }
            }
            assert forall|k: usize|
                #![trigger self.has(k)]
                #![trigger self.nodes[k as int]]
                self.has(k) <==> k < self.nodes.len() && self.nodes[k as int].live by {
                assert(before.has(k) <==> k < before.nodes.len() && before.nodes[k as int].live);
            }
            assert(self.node_ok(x));
        }
        x
    }

    /// Puts a new token immediately after the token `t` and returns it. A token
    /// that is not live is an invariant violation, and the order stays as it was.
    pub fn insert_after(&mut self, t: usize) -> (r: Result<usize, TyckError>)
        requires
            old(self).wf(),
        ensures
            final(self).wf(),
            !old(self).is_live(t) ==> r == Err::<usize, TyckError>(TyckError::InvariantViolation)
                && *final(self) == *old(self),
            old(self).is_live(t) ==> r == Ok::<usize, TyckError>(old(self).next_token())
                && final(self).order() == old(self).order().insert(
                old(self).index_of(t) + 1,
                old(self).next_token(),
            ) && final(self).next_token() == old(self).next_token() + 1,
    {
        if !self.contains(t) {
            return Err(TyckError::InvariantViolation);
        }
        proof {
            self.lemma_live(t);
        }
        Ok(self.insert_beside(t, true))
    }

    /// Puts a new token immediately before the token `t` and returns it. A token
    /// that is not live is an invariant violation, and the order stays as it was.
    pub fn insert_before(&mut self, t: usize) -> (r: Result<usize, TyckError>)
        requires
            old(self).wf(),
        ensures
            final(self).wf(),
            !old(self).is_live(t) ==> r == Err::<usize, TyckError>(TyckError::InvariantViolation)
                && *final(self) == *old(self),
            old(self).is_live(t) ==> r == Ok::<usize, TyckError>(old(self).next_token())
                && final(self).order() == old(self).order().insert(
                old(self).index_of(t),
                old(self).next_token(),
            ) && final(self).next_token() == old(self).next_token() + 1,
    {
        if !self.contains(t) {
            return Err(TyckError::InvariantViolation);
        }
        proof {
            self.lemma_live(t);
        }
        Ok(self.insert_beside(t, false))
    }

    /// Whether `before` and `after` are neighbours in the order, `None` standing
    /// for the end of the order on that side.
    pub open spec fn adjacent(self, before: Option<usize>, after: Option<usize>) -> bool {
        match (before, after) {
            (None, None) => self.order().len() == 0,
            (Some(b), None) => self.is_live(b) && self.index_of(b) + 1 == self.order().len(),
            (None, Some(a)) => self.is_live(a) && self.index_of(a) == 0,
            (Some(b), Some(a)) => self.is_live(b) && self.is_live(a) && self.index_of(b) + 1
                == self.index_of(a),
        }
    }

    /// The index at which a token between `before` and what follows it stands.
    pub open spec fn gap(self, before: Option<usize>) -> int {
        match before {
            Some(b) => self.index_of(b) + 1,
            None => 0,
        }
    }

    /// The token that follows the root in the order, if any.
    fn successor_of_root(&self, Ghost(t): Ghost<usize>) -> (r: Option<usize>)
        requires
            self.wf(),
            self.root == Some(t),
        ensures
            r == (if self.span@[t].pos + 1 < self.order@.len() {
                Some(self.order@[self.span@[t].pos + 1])
            } else {
                None
            }),
    {
        let t = self.root.unwrap();
        proof {
            assert(self.has(t));
            assert(self.node_ok(t));
        }
        let mut cur = match self.nodes[t].right {
            None => {
                return None;
            },
            Some(c) => c,
        };
        loop
            invariant
                self.wf(),
                self.has(cur),
                self.has(t),
                self.span@[cur].lo == self.span@[t].pos + 1,
            ensures
                self.has(cur),
                self.span@[cur].pos == self.span@[t].pos + 1,
            decreases self.span@[cur].hi - self.span@[cur].lo,
        {
            proof {
                assert(self.node_ok(cur));
            }
            match self.nodes[cur].left {
                None => {
                    break ;
                },
                Some(l) => {
                    proof {
                        assert(self.node_ok(l));
                    }
                    cur = l;
                },
            }
        }
        proof {
            assert(self.node_ok(cur));
        }
        Some(cur)
    }

    /// Puts a new token between the neighbours `before` and `after` and returns
    /// it; `None` stands for the end of the order on that side. Where the two are
    /// not neighbours the call is an invariant violation and the order stays as
    /// it was.
    pub fn insert_between(&mut self, before: Option<usize>, after: Option<usize>) -> (r: Result<
        usize,
        TyckError,
    >)
        requires
            old(self).wf(),
        ensures
            final(self).wf(),
            !old(self).adjacent(before, after) ==> r == Err::<usize, TyckError>(
                TyckError::InvariantViolation,
            ) && final(self).order() == old(self).order() && final(self).next_token() == old(
                self,
            ).next_token(),
            old(self).adjacent(before, after) ==> r == Ok::<usize, TyckError>(
                old(self).next_token(),
            ) && final(self).order() == old(self).order().insert(
                old(self).gap(before),
                old(self).next_token(),
            ) && final(self).next_token() == old(self).next_token() + 1,
    {
        proof {
            self.lemma_order();
        }
        match before {
            None => match after {
                None => {
                    if self.root.is_some() {
                        proof {
                            assert(self.node_ok(self.root.unwrap()));
                        }
                        return Err(TyckError::InvariantViolation);
                    }
                    Ok(self.insert_first())
                },
                Some(a) => {
                    if !self.contains(a) {
                        return Err(TyckError::InvariantViolation);
                    }
                    proof {
                        self.lemma_live(a);
                    }
                    self.splay(a);
                    proof {
                        self.lemma_live(a);
                        assert(self.node_ok(a));
                        if let Some(l) = self.nodes[a as int].left {
                            assert(self.node_ok(l));
                        }
                    }
                    if self.nodes[a].left.is_some() {
                        return Err(TyckError::InvariantViolation);
                    }
                    Ok(self.insert_beside(a, false))
                },
            },
            Some(b) => {
                if !self.contains(b) {
                    return Err(TyckError::InvariantViolation);
                }
                proof {
                    self.lemma_live(b);
                }
                self.splay(b);
                proof {
                    self.lemma_live(b);
                    self.lemma_order();
                }
                let next = self.successor_of_root(Ghost(b));
                let neighbours = match (next, after) {
                    (None, None) => true,
                    (Some(n), Some(a)) => n == a,
                    _ => false,
                };
                if !neighbours {
                    return Err(TyckError::InvariantViolation);
                }
                Ok(self.insert_beside(b, true))
            },
        }
    }

    /// What taking the root `t` out does to the tree. Its left subtree becomes
    /// the tree, and the right subtree hangs below `m`, the last node of the left
    /// subtree; where there is no left subtree the right one becomes the tree.
    proof fn lemma_remove(before: Self, after: Self, t: usize, m: Option<usize>)
        requires
            before.wf(),
            before.root == Some(t),
            after.nodes.len() == before.nodes.len(),
            ({
                let l = before.nodes[t as int].left;
                let r = before.nodes[t as int].right;
                let pt = before.span@[t].pos;
                let n = before.order@.len() as int;
                &&& l is None ==> m is None
                &&& l is Some ==> m is Some && before.has(m.unwrap()) && before.span@[m.unwrap()].pos
                    == pt - 1
                &&& after.root == (if l is Some {
                    l
                } else {
                    r
                })
                &&& after.order@ == before.order@.remove(pt)
                &&& after.span@ == Map::<usize, Span>::new(
                    |k: usize| before.has(k) && k != t,
                    |k: usize|
                        if before.span@[k].pos > pt {
                            Self::shifted(before.span@[k], -1)
                        } else {
                            Span {
                                lo: before.span@[k].lo,
                                pos: before.span@[k].pos,
                                hi: if before.span@[k].hi == pt {
                                    n - 1
                                } else {
                                    before.span@[k].hi
                                },
                            }
                        },
                )
                &&& forall|k: usize|
                    k < before.nodes.len() ==> {
                        let o = before.nodes[k as int];
                        let w = #[trigger] after.nodes[k as int];
                        &&& w.live == (k != t && o.live)
                        &&& k != t ==> w.left == o.left
                        &&& k != t ==> w.right == (if m == Some(k) {
                            r
                        } else {
                            o.right
                        })
                        &&& k != t ==> w.parent == (if l == Some(k) {
                            None
                        } else if r == Some(k) {
                            m
                        } else {
                            o.parent
                        })
                    }
            }),
        ensures
            after.wf(),
    {
        let l = before.nodes[t as int].left;
        let r = before.nodes[t as int].right;
        let pt = before.span@[t].pos;
        let n = before.order@.len() as int;
        assert(before.node_ok(t));
        if let Some(ll) = l {
            assert(before.node_ok(ll));
        }
        if let Some(rr) = r {
            assert(before.node_ok(rr));
        }
        if let Some(mm) = m {
            assert(before.node_ok(mm));
            assert(mm != t);
            before.lemma_side(mm);
            if let Some(c) = before.nodes[mm as int].right {
                assert(before.node_ok(c));
            }
        }
        assert forall|k: usize| after.has(k) implies #[trigger] after.node_ok(k) by {
            assert(before.has(k));
            assert(before.node_ok(k));
            before.lemma_side(k);
            let sk = before.span@[k];
            if sk.pos > pt {
                assert(after.order@[sk.pos - 1] == before.order@[sk.pos]);
            } else {
                assert(after.order@[sk.pos] == before.order@[sk.pos]);
            }
            if let Some(c) = before.nodes[k as int].left {
                assert(before.node_ok(c));
                assert(c != t);
            }
            if let Some(c) = before.nodes[k as int].right {
                assert(before.node_ok(c));
                assert(c != t);
            }
            let q = before.nodes[k as int].parent.unwrap();
            assert(before.node_ok(q));
            if let Some(mm) = m {
                if sk.pos == pt - 1 {
                    assert(before.order@[sk.pos] == k);
                    assert(k == mm);
                }
            }
        }
        assert forall|i: int| 0 <= i < after.order@.len() implies after.has(
            #[trigger] after.order@[i],
        ) && after.span@[after.order@[i]].pos == i by {
            if i < pt {
                assert(after.order@[i] == before.order@[i]);
                assert(before.has(before.order@[i]));
            } else {
                assert(after.order@[i] == before.order@[i + 1]);
                assert(before.has(before.order@[i + 1]));
            }
        }
        assert forall|k: usize|
            #![trigger after.has(k)]
            #![trigger after.nodes[k as int]]
            after.has(k) <==> k < after.nodes.len() && after.nodes[k as int].live by {
            assert(before.has(k) <==> k < before.nodes.len() && before.nodes[k as int].live);
        }
    }

    /// Takes the token `t` out of the order. A token that is not live is an
    /// invariant violation, and the order stays as it was.
    pub fn remove(&mut self, t: usize) -> (r: Result<(), TyckError>)
        requires
            old(self).wf(),
        ensures
            final(self).wf(),
            final(self).next_token() == old(self).next_token(),
            !old(self).is_live(t) ==> r == Err::<(), TyckError>(TyckError::InvariantViolation)
                && *final(self) == *old(self),
            old(self).is_live(t) ==> r == Ok::<(), TyckError>(()) && final(self).order() == old(
                self,
            ).order().remove(old(self).index_of(t)),
    {
        if !self.contains(t) {
            return Err(TyckError::InvariantViolation);
        }
        proof {
            self.lemma_live(t);
        }
        self.splay(t);
        let ghost before = *self;
        proof {
            before.lemma_live(t);
            assert(before.node_ok(t));
        }
        let l = self.nodes[t].left;
        let r = self.nodes[t].right;
        let m = match l {
            None => None,
            Some(ll) => {
                proof {
                    assert(self.node_ok(ll));
                }
                let mut cur = ll;
                loop
                    invariant
                        self.wf(),
                        self.has(cur),
                        self.has(t),
                        self.span@[cur].hi == self.span@[t].pos,
                    ensures
                        self.has(cur),
                        self.span@[cur].pos == self.span@[t].pos - 1,
                    decreases self.span@[cur].hi - self.span@[cur].lo,
                {
                    proof {
                        assert(self.node_ok(cur));
                    }
                    match self.nodes[cur].right {
                        None => {
                            break ;
                        },
                        Some(c) => {
                            proof {
                                assert(self.node_ok(c));
                            }
                            cur = c;
                        },
                    }
                }
                Some(cur)
            },
        };
        proof {
            if let Some(rr) = r {
                assert(before.node_ok(rr));
            }
            if let Some(mm) = m {
                assert(before.node_ok(mm));
            }
        }
        self.nodes[t].live = false;
        match m {
            Some(mm) => {
                self.nodes[mm].right = r;
            },
            None => {},
        }
        match r {
            Some(rr) => {
                self.nodes[rr].parent = m;
            },
            None => {},
        }
        match l {
            Some(ll) => {
                self.nodes[ll].parent = None;
                self.root = Some(ll);
            },
            None => {
                self.root = r;
            },
        }
        proof {
            let pt = before.span@[t].pos;
            let n = before.order@.len() as int;
            self.order@ = before.order@.remove(pt);
            self.span@ = Map::<usize, Span>::new(
                |k: usize| before.has(k) && k != t,
                |k: usize|
                    if before.span@[k].pos > pt {
                        Self::shifted(before.span@[k], -1)
                    } else {
                        Span {
                            lo: before.span@[k].lo,
                            pos: before.span@[k].pos,
                            hi: if before.span@[k].hi == pt {
                                n - 1
                            } else {
                                before.span@[k].hi
                            },
                        }
                    },
            );
            Self::lemma_remove(before, *self, t, m);
        }
        match m {
            Some(mm) => {
                self.splay(mm);
            },
            None => {},
        }
        Ok(())
    }
}

} // verus!
