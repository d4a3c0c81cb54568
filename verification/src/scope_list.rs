//! The scope list: an ordered sequence of items held in a doubly linked ring.
//!
//! The ring has one sentinel node, so that the list is empty exactly when the
//! sentinel is its own successor. Nodes live in a vector and name each other by
//! index; the index of a node is the *position* that an insertion hands out and that
//! later locates the item in constant time. A slot is never used twice, so a
//! position that has left the list is recognised as such for good.

use crate::error::TyckError;
use vstd::prelude::*;

verus! {

/// One node of the ring. The sentinel and the nodes that have left the list hold no item.
pub struct ListNode<T> {
    prev: usize,
    next: usize,
    item: Option<T>,
}

/// An ordered sequence of items with constant-time insertion before a known
/// position and constant-time removal of a known position.
pub struct ScopeList<T> {
    nodes: Vec<ListNode<T>>,
    order: Ghost<Seq<usize>>,
}

impl<T> View for ScopeList<T> {
    type V = Seq<T>;

    /// The items of the list, front to back.
    open spec fn view(&self) -> Seq<T> {
        self.items_spec()
    }
}

impl<T> ScopeList<T> {
    /// The node that stands at index `i` of the list; the sentinel outside of it.
    spec fn at(self, i: int) -> usize {
        if 0 <= i < self.order@.len() {
            self.order@[i]
        } else {
            0
        }
    }

    /// The node at index `i` of the list holds an item and is linked to its neighbours.
    spec fn node_ok(self, i: int) -> bool {
        &&& 0 < self.order@[i] < self.nodes.len()
        &&& self.nodes[self.order@[i] as int].item is Some
        &&& self.nodes[self.order@[i] as int].next == self.at(i + 1)
        &&& self.nodes[self.order@[i] as int].prev == self.at(i - 1)
    }

    /// The ring is closed, every listed node holds an item and is linked to its
    /// neighbours, no node is listed twice, and no other node holds an item.
    pub closed spec fn wf(self) -> bool {
        &&& self.nodes.len() >= 1
        &&& self.order@.len() < self.nodes.len()
        &&& self.nodes[0].item is None
        &&& self.nodes[0].next == self.at(0)
        &&& self.nodes[0].prev == self.at(self.order@.len() - 1)
        &&& forall|i: int| 0 <= i < self.order@.len() ==> #[trigger] self.node_ok(i)
        &&& forall|i: int, j: int|
            0 <= i < j < self.order@.len() ==> self.order@[i] != self.order@[j]
        &&& forall|h: int|
            0 < h < self.nodes.len() && (#[trigger] self.nodes[h]).item is Some
                ==> self.order@.contains(h as usize)
    }

    /// The items of the list, front to back.
    pub closed spec fn items_spec(self) -> Seq<T> {
        Seq::new(self.order@.len(), |i: int| self.nodes[self.order@[i] as int].item.unwrap())
    }

    /// The positions of the items, front to back: `positions()[i]` locates `self@[i]`.
    pub closed spec fn positions(self) -> Seq<usize> {
        self.order@
    }

    /// The position that the next insertion will hand out.
    pub closed spec fn next_position(self) -> usize {
        self.nodes.len()
    }

    /// Whether `pos` locates an item of the list.
    pub open spec fn is_live(self, pos: usize) -> bool {
        self.positions().contains(pos)
    }

    /// The index in the list of the item that `pos` locates.
    pub open spec fn index_of(self, pos: usize) -> int {
        self.positions().index_of(pos)
    }

    /// Positions and items run in parallel, no position occurs twice, every
    /// position was handed out before, and fewer items are in the list than
    /// positions were handed out.
    pub proof fn lemma_positions(self)
        requires
            self.wf(),
        ensures
            self.positions().len() == self@.len(),
            self@.len() < self.next_position(),
            self.positions().no_duplicates(),
            forall|i: int|
                0 <= i < self.positions().len() ==> 0 < #[trigger] self.positions()[i]
                    < self.next_position(),
            forall|pos: usize|
                self.is_live(pos) ==> 0 <= #[trigger] self.index_of(pos) < self@.len()
                    && self.positions()[self.index_of(pos)] == pos,
            forall|i: int|
                0 <= i < self.positions().len() ==> self.index_of(
                    #[trigger] self.positions()[i],
                ) == i,
    {
        assert forall|i: int| 0 <= i < self.positions().len() implies 0
            < #[trigger] self.positions()[i] < self.next_position() by {
            assert(self.node_ok(i));
        }
        assert forall|i: int| 0 <= i < self.positions().len() implies self.index_of(
            #[trigger] self.positions()[i],
        ) == i by {
            let p = self.positions()[i];
            assert(self.positions().contains(p));
            let k = self.positions().index_of(p);
            assert(self.positions()[k] == p);
            if k < i {
                assert(self.order@[k] != self.order@[i]);
            } else if i < k {
                assert(self.order@[i] != self.order@[k]);
            }
        }
    }

    /// An empty list: the sentinel alone, linked to itself.
    pub fn new() -> (list: Self)
        ensures
            list.wf(),
            list@ == Seq::<T>::empty(),
            list.positions() == Seq::<usize>::empty(),
    {
        let mut nodes: Vec<ListNode<T>> = Vec::new();
        nodes.push(ListNode { prev: 0, next: 0, item: None });
        let list = ScopeList { nodes, order: Ghost(Seq::empty()) };
        assert(list@ =~= Seq::<T>::empty());
        list
    }

    /// Whether the list holds no item: whether the sentinel is its own successor.
    pub fn is_empty(&self) -> (r: bool)
        requires
            self.wf(),
        ensures
            r == (self@.len() == 0),
    {
        proof {
            if self.order@.len() > 0 {
                assert(self.node_ok(0));
            }
        }
        self.nodes[0].next == 0
    }

    /// Whether `pos` locates an item of the list.
    pub fn contains_position(&self, pos: usize) -> (r: bool)
        requires
            self.wf(),
        ensures
            r == self.is_live(pos),
    {
        if pos == 0 || pos >= self.nodes.len() {
            proof {
                if self.order@.contains(pos) {
                    let k = self.order@.index_of(pos);
                    assert(self.node_ok(k));
                }
            }
            return false;
        }
        let r = self.nodes[pos].item.is_some();
        proof {
            if self.order@.contains(pos) {
                let k = self.order@.index_of(pos);
                assert(self.node_ok(k));
            }
        }
        r
    }

    /// What linking a new node in front of index `i` does to the ring.
    proof fn lemma_link(before: Self, after: Self, i: int, item: T)
        requires
            before.wf(),
            0 <= i <= before.order@.len(),
            after.nodes.len() == before.nodes.len() + 1,
            after.order@ == before.order@.insert(i, before.nodes.len() as usize),
            after.nodes[before.nodes.len() as int] == (ListNode {
                prev: before.at(i - 1),
                next: before.at(i),
                item: Some(item),
            }),
            forall|h: int|
                0 <= h < before.nodes.len() ==> {
                    &&& (#[trigger] after.nodes[h]).item == before.nodes[h].item
                    &&& after.nodes[h].next == (if h == before.at(i - 1) {
                        before.nodes.len() as usize
                    } else {
                        before.nodes[h].next
                    })
                    &&& after.nodes[h].prev == (if h == before.at(i) {
                        before.nodes.len() as usize
                    } else {
                        before.nodes[h].prev
                    })
                },
        ensures
            after.wf(),
            after@ == before@.insert(i, item),
    {
        let old_order = before.order@;
        let new_order = after.order@;
        let pos = before.nodes.len() as usize;
        let n = old_order.len() as int;
        assert(new_order.len() == n + 1);
        assert forall|k: int| 0 <= k < n implies 0 < #[trigger] old_order[k] < pos by {
            assert(before.node_ok(k));
        }
        assert forall|k: int| 0 <= k < new_order.len() implies #[trigger] after.node_ok(k) by {
            if k < i {
                assert(before.node_ok(k));
                assert(new_order[k] == old_order[k]);
                if k + 1 < i {
                    assert(old_order[k] != old_order[i - 1]);
                    assert(new_order[k + 1] == old_order[k + 1]);
                }
                if i < n {
                    assert(old_order[k] != old_order[i]);
                }
                if k > 0 {
                    assert(new_order[k - 1] == old_order[k - 1]);
                }
            } else if k == i {
                assert(new_order[i] == pos);
                if i < n {
                    assert(new_order[i + 1] == old_order[i]);
                }
                if i > 0 {
                    assert(new_order[i - 1] == old_order[i - 1]);
                }
            } else {
                assert(before.node_ok(k - 1));
                assert(new_order[k] == old_order[k - 1]);
                if i > 0 {
                    assert(old_order[i - 1] != old_order[k - 1]);
                }
                if k - 1 > i {
                    assert(old_order[i] != old_order[k - 1]);
                    assert(new_order[k - 1] == old_order[k - 2]);
                }
                if k < n {
                    assert(new_order[k + 1] == old_order[k]);
                }
            }
        }
        assert forall|a: int, b: int| 0 <= a < b < new_order.len() implies new_order[a]
            != new_order[b] by {
            let oa = if a < i { a } else { a - 1 };
            let ob = if b < i { b } else { b - 1 };
            if a != i && b != i {
                assert(old_order[oa] != old_order[ob]);
            } else if a == i {
                assert(old_order[ob] < pos);
            } else {
                assert(old_order[oa] < pos);
            }
        }
        assert forall|h: int|
            0 < h < after.nodes.len() && (#[trigger] after.nodes[h]).item is Some
                implies new_order.contains(h as usize) by {
            if h == pos {
                assert(new_order[i] == pos);
            } else {
                assert(before.nodes[h].item is Some);
                let k = old_order.index_of(h as usize);
                assert(old_order[k] == h);
                if k < i {
                    assert(new_order[k] == h);
                } else {
                    assert(new_order[k + 1] == h);
                }
            }
        }
        assert(after.nodes[0].next == after.at(0)) by {
            if i > 0 {
                assert(before.node_ok(0));
                assert(new_order[0] == old_order[0]);
            } else {
                assert(new_order[0] == pos);
            }
        }
        assert(after.nodes[0].prev == after.at(new_order.len() - 1)) by {
            if i < n {
                assert(before.node_ok(i));
                assert(before.node_ok(n - 1));
                assert(new_order[n] == old_order[n - 1]);
            } else {
                assert(new_order[n] == pos);
            }
        }
        assert forall|k: int| 0 <= k < new_order.len() implies after@[k] == before@.insert(
            i,
            item,
        )[k] by {
            if k < i {
                assert(new_order[k] == old_order[k]);
            } else if k > i {
                assert(new_order[k] == old_order[k - 1]);
            }
        }
        assert(after@ =~= before@.insert(i, item));
    }

    /// Links a new node that holds `item` in front of the node `this`, which is
    /// the node at index `i` of the list, or the sentinel where `i` is the length.
    fn link_before(&mut self, this: usize, item: T, Ghost(i): Ghost<int>) -> (pos: usize)
        requires
            old(self).wf(),
            0 <= i <= old(self).order@.len(),
            this == old(self).at(i),
        ensures
            final(self).wf(),
            final(self)@ == old(self)@.insert(i, item),
            final(self).positions() == old(self).positions().insert(i, pos),
            pos == old(self).next_position(),
            final(self).next_position() == old(self).next_position() + 1,
    {
        let ghost before = *self;
        proof {
            if i < before.order@.len() {
                assert(before.node_ok(i));
            }
            if i > 0 {
                assert(before.node_ok(i - 1));
            }
        }
        let prev = self.nodes[this].prev;
        let pos = self.nodes.len();
        self.nodes.push(ListNode { prev, next: this, item: Some(item) });
        self.nodes[prev].next = pos;
        self.nodes[this].prev = pos;
        self.order = Ghost(before.order@.insert(i, pos));
        proof {
            Self::lemma_link(before, *self, i, item);
        }
        pos
    }

    /// Appends `item` and returns its position.
    pub fn push_back(&mut self, item: T) -> (pos: usize)
        requires
            old(self).wf(),
        ensures
            final(self).wf(),
            final(self)@ == old(self)@.push(item),
            final(self).positions() == old(self).positions().push(pos),
            pos == old(self).next_position(),
            final(self).next_position() == old(self).next_position() + 1,
    {
        let ghost n = self.order@.len() as int;
        let pos = self.link_before(0, item, Ghost(n));
        proof {
            assert(old(self)@.insert(n, item) =~= old(self)@.push(item));
            assert(old(self).positions().insert(n, pos) =~= old(self).positions().push(pos));
        }
        pos
    }

    /// Puts `item` in front of all others and returns its position.
    pub fn push_front(&mut self, item: T) -> (pos: usize)
        requires
            old(self).wf(),
        ensures
            final(self).wf(),
            final(self)@ == old(self)@.insert(0, item),
            final(self).positions() == old(self).positions().insert(0, pos),
            pos == old(self).next_position(),
            final(self).next_position() == old(self).next_position() + 1,
    {
        let first = self.nodes[0].next;
        self.link_before(first, item, Ghost(0))
    }

    /// Puts `item` immediately in front of the item that `at` locates and returns
    /// the new position. A position that locates nothing is an invariant
    /// violation, and the list stays as it was.
    pub fn insert_before(&mut self, at: usize, item: T) -> (r: Result<usize, TyckError>)
        requires
            old(self).wf(),
        ensures
            final(self).wf(),
            !old(self).is_live(at) ==> r == Err::<usize, TyckError>(TyckError::InvariantViolation)
                && *final(self) == *old(self),
            old(self).is_live(at) ==> r == Ok::<usize, TyckError>(old(self).next_position())
                && final(self)@ == old(self)@.insert(old(self).index_of(at), item)
                && final(self).positions() == old(self).positions().insert(
                old(self).index_of(at),
                old(self).next_position(),
            ) && final(self).next_position() == old(self).next_position() + 1,
    {
        if !self.contains_position(at) {
            return Err(TyckError::InvariantViolation);
        }
        let ghost i = self.order@.index_of(at);
        let pos = self.link_before(at, item, Ghost(i));
        Ok(pos)
    }

    /// What taking the node at index `i` out does to the ring.
    proof fn lemma_unlink(before: Self, after: Self, i: int)
        requires
            before.wf(),
            0 <= i < before.order@.len(),
            after.nodes.len() == before.nodes.len(),
            after.order@ == before.order@.remove(i),
            forall|h: int|
                0 <= h < before.nodes.len() ==> {
                    &&& (#[trigger] after.nodes[h]).item == (if h == before.order@[i] {
                        None
                    } else {
                        before.nodes[h].item
                    })
                    &&& h != before.order@[i] ==> after.nodes[h].next == (if h == before.at(
                        i - 1,
                    ) {
                        before.at(i + 1)
                    } else {
                        before.nodes[h].next
                    })
                    &&& h != before.order@[i] ==> after.nodes[h].prev == (if h == before.at(
                        i + 1,
                    ) {
                        before.at(i - 1)
                    } else {
                        before.nodes[h].prev
                    })
                },
        ensures
            after.wf(),
            after@ == before@.remove(i),
    {
        let old_order = before.order@;
        let new_order = after.order@;
        let n = old_order.len() as int;
        let this = old_order[i];
        assert(new_order.len() == n - 1);
        assert(before.node_ok(i));
        if i > 0 {
            assert(before.node_ok(i - 1));
        }
        if i + 1 < n {
            assert(before.node_ok(i + 1));
        }
        assert forall|k: int| 0 <= k < n && k != i implies #[trigger] old_order[k] != this by {
            if k < i {
                assert(old_order[k] != old_order[i]);
            } else {
                assert(old_order[i] != old_order[k]);
            }
        }
        assert forall|k: int| 0 <= k < new_order.len() implies #[trigger] after.node_ok(k) by {
            let ok = if k < i { k } else { k + 1 };
            assert(before.node_ok(ok));
            assert(new_order[k] == old_order[ok]);
            assert(old_order[ok] != this);
            if k + 1 < new_order.len() {
                assert(new_order[k + 1] == old_order[if k + 1 < i { k + 1 } else { k + 2 }]);
            }
            if k > 0 {
                assert(new_order[k - 1] == old_order[if k - 1 < i { k - 1 } else { k }]);
            }
            if i > 0 && ok != i - 1 {
                if ok < i - 1 {
                    assert(old_order[ok] != old_order[i - 1]);
                } else {
                    assert(old_order[i - 1] != old_order[ok]);
                }
            }
            if i + 1 < n && ok != i + 1 {
                if ok < i + 1 {
                    assert(old_order[ok] != old_order[i + 1]);
                } else {
                    assert(old_order[i + 1] != old_order[ok]);
                }
            }
        }
        assert forall|a: int, b: int| 0 <= a < b < new_order.len() implies new_order[a]
            != new_order[b] by {
            let oa = if a < i { a } else { a + 1 };
            let ob = if b < i { b } else { b + 1 };
            assert(old_order[oa] != old_order[ob]);
        }
        assert forall|h: int|
            0 < h < after.nodes.len() && (#[trigger] after.nodes[h]).item is Some
                implies new_order.contains(h as usize) by {
            assert(h != this);
            assert(before.nodes[h].item is Some);
            let k = old_order.index_of(h as usize);
            assert(old_order[k] == h);
            if k < i {
                assert(new_order[k] == h);
            } else {
                assert(new_order[k - 1] == h);
            }
        }
        assert(after.nodes[0].next == after.at(0)) by {
            if n > 1 {
                assert(before.node_ok(0));
                assert(before.node_ok(1));
                assert(new_order[0] == old_order[if 0 < i { 0int } else { 1int }]);
            }
        }
        assert(after.nodes[0].prev == after.at(new_order.len() - 1)) by {
            if n > 1 {
                assert(before.node_ok(n - 1));
                assert(before.node_ok(n - 2));
                assert(new_order[n - 2] == old_order[if n - 2 < i { n - 2 } else { n - 1 }]);
            }
        }
        assert forall|k: int| 0 <= k < new_order.len() implies after@[k] == before@.remove(i)[k] by {
            let ok = if k < i { k } else { k + 1 };
            assert(new_order[k] == old_order[ok]);
            assert(old_order[ok] != this);
            assert(before.node_ok(ok));
        }
        assert(after@ =~= before@.remove(i));
    }

    /// Takes the node at index `i` of the list out of the ring.
    fn unlink_node(&mut self, this: usize, Ghost(i): Ghost<int>) -> (item: T)
        requires
            old(self).wf(),
            0 <= i < old(self).order@.len(),
            this == old(self).order@[i],
        ensures
            final(self).wf(),
            item == old(self)@[i],
            final(self)@ == old(self)@.remove(i),
            final(self).positions() == old(self).positions().remove(i),
            final(self).next_position() == old(self).next_position(),
    {
        let ghost before = *self;
        proof {
            assert(before.node_ok(i));
            if i > 0 {
                assert(before.node_ok(i - 1));
                assert(before.order@[i - 1] != before.order@[i]);
            }
            if i + 1 < before.order@.len() {
                assert(before.node_ok(i + 1));
                assert(before.order@[i] != before.order@[i + 1]);
            }
        }
        let prev = self.nodes[this].prev;
        let next = self.nodes[this].next;
        self.nodes[prev].next = next;
        self.nodes[next].prev = prev;
        let taken = self.nodes[this].item.take();
        self.order = Ghost(before.order@.remove(i));
        proof {
            Self::lemma_unlink(before, *self, i);
        }
        taken.unwrap()
    }

    /// Removes the item that `pos` locates and returns it. A position that
    /// locates nothing, because its item has left the list already or because it
    /// was never handed out, is an invariant violation, and the list stays as it was.
    pub fn unlink(&mut self, pos: usize) -> (r: Result<T, TyckError>)
        requires
            old(self).wf(),
        ensures
            final(self).wf(),
            final(self).next_position() == old(self).next_position(),
            !old(self).is_live(pos) ==> r == Err::<T, TyckError>(TyckError::InvariantViolation)
                && *final(self) == *old(self),
            old(self).is_live(pos) ==> r == Ok::<T, TyckError>(
                old(self)@[old(self).index_of(pos)],
            ) && final(self)@ == old(self)@.remove(old(self).index_of(pos))
                && final(self).positions() == old(self).positions().remove(
                old(self).index_of(pos),
            ),
    {
        if !self.contains_position(pos) {
            return Err(TyckError::InvariantViolation);
        }
        let ghost i = self.order@.index_of(pos);
        let item = self.unlink_node(pos, Ghost(i));
        Ok(item)
    }

    /// Removes the last item and returns it with the position it had; `None` on
    /// an empty list.
    pub fn pop_back(&mut self) -> (r: Option<(usize, T)>)
        requires
            old(self).wf(),
        ensures
            final(self).wf(),
            final(self).next_position() == old(self).next_position(),
            old(self)@.len() == 0 ==> r.is_none() && *final(self) == *old(self),
            old(self)@.len() > 0 ==> r == Some((old(self).positions().last(), old(self)@.last()))
                && final(self)@ == old(self)@.drop_last() && final(self).positions() == old(
                self,
            ).positions().drop_last(),
    {
        let last = self.nodes[0].prev;
        if last == 0 {
            proof {
                if self.order@.len() > 0 {
                    assert(self.node_ok(self.order@.len() - 1));
                }
            }
            return None;
        }
        let ghost i = self.order@.len() - 1;
        proof {
            assert(old(self)@.remove(i) =~= old(self)@.drop_last());
            assert(old(self).positions().remove(i) =~= old(self).positions().drop_last());
        }
        let item = self.unlink_node(last, Ghost(i));
        Some((last, item))
    }

    /// The item that `pos` locates, if it locates one.
    pub fn get(&self, pos: usize) -> (r: Option<&T>)
        requires
            self.wf(),
        ensures
            !self.is_live(pos) ==> r.is_none(),
            self.is_live(pos) ==> r == Some(&self@[self.index_of(pos)]),
    {
        if !self.contains_position(pos) {
            return None;
        }
        proof {
            assert(self.node_ok(self.order@.index_of(pos)));
        }
        match &self.nodes[pos].item {
            Some(item) => Some(item),
            None => None,
        }
    }

    /// Puts `item` in the place of the item that `pos` locates and returns the
    /// item that was there; the position stays valid. A position that locates
    /// nothing is an invariant violation, and the list stays as it was.
    pub fn replace(&mut self, pos: usize, item: T) -> (r: Result<T, TyckError>)
        requires
            old(self).wf(),
        ensures
            final(self).wf(),
            final(self).next_position() == old(self).next_position(),
            final(self).positions() == old(self).positions(),
            !old(self).is_live(pos) ==> r == Err::<T, TyckError>(TyckError::InvariantViolation)
                && *final(self) == *old(self),
            old(self).is_live(pos) ==> r == Ok::<T, TyckError>(
                old(self)@[old(self).index_of(pos)],
            ) && final(self)@ == old(self)@.update(old(self).index_of(pos), item),
    {
        if !self.contains_position(pos) {
            return Err(TyckError::InvariantViolation);
        }
        let ghost before = *self;
        let ghost i = self.order@.index_of(pos);
        proof {
            assert(before.node_ok(i));
        }
        let taken = self.nodes[pos].item.take();
        self.nodes[pos].item = Some(item);
        proof {
            assert(before.order@[i] == pos);
            assert forall|k: int| 0 <= k < self.order@.len() implies #[trigger] self.node_ok(
                k,
            ) by {
                assert(before.node_ok(k));
            }
            assert forall|h: int|
                0 < h < self.nodes.len() && (#[trigger] self.nodes[h]).item is Some
                    implies self.order@.contains(h as usize) by {
                if h != pos {
                    assert(before.nodes[h].item is Some);
                }
            }
            assert forall|k: int| 0 <= k < self.order@.len() implies self@[k] == before@.update(
                i,
                item,
            )[k] by {
                assert(before.node_ok(k));
                if k < i {
                    assert(before.order@[k] != before.order@[i]);
                    assert(self.nodes[self.order@[k] as int] == before.nodes[before.order@[k] as int]);
                } else if k > i {
                    assert(before.order@[i] != before.order@[k]);
                    assert(self.nodes[self.order@[k] as int] == before.nodes[before.order@[k] as int]);
                } else {
                    assert(self.nodes[pos as int].item == Some(item));
                }
            }
            assert(self@ =~= before@.update(i, item));
        }
        Ok(taken.unwrap())
    }

    /// The position of the last item; `None` on an empty list.
    pub fn back(&self) -> (r: Option<usize>)
        requires
            self.wf(),
        ensures
            r == (if self@.len() == 0 {
                None
            } else {
                Some(self.positions().last())
            }),
    {
        let last = self.nodes[0].prev;
        proof {
            if self.order@.len() > 0 {
                assert(self.node_ok(self.order@.len() - 1));
            }
        }
        if last == 0 {
            None
        } else {
            Some(last)
        }
    }

    /// The position of the first item; `None` on an empty list.
    pub fn front(&self) -> (r: Option<usize>)
        requires
            self.wf(),
        ensures
            r == (if self@.len() == 0 {
                None
            } else {
                Some(self.positions()[0])
            }),
    {
        let first = self.nodes[0].next;
        proof {
            if self.order@.len() > 0 {
                assert(self.node_ok(0));
            }
        }
        if first == 0 {
            None
        } else {
            Some(first)
        }
    }

    /// The items front to back, read by walking the ring from the sentinel
    /// until it comes round again.
    pub fn items(&self) -> (out: Vec<&T>)
        requires
            self.wf(),
        ensures
            out@.len() == self@.len(),
            forall|i: int| 0 <= i < out@.len() ==> *out@[i] == self@[i],
    {
        let mut out: Vec<&T> = Vec::new();
        let mut cursor = self.nodes[0].next;
        let ghost mut i: int = 0;
        while cursor != 0
            invariant
                self.wf(),
                0 <= i <= self.order@.len(),
                cursor == self.at(i),
                out@.len() == i,
                forall|k: int| 0 <= k < i ==> *out@[k] == self@[k],
            decreases self.order@.len() - i,
        {
            assert(i < self.order@.len());
            assert(self.node_ok(i));
            match &self.nodes[cursor].item {
                Some(item) => {
                    out.push(item);
                },
                None => {},
            }
            cursor = self.nodes[cursor].next;
            proof {
                i = i + 1;
            }
        }
        proof {
            if i < self.order@.len() {
                assert(self.node_ok(i));
            }
        }
        out
    }
}

} // verus!
