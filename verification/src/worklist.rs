//! The worklist: the scope list together with the order index that mirrors it.
//!
//! Every item of the list owns a token of the index, and the tokens stand in the
//! index in the order in which the items stand in the list. Every insertion and
//! removal changes both at once, so that the scope order of two positions can be
//! asked of the index at any time.

use crate::error::TyckError;
use crate::order_index::{Direction, OrderIndex};
use crate::scope_list::ScopeList;
use vstd::prelude::*;

verus! {

/// An item of the list with its token of the index.
pub struct Entry<T> {
    item: T,
    token: usize,
}

/// An ordered sequence of items with positions that stay valid while their item
/// is in the list, and with a fast answer to which of two positions comes first.
pub struct Worklist<T> {
    list: ScopeList<Entry<T>>,
    index: OrderIndex,
}

impl<T> View for Worklist<T> {
    type V = Seq<T>;

    /// The items of the worklist, front to back.
    open spec fn view(&self) -> Seq<T> {
        self.items_spec()
    }
}

impl<T> Worklist<T> {
    /// List and index are well formed, and the tokens of the items, read front to
    /// back, are the order of the index.
    pub closed spec fn wf(self) -> bool {
        &&& self.list.wf()
        &&& self.index.wf()
        &&& self.list@.len() == self.index.order().len()
        &&& forall|i: int|
            0 <= i < self.list@.len() ==> (#[trigger] self.list@[i]).token
                == self.index.order()[i]
    }

    /// The items of the worklist, front to back.
    pub closed spec fn items_spec(self) -> Seq<T> {
        Seq::new(self.list@.len(), |i: int| self.list@[i].item)
    }

    /// The positions of the items, front to back: `positions()[i]` locates `self@[i]`.
    pub closed spec fn positions(self) -> Seq<usize> {
        self.list.positions()
    }

    /// The position that the next insertion will hand out.
    pub closed spec fn next_position(self) -> usize {
        self.list.next_position()
    }

    /// Whether `pos` locates an item of the worklist.
    pub open spec fn is_live(self, pos: usize) -> bool {
        self.positions().contains(pos)
    }

    /// The index in the worklist of the item that `pos` locates.
    pub open spec fn index_of(self, pos: usize) -> int {
        self.positions().index_of(pos)
    }

    /// The token of the index that belongs to the position `pos`.
    pub closed spec fn token_of(self, pos: usize) -> usize {
        self.list@[self.list.index_of(pos)].token
    }

    /// The place of a token in the index.
    pub closed spec fn rank_of(self, token: usize) -> int {
        self.index.index_of(token)
    }

    /// Positions and items run in parallel, no position occurs twice, every
    /// position was handed out before, and fewer items are in the worklist than
    /// positions were handed out.
    pub proof fn lemma_positions(self)
        requires
            self.wf(),
        ensures
            self.positions().len() == self@.len(),
            self@.len() < self.next_position(),
            self.positions().no_duplicates(),
            forall|i: int|
                0 <= i < self.positions().len() ==> 0 < #[trigger] self.positions()[i]
                    < self.next_position(),
            forall|pos: usize|
                self.is_live(pos) ==> 0 <= #[trigger] self.index_of(pos) < self@.len()
                    && self.positions()[self.index_of(pos)] == pos,
            forall|i: int|
                0 <= i < self.positions().len() ==> self.index_of(
                    #[trigger] self.positions()[i],
                ) == i,
    {
        self.list.lemma_positions();
    }

    /// The index agrees with the list: of two positions of the worklist, the one
    /// whose token comes first in the index is the one that comes first in the list.
    pub proof fn lemma_order_agrees(self, a: usize, b: usize)
        requires
            self.wf(),
            self.is_live(a),
            self.is_live(b),
        ensures
            self.rank_of(self.token_of(a)) < self.rank_of(self.token_of(b)) <==> self.index_of(a)
                < self.index_of(b),
    {
        self.list.lemma_positions();
        self.index.lemma_order();
        let i = self.list.index_of(a);
        let j = self.list.index_of(b);
        assert(self.list@[i].token == self.index.order()[i]);
        assert(self.list@[j].token == self.index.order()[j]);
    }

    /// An empty worklist.
    pub fn new() -> (w: Self)
        ensures
            w.wf(),
            w@ == Seq::<T>::empty(),
            w.positions() == Seq::<usize>::empty(),
    {
        let w = Worklist { list: ScopeList::new(), index: OrderIndex::new() };
        assert(w@ =~= Seq::<T>::empty());
        w
    }

    /// Whether the worklist holds no item.
    pub fn is_empty(&self) -> (r: bool)
        requires
            self.wf(),
        ensures
            r == (self@.len() == 0),
    {
        self.list.is_empty()
    }

    /// Whether `pos` locates an item of the worklist.
    pub fn contains_position(&self, pos: usize) -> (r: bool)
        requires
            self.wf(),
        ensures
            r == self.is_live(pos),
    {
        self.list.contains_position(pos)
    }

    /// The item that `pos` locates, if it locates one.
    pub fn get(&self, pos: usize) -> (r: Option<&T>)
        requires
            self.wf(),
        ensures
            !self.is_live(pos) ==> r.is_none(),
            self.is_live(pos) ==> r == Some(&self@[self.index_of(pos)]),
    {
        proof {
            self.list.lemma_positions();
        }
        match self.list.get(pos) {
            Some(entry) => Some(&entry.item),
            None => None,
        }
    }

    /// The token of the item that `pos` locates.
    fn token_at(&self, pos: usize) -> (r: Option<usize>)
        requires
            self.wf(),
        ensures
            !self.is_live(pos) ==> r.is_none(),
            self.is_live(pos) ==> r == Some(self.index.order()[self.index_of(pos)])
                && self.index.is_live(r.unwrap()) && self.index.index_of(r.unwrap())
                == self.index_of(pos) && r.unwrap() == self.token_of(pos),
    {
        proof {
            self.list.lemma_positions();
            self.index.lemma_order();
        }
        match self.list.get(pos) {
            Some(entry) => {
                proof {
                    let i = self.list.index_of(pos);
                    assert(self.list@[i].token == self.index.order()[i]);
                }
                Some(entry.token)
            },
            None => None,
        }
    }

    /// Puts `entry` into the list so that it stands at index `i`, once its token
    /// stands at index `i` of the index.
    proof fn lemma_inserted(before: Self, after: Self, i: int, item: T, token: usize)
        requires
            before.wf(),
            after.list.wf(),
            after.index.wf(),
            0 <= i <= before.list@.len(),
            after.list@ == before.list@.insert(i, Entry { item, token }),
            after.index.order() == before.index.order().insert(i, token),
        ensures
            after.wf(),
            after@ == before@.insert(i, item),
    {
        assert forall|k: int| 0 <= k < after.list@.len() implies (#[trigger] after.list@[k]).token
            == after.index.order()[k] by {
            if k < i {
                assert(after.list@[k] == before.list@[k]);
            } else if k > i {
                assert(after.list@[k] == before.list@[k - 1]);
            }
        }
        assert(after@ =~= before@.insert(i, item));
    }

    /// Takes the entry at index `i` out of the list, once its token has left the index.
    proof fn lemma_removed(before: Self, after: Self, i: int)
        requires
            before.wf(),
            after.list.wf(),
            after.index.wf(),
            0 <= i < before.list@.len(),
            after.list@ == before.list@.remove(i),
            after.index.order() == before.index.order().remove(i),
        ensures
            after.wf(),
            after@ == before@.remove(i),
    {
        assert forall|k: int| 0 <= k < after.list@.len() implies (#[trigger] after.list@[k]).token
            == after.index.order()[k] by {
            if k < i {
                assert(after.list@[k] == before.list@[k]);
            } else {
                assert(after.list@[k] == before.list@[k + 1]);
            }
        }
        assert(after@ =~= before@.remove(i));
    }

    /// Appends `item` and returns its position.
    pub fn push_back(&mut self, item: T) -> (pos: usize)
        requires
            old(self).wf(),
        ensures
            final(self).wf(),
            final(self)@ == old(self)@.push(item),
            final(self).positions() == old(self).positions().push(pos),
            pos == old(self).next_position(),
            final(self).next_position() == old(self).next_position() + 1,
    {
        let ghost before = *self;
        let ghost n = self.list@.len() as int;
        proof {
            self.list.lemma_positions();
            self.index.lemma_order();
        }
        let token = match self.list.back() {
            None => self.index.insert_between(None, None).unwrap(),
            Some(last) => {
                let t = self.token_at(last).unwrap();
                self.index.insert_after(t).unwrap()
            },
        };
        let pos = self.list.push_back(Entry { item, token });
        proof {
            assert(before.list@.push(Entry { item, token }) =~= before.list@.insert(
                n,
                Entry { item, token },
            ));
            Self::lemma_inserted(before, *self, n, item, token);
            assert(before@.insert(n, item) =~= before@.push(item));
        }
        pos
    }

    /// Puts `item` in front of all others and returns its position.
    pub fn push_front(&mut self, item: T) -> (pos: usize)
        requires
            old(self).wf(),
        ensures
            final(self).wf(),
            final(self)@ == old(self)@.insert(0, item),
            final(self).positions() == old(self).positions().insert(0, pos),
            pos == old(self).next_position(),
            final(self).next_position() == old(self).next_position() + 1,
    {
        let ghost before = *self;
        proof {
            self.list.lemma_positions();
            self.index.lemma_order();
        }
        let token = match self.list.front() {
            None => self.index.insert_between(None, None).unwrap(),
            Some(first) => {
                let t = self.token_at(first).unwrap();
                self.index.insert_before(t).unwrap()
            },
        };
        let pos = self.list.push_front(Entry { item, token });
        proof {
            Self::lemma_inserted(before, *self, 0, item, token);
        }
        pos
    }

    /// Puts `item` immediately in front of the item that `at` locates and returns
    /// the new position. A position that locates nothing is an invariant
    /// violation, and the worklist stays as it was.
    pub fn insert_before(&mut self, at: usize, item: T) -> (r: Result<usize, TyckError>)
        requires
            old(self).wf(),
        ensures
            final(self).wf(),
            !old(self).is_live(at) ==> r == Err::<usize, TyckError>(TyckError::InvariantViolation)
                && *final(self) == *old(self),
            old(self).is_live(at) ==> r == Ok::<usize, TyckError>(old(self).next_position())
                && final(self)@ == old(self)@.insert(old(self).index_of(at), item)
                && final(self).positions() == old(self).positions().insert(
                old(self).index_of(at),
                old(self).next_position(),
            ) && final(self).next_position() == old(self).next_position() + 1,
    {
        let ghost before = *self;
        proof {
            self.list.lemma_positions();
            self.index.lemma_order();
        }
        let t = match self.token_at(at) {
            None => {
                return Err(TyckError::InvariantViolation);
            },
            Some(t) => t,
        };
        let token = self.index.insert_before(t).unwrap();
        let r = self.list.insert_before(at, Entry { item, token });
        proof {
            Self::lemma_inserted(before, *self, before.list.index_of(at), item, token);
        }
        r
    }

    /// Removes the last item and returns it with the position it had; `None` on
    /// an empty worklist.
    pub fn pop_back(&mut self) -> (r: Option<(usize, T)>)
        requires
            old(self).wf(),
        ensures
            final(self).wf(),
            final(self).next_position() == old(self).next_position(),
            old(self)@.len() == 0 ==> r.is_none() && *final(self) == *old(self),
            old(self)@.len() > 0 ==> r == Some((old(self).positions().last(), old(self)@.last()))
                && final(self)@ == old(self)@.drop_last() && final(self).positions() == old(
                self,
            ).positions().drop_last(),
    {
        let ghost before = *self;
        let ghost n = self.list@.len() as int;
        proof {
            self.list.lemma_positions();
            self.index.lemma_order();
        }
        match self.list.pop_back() {
            None => None,
            Some((pos, entry)) => {
                proof {
                    assert(entry == before.list@[n - 1]);
                    assert(before.list@[n - 1].token == before.index.order()[n - 1]);
                }
                let removed = self.index.remove(entry.token);
                proof {
                    assert(before.list@.drop_last() =~= before.list@.remove(n - 1));
                    Self::lemma_removed(before, *self, n - 1);
                    assert(before@.remove(n - 1) =~= before@.drop_last());
                }
                Some((pos, entry.item))
            },
        }
    }

    /// Removes the item that `pos` locates and returns it. A position that
    /// locates nothing, because its item has left the worklist already or
    /// because it was never handed out, is an invariant violation, and the
    /// worklist stays as it was.
    pub fn unlink(&mut self, pos: usize) -> (r: Result<T, TyckError>)
        requires
            old(self).wf(),
        ensures
            final(self).wf(),
            final(self).next_position() == old(self).next_position(),
            !old(self).is_live(pos) ==> r == Err::<T, TyckError>(TyckError::InvariantViolation)
                && *final(self) == *old(self),
            old(self).is_live(pos) ==> r == Ok::<T, TyckError>(
                old(self)@[old(self).index_of(pos)],
            ) && final(self)@ == old(self)@.remove(old(self).index_of(pos))
                && final(self).positions() == old(self).positions().remove(
                old(self).index_of(pos),
            ),
    {
        let ghost before = *self;
        proof {
            self.list.lemma_positions();
            self.index.lemma_order();
        }
        match self.list.unlink(pos) {
            Err(e) => Err(e),
            Ok(entry) => {
                let ghost i = before.list.index_of(pos);
                proof {
                    assert(before.list@[i].token == before.index.order()[i]);
                }
                let removed = self.index.remove(entry.token);
                proof {
                    Self::lemma_removed(before, *self, i);
                }
                Ok(entry.item)
            },
        }
    }

    /// Puts `item` in the place of the item that `pos` locates and returns the
    /// item that was there; the position stays valid and keeps its place in the
    /// order. A position that locates nothing is an invariant violation, and the
    /// worklist stays as it was.
    pub fn replace(&mut self, pos: usize, item: T) -> (r: Result<T, TyckError>)
        requires
            old(self).wf(),
        ensures
            final(self).wf(),
            final(self).next_position() == old(self).next_position(),
            final(self).positions() == old(self).positions(),
            !old(self).is_live(pos) ==> r == Err::<T, TyckError>(TyckError::InvariantViolation)
                && *final(self) == *old(self),
            old(self).is_live(pos) ==> r == Ok::<T, TyckError>(
                old(self)@[old(self).index_of(pos)],
            ) && final(self)@ == old(self)@.update(old(self).index_of(pos), item),
    {
        let ghost before = *self;
        proof {
            self.list.lemma_positions();
            self.index.lemma_order();
        }
        let token = match self.token_at(pos) {
            None => {
                return Err(TyckError::InvariantViolation);
            },
            Some(t) => t,
        };
        match self.list.replace(pos, Entry { item, token }) {
            Err(e) => Err(e),
            Ok(entry) => {
                proof {
                    let i = before.list.index_of(pos);
                    assert forall|k: int| 0 <= k < self.list@.len() implies (
                    #[trigger] self.list@[k]).token == self.index.order()[k] by {
                        if k != i {
                            assert(self.list@[k] == before.list@[k]);
                        }
                    }
                    assert(self@ =~= before@.update(i, item));
                }
                Ok(entry.item)
            },
        }
    }

    /// On which side of the item at `b` the item at `a` stands: `Left` where `a`
    /// comes earlier in the worklist. The answer is read off the index. Two
    /// positions that do not both locate an item, or that are the same, are an
    /// invariant violation.
    pub fn compare(&mut self, a: usize, b: usize) -> (r: Result<Direction, TyckError>)
        requires
            old(self).wf(),
        ensures
            final(self).wf(),
            final(self)@ == old(self)@,
            final(self).positions() == old(self).positions(),
            final(self).next_position() == old(self).next_position(),
            !old(self).is_live(a) || !old(self).is_live(b) || a == b ==> r == Err::<
                Direction,
                TyckError,
            >(TyckError::InvariantViolation),
            old(self).is_live(a) && old(self).is_live(b) && a != b ==> r == Ok::<
                Direction,
                TyckError,
            >(
                if old(self).index_of(a) < old(self).index_of(b) {
                    Direction::Left
                } else {
                    Direction::Right
                },
            ),
    {
        proof {
            self.list.lemma_positions();
            self.index.lemma_order();
        }
        let ta = match self.token_at(a) {
            None => {
                return Err(TyckError::InvariantViolation);
            },
            Some(t) => t,
        };
        let tb = match self.token_at(b) {
            None => {
                return Err(TyckError::InvariantViolation);
            },
            Some(t) => t,
        };
        if a == b {
            return Err(TyckError::InvariantViolation);
        }
        self.index.compare(ta, tb)
    }

    /// The items front to back.
    pub fn items(&self) -> (out: Vec<&T>)
        requires
            self.wf(),
        ensures
            out@.len() == self@.len(),
            forall|i: int| 0 <= i < out@.len() ==> *out@[i] == self@[i],
    {
        let entries = self.list.items();
        let mut out: Vec<&T> = Vec::new();
        let mut i: usize = 0;
        while i < entries.len()
            invariant
                0 <= i <= entries.len(),
                entries@.len() == self.list@.len(),
                forall|k: int| 0 <= k < entries@.len() ==> *entries@[k] == self.list@[k],
                out@.len() == i,
                forall|k: int| 0 <= k < i ==> *out@[k] == self@[k],
            decreases entries.len() - i,
        {
            out.push(&entries[i].item);
            i = i + 1;
        }
        out
    }
}

} // verus!
