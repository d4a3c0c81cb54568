//! The typechecking machine: the owner of the worklist and of the context, and
//! the rules that rewrite them.
//!
//! The machine works on shared terms and on positions of the worklist. What it
//! does is stated on its abstract state: every operation says which state of
//! the model follows.

use crate::context::{predicative, solve_error, Context, TyVarDecl, TyVarState};
use crate::error::TyckError;
use crate::judgment::{Judgment, WorkItem};
use crate::model::{State, Status};
use crate::order_index::Direction;
use crate::shared::share;
use crate::term::{Expr, Ty, TyVarKind};
use crate::worklist::Worklist;
use std::rc::Rc;
use vstd::prelude::*;

verus! {

/// The state of a checking run and the rules that advance it.
pub struct TyckMachine {
    worklist: Worklist<WorkItem>,
    context: Context,
    next_ty_var: usize,
    next_var: usize,
    status: Status,
    offending: Option<Rc<Judgment>>,
}

impl View for TyckMachine {
    type V = State;

    /// The abstract state of the machine.
    open spec fn view(&self) -> State {
        self.state()
    }
}

impl TyckMachine {
    /// The abstract state of the machine.
    pub closed spec fn state(self) -> State {
        State {
            items: self.worklist@,
            kinds: self.context.kinds(),
            vars: self.context.var_types(),
            solutions: self.context.solutions(),
            next_ty_var: self.next_ty_var,
            next_var: self.next_var,
            status: self.status,
            offending: self.offending,
        }
    }

    /// The positions of the items of the worklist, front to back:
    /// `positions()[i]` locates the item `self@.items[i]`.
    pub closed spec fn positions(self) -> Seq<usize> {
        self.worklist.positions()
    }

    /// The declaration of the type variable `id` stands in the worklist at the
    /// position that its record names.
    spec fn decl_ok(self, id: usize) -> bool {
        let decl = self.context.ty_vars()[id];
        &&& self.worklist.is_live(decl.position)
        &&& self.worklist@[self.worklist.index_of(decl.position)] == WorkItem::TyVarDecl(
            id,
            decl.kind,
        )
    }

    /// If the item at index `i` declares a type variable, the variable is
    /// declared with this position and kind.
    spec fn item_ok(self, i: int) -> bool {
        match self.worklist@[i] {
            WorkItem::TyVarDecl(id, kind) => self.context.ty_vars().contains_key(id)
                && self.context.ty_vars()[id] == (TyVarDecl {
                position: self.worklist.positions()[i],
                kind,
            }),
            _ => true,
        }
    }

    /// Worklist and context are well formed, the declarations of the unsolved
    /// type variables are the declarations that stand in the worklist, and no
    /// identifier that is yet to be handed out is in use.
    pub closed spec fn wf(self) -> bool {
        &&& self.worklist.wf()
        &&& self.context.wf()
        &&& forall|id: usize|
            self.context.ty_vars().contains_key(id) ==> #[trigger] self.decl_ok(id)
        &&& forall|i: int| 0 <= i < self.worklist@.len() ==> #[trigger] self.item_ok(i)
        &&& forall|k: usize|
            #![trigger self.context.ty_vars().contains_key(k)]
            #![trigger self.context.solutions().contains_key(k)]
            self.context.ty_vars().contains_key(k) || self.context.solutions().contains_key(k)
                ==> k < self.next_ty_var
        &&& forall|k: usize| #[trigger]
            self.context.vars().contains_key(k) ==> k < self.next_var
    }

    /// A well-formed machine none of whose solutions holds a quantifier is in a
    /// state that upholds the invariant of the model.
    pub proof fn lemma_wf(self)
        requires
            self.wf(),
            predicative(self@.solutions),
        ensures
            self@.inv(),
    {
        self.context.lemma_wf();
        assert(self.context.kinds().dom() =~= self.context.ty_vars().dom());
        assert forall|k: usize|
            #![trigger self@.kinds.contains_key(k)]
            #![trigger self@.solutions.contains_key(k)]
            self@.kinds.contains_key(k) || self@.solutions.contains_key(k) implies k
            < self@.next_ty_var by {
            if self@.kinds.contains_key(k) {
                assert(self.context.ty_vars().contains_key(k));
            }
        }
    }

    /// Where the declaration of an unsolved existential stands: at the index of
    /// the position that its record names, and nowhere else.
    proof fn lemma_decl_index(self, id: usize)
        requires
            self.wf(),
            self.context.ty_vars().contains_key(id),
            self.context.ty_vars()[id].kind == TyVarKind::Existential,
        ensures
            self@.has_decl(id),
            self@.decl_index(id) == self.worklist.index_of(self.context.ty_vars()[id].position),
            0 <= self@.decl_index(id) < self.worklist@.len(),
            self.worklist.is_live(self.context.ty_vars()[id].position),
    {
        self.worklist.lemma_positions();
        assert(self.decl_ok(id));
        let pos = self.context.ty_vars()[id].position;
        let i = self.worklist.index_of(pos);
        let item = WorkItem::TyVarDecl(id, TyVarKind::Existential);
        assert(self.worklist@[i] == item);
        let j = self.worklist@.index_of(item);
        assert(self.worklist@[j] == item);
        assert(self.item_ok(j));
    }

    /// A machine with an empty worklist and an empty context.
    pub fn new() -> (machine: Self)
        ensures
            machine.wf(),
            machine@ == State::initial(),
    {
        let machine = TyckMachine {
            worklist: Worklist::new(),
            context: Context::new(),
            next_ty_var: 0,
            next_var: 0,
            status: Status::Running,
            offending: None,
        };
        proof {
            assert(machine@.kinds =~= Map::<usize, TyVarKind>::empty());
            assert(machine@.vars =~= Map::<usize, Rc<Ty>>::empty());
        }
        machine
    }

    /// Whether the machine still has work, has accepted, or has failed.
    pub fn status(&self) -> (r: Status)
        ensures
            r == self@.status,
    {
        self.status
    }

    /// What pushing an item that declares no type variable does to the correspondence
    /// of worklist and context.
    proof fn lemma_pushed(before: Self, after: Self, item: WorkItem)
        requires
            before.wf(),
            after.worklist.wf(),
            !(item is TyVarDecl),
            after.worklist@ == before.worklist@.push(item),
            after.worklist.positions().len() == before.worklist.positions().len() + 1,
            after.worklist.positions().drop_last() == before.worklist.positions(),
            after.context.ty_vars() == before.context.ty_vars(),
        ensures
            forall|id: usize|
                after.context.ty_vars().contains_key(id) ==> #[trigger] after.decl_ok(id),
            forall|i: int| 0 <= i < after.worklist@.len() ==> #[trigger] after.item_ok(i),
    {
        before.worklist.lemma_positions();
        after.worklist.lemma_positions();
        assert forall|id: usize| after.context.ty_vars().contains_key(id) implies #[trigger]
        after.decl_ok(id) by {
            assert(before.decl_ok(id));
            let pos = before.context.ty_vars()[id].position;
            let j = before.worklist.index_of(pos);
            assert(after.worklist.positions()[j] == after.worklist.positions().drop_last()[j]);
        }
        assert forall|i: int| 0 <= i < after.worklist@.len() implies #[trigger] after.item_ok(
            i,
        ) by {
            if i < before.worklist@.len() {
                assert(before.item_ok(i));
                assert(after.worklist.positions()[i] == after.worklist.positions().drop_last()[i]);
            }
        }
    }

    /// Puts a judgment at the back of the worklist: it is the next to be processed.
    pub fn push_judgment(&mut self, judgment: Rc<Judgment>)
        requires
            old(self).wf(),
        ensures
            final(self).wf(),
            final(self)@ == old(self)@.push(WorkItem::Judgment(judgment)),
    {
        let ghost before = *self;
        let pos = self.worklist.push_back(WorkItem::Judgment(judgment));
        proof {
            assert(self.worklist.positions().drop_last() =~= before.worklist.positions());
            Self::lemma_pushed(before, *self, WorkItem::Judgment(judgment));
        }
    }

    /// Declares a fresh term variable of the type `ty` at the back of the
    /// worklist and returns its identifier.
    fn declare_var_back(&mut self, ty: Rc<Ty>) -> (id: usize)
        requires
            old(self).wf(),
            old(self)@.next_var < usize::MAX,
        ensures
            final(self).wf(),
            id == old(self)@.next_var,
            final(self)@ == old(self)@.declare_var(id, ty),
    {
        let ghost before = *self;
        let id = self.next_var;
        let pos = self.worklist.push_back(WorkItem::VarDecl(id, share(&ty)));
        let declared = self.context.declare_var(id, ty, pos);
        self.next_var = id + 1;
        proof {
            assert(self.worklist.positions().drop_last() =~= before.worklist.positions());
            Self::lemma_pushed(before, *self, WorkItem::VarDecl(id, ty));
            assert(self@.vars =~= before@.vars.insert(id, ty));
            assert forall|k: usize| #[trigger]
                self.context.vars().contains_key(k) implies k < self.next_var by {
                if k != id {
                    assert(before.context.vars().contains_key(k));
                }
            }
        }
        id
    }

    /// What putting the declaration of a fresh type variable at index `at` does
    /// to the correspondence of worklist and context.
    proof fn lemma_declared(before: Self, after: Self, at: int, id: usize, kind: TyVarKind)
        requires
            before.wf(),
            after.worklist.wf(),
            0 <= at <= before.worklist@.len(),
            !before.context.ty_vars().contains_key(id),
            after.worklist@ == before.worklist@.insert(at, WorkItem::TyVarDecl(id, kind)),
            after.worklist.positions() == before.worklist.positions().insert(
                at,
                before.worklist.next_position(),
            ),
            after.context.ty_vars() == before.context.ty_vars().insert(
                id,
                TyVarDecl { position: before.worklist.next_position(), kind },
            ),
        ensures
            forall|k: usize|
                after.context.ty_vars().contains_key(k) ==> #[trigger] after.decl_ok(k),
            forall|i: int| 0 <= i < after.worklist@.len() ==> #[trigger] after.item_ok(i),
            after.context.kinds() == before.context.kinds().insert(id, kind),
    {
        before.worklist.lemma_positions();
        after.worklist.lemma_positions();
        let fresh = before.worklist.next_position();
        assert(after.worklist.positions()[at] == fresh);
        assert forall|k: usize| after.context.ty_vars().contains_key(k) implies #[trigger]
        after.decl_ok(k) by {
            if k != id {
                assert(before.decl_ok(k));
                let pos = before.context.ty_vars()[k].position;
                let j = before.worklist.index_of(pos);
                if j < at {
                    assert(after.worklist.positions()[j] == pos);
                } else {
                    assert(after.worklist.positions()[j + 1] == pos);
                }
            }
        }
        assert forall|i: int| 0 <= i < after.worklist@.len() implies #[trigger] after.item_ok(
            i,
        ) by {
            if i < at {
                assert(before.item_ok(i));
            } else if i > at {
                assert(before.item_ok(i - 1));
            }
        }
        assert(after.context.kinds() =~= before.context.kinds().insert(id, kind));
    }

    /// Declares a fresh type variable at the back of the worklist and returns
    /// its identifier.
    fn declare_back(&mut self, kind: TyVarKind) -> (id: usize)
        requires
            old(self).wf(),
            old(self)@.next_ty_var < usize::MAX,
        ensures
            final(self).wf(),
            id == old(self)@.next_ty_var,
            final(self)@ == old(self)@.declare(id, kind),
    {
        let ghost before = *self;
        let id = self.next_ty_var;
        let pos = self.worklist.push_back(WorkItem::TyVarDecl(id, kind));
        let declared = self.context.declare_type_var(id, kind, pos);
        self.next_ty_var = id + 1;
        proof {
            let n = before.worklist@.len() as int;
            assert(before.worklist@.push(WorkItem::TyVarDecl(id, kind))
                =~= before.worklist@.insert(n, WorkItem::TyVarDecl(id, kind)));
            before.worklist.lemma_positions();
            assert(before.worklist.positions().push(pos) =~= before.worklist.positions().insert(
                n,
                pos,
            ));
            Self::lemma_declared(before, *self, n, id, kind);
        }
        id
    }

    /// Declares a fresh existential immediately in front of the item at the
    /// live position `at` and returns its identifier.
    fn declare_before(&mut self, at: usize) -> (id: usize)
        requires
            old(self).wf(),
            old(self)@.next_ty_var < usize::MAX,
            old(self).worklist.is_live(at),
        ensures
            final(self).wf(),
            id == old(self)@.next_ty_var,
            final(self)@ == old(self)@.declare_before(old(self).worklist.index_of(at), id),
            final(self).worklist.is_live(at),
            final(self).worklist.index_of(at) == old(self).worklist.index_of(at) + 1,
            forall|k: usize|
                old(self).context.ty_vars().contains_key(k) ==> final(self).context.ty_vars().contains_key(k) && #[trigger] final(self).context.ty_vars()[k]
                    == old(self).context.ty_vars()[k],
    {
        let ghost before = *self;
        let id = self.next_ty_var;
        proof {
            before.worklist.lemma_positions();
        }
        let inserted = self.worklist.insert_before(
            at,
            WorkItem::TyVarDecl(id, TyVarKind::Existential),
        );
        let pos = inserted.unwrap();
        let declared = self.context.declare_type_var(id, TyVarKind::Existential, pos);
        self.next_ty_var = id + 1;
        proof {
            let i = before.worklist.index_of(at);
            Self::lemma_declared(before, *self, i, id, TyVarKind::Existential);
            self.worklist.lemma_positions();
            assert(self.worklist.positions()[i + 1] == at);
        }
        id
    }

    /// Solves the existential `id` to `ty` and leaves garbage in the place of
    /// its declaration. On an error the machine stays as it was.
    fn solve_in_place(&mut self, id: usize, ty: &Rc<Ty>) -> (r: Result<(), TyckError>)
        requires
            old(self).wf(),
        ensures
            final(self).wf(),
            match r {
                Ok(_) => old(self)@.solve(id, &**ty) == Ok::<State, TyckError>(final(self)@),
                Err(e) => old(self)@.solve(id, &**ty) == Err::<State, TyckError>(e) && *final(self)
                    == *old(self),
            },
            forall|k: usize|
                old(self).context.ty_vars().contains_key(k) && k != id ==> final(self).context.ty_vars().contains_key(k) && #[trigger] final(self).context.ty_vars()[k]
                    == old(self).context.ty_vars()[k],
            final(self).worklist.positions() == old(self).worklist.positions(),
    {
        let ghost before = *self;
        let position = match self.context.solve(id, ty) {
            Err(e) => {
                return Err(e);
            },
            Ok(position) => position,
        };
        proof {
            assert(before.context.kinds().contains_key(id));
            before.lemma_decl_index(id);
            before.worklist.lemma_positions();
        }
        let replaced = self.worklist.replace(position, WorkItem::Garbage);
        proof {
            let at = before.worklist.index_of(position);
            self.worklist.lemma_positions();
            assert forall|k: usize| self.context.ty_vars().contains_key(k) implies #[trigger]
            self.decl_ok(k) by {
                assert(before.decl_ok(k));
                assert(before.decl_ok(id));
            }
            assert forall|i: int| 0 <= i < self.worklist@.len() implies #[trigger] self.item_ok(
                i,
            ) by {
                assert(before.item_ok(i));
                assert(before.item_ok(at));
            }
            assert(self.context.kinds() =~= before.context.kinds().remove(id));
        }
        Ok(())
    }

    /// Solves the existential `id` to the arrow between two fresh existentials,
    /// which are declared immediately in front of it. On an error the machine
    /// stays as it was.
    fn split(&mut self, id: usize) -> (r: Result<(), TyckError>)
        requires
            old(self).wf(),
        ensures
            final(self).wf(),
            match r {
                Ok(_) => old(self)@.split(id) == Ok::<State, TyckError>(final(self)@),
                Err(e) => old(self)@.split(id) == Err::<State, TyckError>(e) && *final(self)
                    == *old(self),
            },
            forall|k: usize|
                old(self).context.ty_vars().contains_key(k) && k != id ==> final(
                    self).context.ty_vars().contains_key(k) && (#[trigger] final(
                    self).context.ty_vars()[k]).kind == old(self).context.ty_vars()[k].kind,
    {
        let ghost before = *self;
        let decl = match self.context.lookup_type_var(id) {
            Ok(TyVarState::Declared(decl)) => decl,
            _ => {
                return Err(TyckError::DoubleSolve);
            },
        };
        proof {
            assert(before.context.kinds().contains_key(id));
        }
        match decl.kind {
            TyVarKind::Universal => {
                return Err(TyckError::InvariantViolation);
            },
            TyVarKind::Existential => {},
        }
        if self.next_ty_var >= usize::MAX - 1 {
            return Err(TyckError::InvariantViolation);
        }
        proof {
            before.lemma_decl_index(id);
        }
        let dom = self.declare_before(decl.position);
        let ghost one = *self;
        let cod = self.declare_before(decl.position);
        let ghost two = *self;
        let arrow = Rc::new(Ty::Arrow(Rc::new(Ty::Var(dom)), Rc::new(Ty::Var(cod))));
        proof {
            assert(two.context.ty_vars().contains_key(id));
            assert(two.context.ty_vars()[id] == before.context.ty_vars()[id]);
            assert(two.context.kinds().contains_key(id));
            two.lemma_decl_index(id);
            assert(!two.context.solutions().contains_key(dom));
            assert(!two.context.solutions().contains_key(cod));
            assert(one@ == before@.declare_before(before@.decl_index(id), dom));
            assert(two@ == one@.declare_before(before@.decl_index(id) + 1, cod));
        }
        proof {
            reveal_with_fuel(Ty::mentions_spec, 3);
            reveal_with_fuel(Ty::surface_spec, 3);
            reveal_with_fuel(Ty::is_mono_spec, 3);
            reveal_with_fuel(Ty::resolve_spec, 3);
            assert(id < before.next_ty_var);
            assert(!arrow.mentions_spec(id));
            assert(arrow.is_mono_spec());
            assert(arrow.resolve_spec(two.context.solutions()) == *arrow);
            assert(crate::context::solve_error(two@.kinds, two@.solutions, id, &*arrow) is None);
        }
        let r = self.solve_in_place(id, &arrow);
        proof {
            assert(r is Ok);
            assert forall|k: usize|
                before.context.ty_vars().contains_key(k) && k != id implies self.context.ty_vars().contains_key(
                k,
            ) && (#[trigger] self.context.ty_vars()[k]).kind
                == before.context.ty_vars()[k].kind by {
                assert(one.context.ty_vars()[k] == before.context.ty_vars()[k]);
                assert(two.context.ty_vars()[k] == one.context.ty_vars()[k]);
                assert(self.context.ty_vars()[k] == two.context.ty_vars()[k]);
            }
        }
        r
    }

    /// The type with a solved variable at its head replaced by the solution.
    fn head(&self, ty: &Rc<Ty>) -> (r: Rc<Ty>)
        ensures
            *r == self@.head(&**ty),
    {
        match &**ty {
            Ty::Var(k) => match self.context.solution(*k) {
                Some(t) => t,
                None => share(ty),
            },
            _ => share(ty),
        }
    }

    /// Whether the type is a variable that is neither declared nor solved.
    fn is_unbound(&self, ty: &Ty) -> (r: bool)
        requires
            self.wf(),
        ensures
            r == self@.is_unbound(ty),
    {
        match ty {
            Ty::Var(k) => match self.context.lookup_type_var(*k) {
                Ok(_) => {
                    proof {
                        assert(self.context.kinds().contains_key(*k)
                            == self.context.ty_vars().contains_key(*k));
                    }
                    false
                },
                Err(_) => true,
            },
            _ => false,
        }
    }

    /// The declaration record of the variable, if the type is an unsolved existential.
    fn unsolved_decl(&self, ty: &Ty) -> (r: Option<TyVarDecl>)
        requires
            self.wf(),
        ensures
            r is Some == self@.is_unsolved(ty),
            r matches Some(decl) ==> *ty matches Ty::Var(k) && self.context.ty_vars().contains_key(k)
                && self.context.ty_vars()[k] == decl && decl.kind == TyVarKind::Existential,
    {
        match ty {
            Ty::Var(k) => match self.context.lookup_type_var(*k) {
                Ok(TyVarState::Declared(decl)) => match decl.kind {
                    TyVarKind::Existential => Some(decl),
                    TyVarKind::Universal => None,
                },
                _ => None,
            },
            _ => None,
        }
    }

    /// Instantiates the existential `id` with `ty`: solves it where the type
    /// holds no quantifier, and takes an arrow that holds one apart. On an error
    /// the machine stays as it was.
    fn instantiate(&mut self, id: usize, ty: &Rc<Ty>, on_left: bool) -> (r: Result<(), TyckError>)
        requires
            old(self).wf(),
        ensures
            final(self).wf(),
            match r {
                Ok(_) => old(self)@.instantiate(id, &**ty, on_left) == Ok::<State, TyckError>(
                    final(self)@,
                ),
                Err(e) => old(self)@.instantiate(id, &**ty, on_left) == Err::<State, TyckError>(e)
                    && *final(self) == *old(self),
            },
    {
        match &**ty {
            Ty::Arrow(t1, t2) => {
                if ty.is_mono() {
                    return self.solve_in_place(id, ty);
                }
                if ty.mentions(id) {
                    return Err(TyckError::CircularInstantiation);
                }
                let fresh = self.next_ty_var;
                match self.split(id) {
                    Err(e) => Err(e),
                    Ok(_) => {
                        let dom = Rc::new(Ty::Var(fresh));
                        let cod = Rc::new(Ty::Var(fresh + 1));
                        if on_left {
                            self.push_judgment(
                                Rc::new(Judgment::Subtype { lhs: cod, rhs: share(t2) }),
                            );
                            self.push_judgment(
                                Rc::new(Judgment::Subtype { lhs: share(t1), rhs: dom }),
                            );
                        } else {
                            self.push_judgment(
                                Rc::new(Judgment::Subtype { lhs: share(t2), rhs: cod }),
                            );
                            self.push_judgment(
                                Rc::new(Judgment::Subtype { lhs: dom, rhs: share(t1) }),
                            );
                        }
                        Ok(())
                    },
                }
            },
            _ => self.solve_in_place(id, ty),
        }
    }

    /// Why the existential `id` cannot be solved to `ty`, if it cannot.
    fn cannot_solve(&self, id: usize, ty: &Rc<Ty>) -> (r: Option<TyckError>)
        requires
            self.wf(),
        ensures
            r == solve_error(self@.kinds, self@.solutions, id, &**ty),
    {
        let decl = match self.context.lookup_type_var(id) {
            Ok(TyVarState::Declared(decl)) => decl,
            _ => {
                proof {
                    assert(!self.context.kinds().contains_key(id));
                }
                return Some(TyckError::DoubleSolve);
            },
        };
        proof {
            assert(self.context.kinds().contains_key(id));
        }
        match decl.kind {
            TyVarKind::Universal => {
                return Some(TyckError::InvariantViolation);
            },
            TyVarKind::Existential => {},
        }
        if ty.mentions(id) {
            return Some(TyckError::CircularInstantiation);
        }
        let with = self.context.resolve(ty);
        if with.surface(id) {
            return Some(TyckError::CircularInstantiation);
        }
        None
    }

    /// Binds the existential `id` to `ty` as the result of an inference and
    /// pushes the continuation. On an error the machine stays as it was.
    fn bind(&mut self, id: usize, ty: Rc<Ty>, nested: Rc<Judgment>) -> (r: Result<(), TyckError>)
        requires
            old(self).wf(),
        ensures
            final(self).wf(),
            match r {
                Ok(_) => old(self)@.bind(id, ty, nested) == Ok::<State, TyckError>(final(self)@),
                Err(e) => old(self)@.bind(id, ty, nested) == Err::<State, TyckError>(e) && *final(
                    self) == *old(self),
            },
    {
        if ty.is_mono() {
            match self.solve_in_place(id, &ty) {
                Err(e) => Err(e),
                Ok(_) => {
                    self.push_judgment(nested);
                    Ok(())
                },
            }
        } else {
            match self.cannot_solve(id, &ty) {
                Some(e) => Err(e),
                None => {
                    self.push_judgment(nested);
                    self.push_judgment(
                        Rc::new(Judgment::Subtype { lhs: ty, rhs: Rc::new(Ty::Var(id)) }),
                    );
                    Ok(())
                },
            }
        }
    }

    /// The subtype rule. On an error the state of the machine stays as it was.
    /// Trivially equal types are accepted as they stand; two arrows are taken
    /// apart into the judgment on the codomains and, on top of it, the judgment
    /// on the domains, reversed.
    fn process_subtype(&mut self, lhs: &Rc<Ty>, rhs: &Rc<Ty>) -> (r: Result<(), TyckError>)
        requires
            old(self).wf(),
        ensures
            final(self).wf(),
            match r {
                Ok(_) => old(self)@.subtype(&**lhs, &**rhs) == Ok::<State, TyckError>(final(self)@),
                Err(e) => old(self)@.subtype(&**lhs, &**rhs) == Err::<State, TyckError>(e)
                    && final(self)@ == old(self)@,
            },
            Ty::trivially_equal_spec(&**lhs, &**rhs) ==> r is Ok && final(self)@ == old(self)@,
            match (**lhs, **rhs) {
                (Ty::Arrow(a1, a2), Ty::Arrow(b1, b2)) => r is Ok && final(self)@ == old(
                    self)@.push_judgment(Judgment::Subtype { lhs: a2, rhs: b2 }).push_judgment(
                    Judgment::Subtype { lhs: b1, rhs: a1 },
                ),
                _ => true,
            },
    {
        if Ty::trivially_equal_shared(lhs, rhs) {
            return Ok(());
        }
        let a = self.head(lhs);
        let b = self.head(rhs);
        if Ty::trivially_equal(&a, &b) {
            return Ok(());
        }
        if self.is_unbound(&a) || self.is_unbound(&b) {
            return Err(TyckError::UnboundVariable);
        }
        let ghost before = *self;
        match (&*a, &*b) {
            (Ty::Arrow(a1, a2), Ty::Arrow(b1, b2)) => {
                self.push_judgment(Rc::new(Judgment::Subtype { lhs: share(a2), rhs: share(b2) }));
                self.push_judgment(Rc::new(Judgment::Subtype { lhs: share(b1), rhs: share(a1) }));
                Ok(())
            },
            (_, Ty::Forall(_, body)) => {
                if self.next_ty_var == usize::MAX {
                    return Err(TyckError::InvariantViolation);
                }
                let opened = match Ty::open(body, self.next_ty_var) {
                    None => {
                        return Err(TyckError::InvariantViolation);
                    },
                    Some(t) => t,
                };
                let id = self.declare_back(TyVarKind::Universal);
                self.push_judgment(Rc::new(Judgment::Subtype { lhs: share(&a), rhs: opened }));
                Ok(())
            },
            (Ty::Forall(_, body), _) => {
                if self.next_ty_var == usize::MAX {
                    return Err(TyckError::InvariantViolation);
                }
                let opened = match Ty::open(body, self.next_ty_var) {
                    None => {
                        return Err(TyckError::InvariantViolation);
                    },
                    Some(t) => t,
                };
                let id = self.declare_back(TyVarKind::Existential);
                self.push_judgment(Rc::new(Judgment::Subtype { lhs: opened, rhs: share(&b) }));
                Ok(())
            },
            (Ty::Var(i), Ty::Var(j)) => {
                match (self.unsolved_decl(&a), self.unsolved_decl(&b)) {
                    (Some(left), Some(right)) => {
                        proof {
                            before.lemma_decl_index(*i);
                            before.lemma_decl_index(*j);
                            before.worklist.lemma_positions();
                        }
                        let side = self.worklist.compare(left.position, right.position);
                        proof {
                            assert forall|id: usize|
                                self.context.ty_vars().contains_key(id) implies #[trigger]
                            self.decl_ok(id) by {
                                assert(before.decl_ok(id));
                            }
                            assert forall|k: int|
                                0 <= k < self.worklist@.len() implies #[trigger] self.item_ok(
                                k,
                            ) by {
                                assert(before.item_ok(k));
                            }
                            assert(self@ == before@);
                        }
                        match side {
                            Ok(Direction::Left) => self.solve_in_place(*j, &a),
                            Ok(Direction::Right) => self.solve_in_place(*i, &b),
                            Err(e) => Err(e),
                        }
                    },
                    (Some(_), None) => self.solve_in_place(*i, &b),
                    (None, Some(_)) => self.solve_in_place(*j, &a),
                    (None, None) => Err(TyckError::TypeMismatch),
                }
            },
            (Ty::Var(i), _) => {
                match self.unsolved_decl(&a) {
                    Some(_) => self.instantiate(*i, &b, true),
                    None => Err(TyckError::TypeMismatch),
                }
            },
            (_, Ty::Var(j)) => {
                match self.unsolved_decl(&b) {
                    Some(_) => self.instantiate(*j, &a, false),
                    None => Err(TyckError::TypeMismatch),
                }
            },
            _ => Err(TyckError::TypeMismatch),
        }
    }

    /// The checking rule. On an error the state of the machine stays as it was.
    fn process_check(&mut self, expr: &Rc<Expr>, ty: &Rc<Ty>) -> (r: Result<(), TyckError>)
        requires
            old(self).wf(),
        ensures
            final(self).wf(),
            match r {
                Ok(_) => old(self)@.check(&**expr, &**ty) == Ok::<State, TyckError>(final(self)@),
                Err(e) => old(self)@.check(&**expr, &**ty) == Err::<State, TyckError>(e) && final(
                    self)@ == old(self)@,
            },
    {
        let t = self.head(ty);
        match &**expr {
            Expr::Let(_, bound, body) => {
                if self.next_ty_var == usize::MAX || self.next_var == usize::MAX {
                    return Err(TyckError::InvariantViolation);
                }
                let opened = match Expr::open(body, self.next_var) {
                    None => {
                        return Err(TyckError::InvariantViolation);
                    },
                    Some(e) => e,
                };
                let alpha = self.declare_back(TyVarKind::Existential);
                let v = self.declare_var_back(Rc::new(Ty::Var(alpha)));
                let nested = Rc::new(Judgment::Check { expr: opened, ty: share(ty) });
                self.push_judgment(
                    Rc::new(Judgment::Infer { expr: share(bound), replace: alpha, nested }),
                );
                return Ok(());
            },
            Expr::Lam(_, body) => {
                match &*t {
                    Ty::Arrow(dom, cod) => {
                        if self.next_var == usize::MAX {
                            return Err(TyckError::InvariantViolation);
                        }
                        let opened = match Expr::open(body, self.next_var) {
                            None => {
                                return Err(TyckError::InvariantViolation);
                            },
                            Some(e) => e,
                        };
                        let v = self.declare_var_back(share(dom));
                        self.push_judgment(
                            Rc::new(Judgment::Check { expr: opened, ty: share(cod) }),
                        );
                        return Ok(());
                    },
                    _ => {},
                }
            },
            _ => {},
        }
        match &*t {
            Ty::Forall(_, body) => {
                if self.next_ty_var == usize::MAX {
                    return Err(TyckError::InvariantViolation);
                }
                let opened = match Ty::open(body, self.next_ty_var) {
                    None => {
                        return Err(TyckError::InvariantViolation);
                    },
                    Some(t) => t,
                };
                let u = self.declare_back(TyVarKind::Universal);
                self.push_judgment(Rc::new(Judgment::Check { expr: share(expr), ty: opened }));
                Ok(())
            },
            _ => {
                if self.next_ty_var == usize::MAX {
                    return Err(TyckError::InvariantViolation);
                }
                let alpha = self.declare_back(TyVarKind::Existential);
                let nested = Rc::new(
                    Judgment::Subtype { lhs: Rc::new(Ty::Var(alpha)), rhs: share(ty) },
                );
                self.push_judgment(
                    Rc::new(Judgment::Infer { expr: share(expr), replace: alpha, nested }),
                );
                Ok(())
            },
        }
    }

    /// The inference rule. On an error the state of the machine stays as it was.
    fn process_infer(&mut self, expr: &Rc<Expr>, replace: usize, nested: &Rc<Judgment>) -> (r:
        Result<(), TyckError>)
        requires
            old(self).wf(),
        ensures
            final(self).wf(),
            match r {
                Ok(_) => old(self)@.infer(&**expr, replace, *nested) == Ok::<State, TyckError>(
                    final(self)@,
                ),
                Err(e) => old(self)@.infer(&**expr, replace, *nested) == Err::<State, TyckError>(e)
                    && final(self)@ == old(self)@,
            },
    {
        match &**expr {
            Expr::Var(v) => {
                let ty = match self.context.lookup_var(*v) {
                    Err(e) => {
                        return Err(e);
                    },
                    Ok(ty) => ty,
                };
                self.bind(replace, ty, share(nested))
            },
            Expr::Unit => self.bind(replace, Rc::new(Ty::Unit), share(nested)),
            Expr::Lam(_, body) => {
                if self.next_var == usize::MAX {
                    return Err(TyckError::InvariantViolation);
                }
                let opened = match Expr::open(body, self.next_var) {
                    None => {
                        return Err(TyckError::InvariantViolation);
                    },
                    Some(e) => e,
                };
                let dom = self.next_ty_var;
                match self.split(replace) {
                    Err(e) => Err(e),
                    Ok(_) => {
                        self.push_judgment(share(nested));
                        let v = self.declare_var_back(Rc::new(Ty::Var(dom)));
                        self.push_judgment(
                            Rc::new(
                                Judgment::Check { expr: opened, ty: Rc::new(Ty::Var(dom + 1)) },
                            ),
                        );
                        Ok(())
                    },
                }
            },
            Expr::App(f, a) => {
                if self.next_ty_var == usize::MAX {
                    return Err(TyckError::InvariantViolation);
                }
                let beta = self.declare_back(TyVarKind::Existential);
                let then = Rc::new(
                    Judgment::AppInfer {
                        func: Rc::new(Ty::Var(beta)),
                        expr: share(a),
                        replace,
                        nested: share(nested),
                    },
                );
                self.push_judgment(
                    Rc::new(Judgment::Infer { expr: share(f), replace: beta, nested: then }),
                );
                Ok(())
            },
            Expr::Let(_, bound, body) => {
                if self.next_ty_var == usize::MAX || self.next_var == usize::MAX {
                    return Err(TyckError::InvariantViolation);
                }
                let opened = match Expr::open(body, self.next_var) {
                    None => {
                        return Err(TyckError::InvariantViolation);
                    },
                    Some(e) => e,
                };
                let alpha = self.declare_back(TyVarKind::Existential);
                let v = self.declare_var_back(Rc::new(Ty::Var(alpha)));
                let then = Rc::new(
                    Judgment::Infer { expr: opened, replace, nested: share(nested) },
                );
                self.push_judgment(
                    Rc::new(Judgment::Infer { expr: share(bound), replace: alpha, nested: then }),
                );
                Ok(())
            },
        }
    }

    /// The rule for an application, once the function has the arrow type from
    /// `dom` to `cod`. On an error the machine stays as it was.
    fn apply(
        &mut self,
        dom: Rc<Ty>,
        cod: Rc<Ty>,
        expr: Rc<Expr>,
        replace: usize,
        nested: Rc<Judgment>,
    ) -> (r: Result<(), TyckError>)
        requires
            old(self).wf(),
        ensures
            final(self).wf(),
            match r {
                Ok(_) => old(self)@.apply(dom, cod, expr, replace, nested) == Ok::<
                    State,
                    TyckError,
                >(final(self)@),
                Err(e) => old(self)@.apply(dom, cod, expr, replace, nested) == Err::<
                    State,
                    TyckError,
                >(e) && *final(self) == *old(self),
            },
    {
        if cod.is_mono() {
            match self.solve_in_place(replace, &cod) {
                Err(e) => Err(e),
                Ok(_) => {
                    self.push_judgment(Rc::new(Judgment::Check { expr, ty: dom }));
                    self.push_judgment(nested);
                    Ok(())
                },
            }
        } else {
            match self.cannot_solve(replace, &cod) {
                Some(e) => Err(e),
                None => {
                    self.push_judgment(Rc::new(Judgment::Check { expr, ty: dom }));
                    self.push_judgment(nested);
                    self.push_judgment(
                        Rc::new(Judgment::Subtype { lhs: cod, rhs: Rc::new(Ty::Var(replace)) }),
                    );
                    Ok(())
                },
            }
        }
    }

    /// The rule for the type of an application. On an error the state of the
    /// machine stays as it was.
    fn process_app_infer(
        &mut self,
        func: &Rc<Ty>,
        expr: &Rc<Expr>,
        replace: usize,
        nested: &Rc<Judgment>,
    ) -> (r: Result<(), TyckError>)
        requires
            old(self).wf(),
        ensures
            final(self).wf(),
            match r {
                Ok(_) => old(self)@.app_infer(&**func, *expr, replace, *nested) == Ok::<
                    State,
                    TyckError,
                >(final(self)@),
                Err(e) => old(self)@.app_infer(&**func, *expr, replace, *nested) == Err::<
                    State,
                    TyckError,
                >(e) && final(self)@ == old(self)@,
            },
    {
        let f = self.head(func);
        let ghost before = *self;
        match &*f {
            Ty::Arrow(dom, cod) => self.apply(
                share(dom),
                share(cod),
                share(expr),
                replace,
                share(nested),
            ),
            Ty::Forall(_, body) => {
                if self.next_ty_var == usize::MAX {
                    return Err(TyckError::InvariantViolation);
                }
                let opened = match Ty::open(body, self.next_ty_var) {
                    None => {
                        return Err(TyckError::InvariantViolation);
                    },
                    Some(t) => t,
                };
                let id = self.declare_back(TyVarKind::Existential);
                self.push_judgment(
                    Rc::new(
                        Judgment::AppInfer {
                            func: opened,
                            expr: share(expr),
                            replace,
                            nested: share(nested),
                        },
                    ),
                );
                Ok(())
            },
            Ty::Var(k) => {
                if self.is_unbound(&f) {
                    return Err(TyckError::UnboundVariable);
                }
                if self.unsolved_decl(&f).is_none() {
                    return Err(TyckError::TypeMismatch);
                }
                if replace == *k {
                    return Err(TyckError::DoubleSolve);
                }
                let target = match self.context.lookup_type_var(replace) {
                    Ok(TyVarState::Declared(decl)) => decl,
                    _ => {
                        return Err(TyckError::DoubleSolve);
                    },
                };
                proof {
                    assert(before.context.kinds().contains_key(replace));
                }
                match target.kind {
                    TyVarKind::Universal => {
                        return Err(TyckError::InvariantViolation);
                    },
                    TyVarKind::Existential => {},
                }
                let dom = self.next_ty_var;
                match self.split(*k) {
                    Err(e) => Err(e),
                    Ok(_) => {
                        let ghost mid = *self;
                        let cod = Rc::new(Ty::Var(dom + 1));
                        proof {
                            reveal_with_fuel(Ty::mentions_spec, 2);
                            reveal_with_fuel(Ty::surface_spec, 2);
                            reveal_with_fuel(Ty::is_mono_spec, 2);
                            reveal_with_fuel(Ty::resolve_spec, 2);
                            assert(replace < before.next_ty_var);
                            assert(mid.context.ty_vars().contains_key(replace));
                            assert(mid.context.ty_vars()[replace].kind == TyVarKind::Existential);
                            assert(mid.context.kinds().contains_key(replace));
                            mid.lemma_decl_index(replace);
                            assert(!mid.context.solutions().contains_key((dom + 1) as usize));
                            assert(crate::context::solve_error(
                                mid@.kinds,
                                mid@.solutions,
                                replace,
                                &*cod,
                            ) is None);
                        }
                        let r = self.apply(
                            Rc::new(Ty::Var(dom)),
                            cod,
                            share(expr),
                            replace,
                            share(nested),
                        );
                        proof {
                            assert(r is Ok);
                        }
                        r
                    },
                }
            },
            Ty::Unit => Err(TyckError::TypeMismatch),
        }
    }

    /// The rule of a judgment. On an error the state of the machine stays as it was.
    fn process_judgment(&mut self, judgment: &Rc<Judgment>) -> (r: Result<(), TyckError>)
        requires
            old(self).wf(),
        ensures
            final(self).wf(),
            match r {
                Ok(_) => old(self)@.process(&**judgment) == Ok::<State, TyckError>(final(self)@),
                Err(e) => old(self)@.process(&**judgment) == Err::<State, TyckError>(e) && final(
                    self)@ == old(self)@,
            },
    {
        match &**judgment {
            Judgment::Subtype { lhs, rhs } => self.process_subtype(lhs, rhs),
            Judgment::Check { expr, ty } => self.process_check(expr, ty),
            Judgment::Infer { expr, replace, nested } => self.process_infer(expr, *replace, nested),
            Judgment::AppInfer { func, expr, replace, nested } => self.process_app_infer(
                func,
                expr,
                *replace,
                nested,
            ),
        }
    }

    /// One step of the machine: the last item is taken off the worklist and its
    /// rule applied. Returns `Ok(true)` once the machine has accepted,
    /// `Ok(false)` while work is left, and the error once it has failed. The
    /// judgment whose rule failed is kept as the offending one.
    pub fn step(&mut self) -> (r: Result<bool, TyckError>)
        requires
            old(self).wf(),
        ensures
            final(self).wf(),
            final(self)@ == old(self)@.step(),
            r == (match final(self)@.status {
                Status::Running => Ok::<bool, TyckError>(false),
                Status::Succeeded => Ok::<bool, TyckError>(true),
                Status::Failed(e) => Err::<bool, TyckError>(e),
            }),
    {
        match self.status {
            Status::Running => {},
            Status::Succeeded => {
                return Ok(true);
            },
            Status::Failed(e) => {
                return Err(e);
            },
        }
        let ghost before = *self;
        proof {
            before.worklist.lemma_positions();
        }
        let (pos, item) = match self.worklist.pop_back() {
            None => {
                self.status = Status::Succeeded;
                proof {
                    Self::lemma_same(before, *self);
                }
                return Ok(true);
            },
            Some(popped) => popped,
        };
        match item {
            WorkItem::TyVarDecl(id, kind) => {
                self.context.discharge_type_var(id);
                proof {
                    assert(self.context.kinds() =~= before.context.kinds().remove(id));
                    Self::lemma_closed(before, *self, id);
                }
                Ok(false)
            },
            WorkItem::VarDecl(id, _) => {
                self.context.discharge_var(id);
                proof {
                    assert(self.context.var_types() =~= before.context.var_types().remove(id));
                    Self::lemma_popped(before, *self);
                }
                Ok(false)
            },
            WorkItem::Garbage => {
                proof {
                    Self::lemma_popped(before, *self);
                }
                Ok(false)
            },
            WorkItem::Judgment(judgment) => {
                proof {
                    Self::lemma_popped(before, *self);
                }
                let ghost rest = *self;
                match self.process_judgment(&judgment) {
                    Ok(_) => Ok(false),
                    Err(e) => {
                        let ghost failed = *self;
                        self.status = Status::Failed(e);
                        self.offending = Some(judgment);
                        proof {
                            Self::lemma_same(failed, *self);
                        }
                        Err(e)
                    },
                }
            },
        }
    }

    /// Worklist and context that show the same items, positions and
    /// declarations correspond as before.
    proof fn lemma_same(before: Self, after: Self)
        requires
            before.wf(),
            after.worklist.wf(),
            after.worklist@ == before.worklist@,
            after.worklist.positions() == before.worklist.positions(),
            after.context.ty_vars() == before.context.ty_vars(),
        ensures
            forall|id: usize|
                after.context.ty_vars().contains_key(id) ==> #[trigger] after.decl_ok(id),
            forall|i: int| 0 <= i < after.worklist@.len() ==> #[trigger] after.item_ok(i),
    {
        assert forall|id: usize| after.context.ty_vars().contains_key(id) implies #[trigger]
        after.decl_ok(id) by {
            assert(before.decl_ok(id));
        }
        assert forall|i: int| 0 <= i < after.worklist@.len() implies #[trigger] after.item_ok(
            i,
        ) by {
            assert(before.item_ok(i));
        }
    }

    /// What popping the declaration of the type variable `id` and removing the
    /// variable from the context does to the correspondence of worklist and context.
    proof fn lemma_closed(before: Self, after: Self, id: usize)
        requires
            before.wf(),
            before.worklist@.len() > 0,
            before.worklist@.last() matches WorkItem::TyVarDecl(k, _) && k == id,
            after.worklist.wf(),
            after.worklist@ == before.worklist@.drop_last(),
            after.worklist.positions() == before.worklist.positions().drop_last(),
            after.context.ty_vars() == before.context.ty_vars().remove(id),
        ensures
            forall|k: usize|
                after.context.ty_vars().contains_key(k) ==> #[trigger] after.decl_ok(k),
            forall|i: int| 0 <= i < after.worklist@.len() ==> #[trigger] after.item_ok(i),
    {
        before.worklist.lemma_positions();
        after.worklist.lemma_positions();
        let n = before.worklist@.len() as int;
        assert(before.item_ok(n - 1));
        assert forall|k: usize| after.context.ty_vars().contains_key(k) implies #[trigger]
        after.decl_ok(k) by {
            assert(before.decl_ok(k));
            let j = before.worklist.index_of(before.context.ty_vars()[k].position);
            assert(before.item_ok(j));
            assert(j != n - 1);
            assert(after.worklist.positions()[j] == before.worklist.positions()[j]);
        }
        assert forall|i: int| 0 <= i < after.worklist@.len() implies #[trigger] after.item_ok(
            i,
        ) by {
            assert(before.item_ok(i));
            assert(after.worklist.positions()[i] == before.worklist.positions()[i]);
            if let WorkItem::TyVarDecl(k, _) = before.worklist@[i] {
                if k == id {
                    assert(before.worklist.positions()[i] == before.worklist.positions()[n - 1]);
                }
            }
        }
    }

    /// What popping an item that declares no type variable does to the
    /// correspondence of worklist and context.
    proof fn lemma_popped(before: Self, after: Self)
        requires
            before.wf(),
            before.worklist@.len() > 0,
            !(before.worklist@.last() is TyVarDecl),
            after.worklist.wf(),
            after.worklist@ == before.worklist@.drop_last(),
            after.worklist.positions() == before.worklist.positions().drop_last(),
            after.context.ty_vars() == before.context.ty_vars(),
        ensures
            forall|id: usize|
                after.context.ty_vars().contains_key(id) ==> #[trigger] after.decl_ok(id),
            forall|i: int| 0 <= i < after.worklist@.len() ==> #[trigger] after.item_ok(i),
    {
        before.worklist.lemma_positions();
        after.worklist.lemma_positions();
        let n = before.worklist@.len() as int;
        assert forall|id: usize| after.context.ty_vars().contains_key(id) implies #[trigger]
        after.decl_ok(id) by {
            assert(before.decl_ok(id));
            let j = before.worklist.index_of(before.context.ty_vars()[id].position);
            assert(after.worklist.positions()[j] == before.worklist.positions()[j]);
        }
        assert forall|i: int| 0 <= i < after.worklist@.len() implies #[trigger] after.item_ok(
            i,
        ) by {
            assert(before.item_ok(i));
            assert(after.worklist.positions()[i] == before.worklist.positions()[i]);
        }
    }

    /// Declares a fresh type variable at the back of the worklist and returns
    /// its identifier: its scope is what is pushed after it. Where the
    /// identifiers are used up the call is an invariant violation, and the
    /// machine stays as it was.
    pub fn fresh_type_var(&mut self, kind: TyVarKind) -> (r: Result<usize, TyckError>)
        requires
            old(self).wf(),
        ensures
            final(self).wf(),
            old(self)@.next_ty_var == usize::MAX ==> r == Err::<usize, TyckError>(
                TyckError::InvariantViolation,
            ) && final(self)@ == old(self)@,
            old(self)@.next_ty_var < usize::MAX ==> r == Ok::<usize, TyckError>(
                old(self)@.next_ty_var,
            ) && final(self)@ == old(self)@.declare(old(self)@.next_ty_var, kind),
    {
        if self.next_ty_var == usize::MAX {
            return Err(TyckError::InvariantViolation);
        }
        Ok(self.declare_back(kind))
    }

    /// Declares a fresh term variable of the type `ty` at the back of the
    /// worklist and returns its identifier. Where the identifiers are used up
    /// the call is an invariant violation, and the machine stays as it was.
    pub fn fresh_var(&mut self, ty: Rc<Ty>) -> (r: Result<usize, TyckError>)
        requires
            old(self).wf(),
        ensures
            final(self).wf(),
            old(self)@.next_var == usize::MAX ==> r == Err::<usize, TyckError>(
                TyckError::InvariantViolation,
            ) && final(self)@ == old(self)@,
            old(self)@.next_var < usize::MAX ==> r == Ok::<usize, TyckError>(old(self)@.next_var)
                && final(self)@ == old(self)@.declare_var(old(self)@.next_var, ty),
    {
        if self.next_var == usize::MAX {
            return Err(TyckError::InvariantViolation);
        }
        Ok(self.declare_var_back(ty))
    }

    /// Solves the existential `id` to `ty`, resolved, and leaves garbage in the
    /// place of its declaration. Fails, and leaves the machine as it was, with
    /// `DoubleSolve` where `id` is not declared, because it is solved already or
    /// its scope is closed; with `InvariantViolation` where `id` is universal;
    /// with `CircularInstantiation` where the type mentions `id`, at any depth or
    /// through the solutions.
    pub fn solve(&mut self, id: usize, ty: &Rc<Ty>) -> (r: Result<(), TyckError>)
        requires
            old(self).wf(),
        ensures
            final(self).wf(),
            match r {
                Ok(_) => old(self)@.solve(id, &**ty) == Ok::<State, TyckError>(final(self)@),
                Err(e) => old(self)@.solve(id, &**ty) == Err::<State, TyckError>(e) && final(self)@
                    == old(self)@,
            },
    {
        self.solve_in_place(id, ty)
    }

    /// What is known of the type variable `id`: its declaration while it is
    /// unsolved, its solution once it is solved. A variable that is neither
    /// declared nor solved is unbound.
    pub fn lookup_type_var(&self, id: usize) -> (r: Result<TyVarState, TyckError>)
        requires
            self.wf(),
        ensures
            self@.kinds.contains_key(id) ==> (r matches Ok(TyVarState::Declared(decl))
                && decl.kind == self@.kinds[id] && self.positions().contains(decl.position)
                && self@.items[self.positions().index_of(decl.position)] == WorkItem::TyVarDecl(
                id,
                decl.kind,
            )),
            self@.solutions.contains_key(id) ==> r == Ok::<TyVarState, TyckError>(
                TyVarState::Solved(self@.solutions[id]),
            ),
            !self@.kinds.contains_key(id) && !self@.solutions.contains_key(id) ==> r == Err::<
                TyVarState,
                TyckError,
            >(TyckError::UnboundVariable),
    {
        proof {
            assert(self.context.kinds().contains_key(id) == self.context.ty_vars().contains_key(
                id,
            ));
            if self.context.ty_vars().contains_key(id) {
                assert(self.decl_ok(id));
            }
        }
        self.context.lookup_type_var(id)
    }

    /// The type of the term variable `id`. A variable that is not declared is unbound.
    pub fn lookup_var(&self, id: usize) -> (r: Result<Rc<Ty>, TyckError>)
        ensures
            self@.vars.contains_key(id) ==> r == Ok::<Rc<Ty>, TyckError>(self@.vars[id]),
            !self@.vars.contains_key(id) ==> r == Err::<Rc<Ty>, TyckError>(
                TyckError::UnboundVariable,
            ),
    {
        self.context.lookup_var(id)
    }

    /// The solution of the existential `id`, if it is solved.
    pub fn solution(&self, id: usize) -> (r: Option<Rc<Ty>>)
        ensures
            r == (if self@.solutions.contains_key(id) {
                Some(self@.solutions[id])
            } else {
                None
            }),
    {
        self.context.solution(id)
    }

    /// The type with every solved variable replaced by its solution; quantified
    /// types are left as they are.
    pub fn resolve(&self, ty: &Rc<Ty>) -> (r: Rc<Ty>)
        ensures
            *r == ty.resolve_spec(self@.solutions),
    {
        self.context.resolve(ty)
    }

    /// Whether no type variable and no term variable is declared.
    pub fn no_declarations(&self) -> (r: bool)
        ensures
            r == (self@.kinds.dom() =~= Set::<usize>::empty() && self@.vars.dom() =~= Set::<
                usize,
            >::empty()),
    {
        proof {
            assert(self.context.kinds().dom() =~= self.context.ty_vars().dom());
            assert(self.context.var_types().dom() =~= self.context.vars().dom());
        }
        self.context.no_declarations()
    }

    /// The judgment whose rule failed, once the machine has failed.
    pub fn offending(&self) -> (r: Option<Rc<Judgment>>)
        ensures
            r == self@.offending,
    {
        match &self.offending {
            Some(j) => Some(share(j)),
            None => None,
        }
    }

    /// The items of the worklist, front to back: the last one is the next to
    /// be processed.
    pub fn pending(&self) -> (out: Vec<&WorkItem>)
        requires
            self.wf(),
        ensures
            out@.len() == self@.items.len(),
            forall|i: int| 0 <= i < out@.len() ==> *out@[i] == self@.items[i],
    {
        self.worklist.items()
    }
}

/// The owner of a checking run: it holds the state and drives it to rest.
pub struct Machine {
    state: TyckMachine,
}

impl View for Machine {
    type V = State;

    /// The abstract state of the run.
    open spec fn view(&self) -> State {
        self.inner()@
    }
}

impl Machine {
    /// The state that the machine owns.
    pub closed spec fn inner(self) -> TyckMachine {
        self.state
    }

    /// The state that the machine owns is well formed.
    pub open spec fn wf(self) -> bool {
        self.inner().wf()
    }

    /// A machine with nothing to do yet.
    pub fn new() -> (machine: Self)
        ensures
            machine.wf(),
            machine@ == State::initial(),
    {
        Machine { state: TyckMachine::new() }
    }

    /// Gives `f` the state of the run, to push obligations or to read results,
    /// and returns what `f` returns. `f` has to leave the state well formed.
    pub fn enter<F, T>(&mut self, f: F) -> (r: T) where F: FnOnce(&mut TyckMachine) -> T
        requires
            old(self).wf(),
            forall|x: &mut TyckMachine| *x == old(self).inner() ==> f.requires((x,)),
            forall|x: &mut TyckMachine, out: T|
                *x == old(self).inner() && f.ensures((x,), out) ==> final(x).wf(),
        ensures
            final(self).wf(),
            exists|x: &mut TyckMachine|
                *x == old(self).inner() && *final(x) == final(self).inner() && f.ensures((x,), r),
    {
        f(&mut self.state)
    }

    /// Takes steps until the machine comes to rest. Returns `Ok` once the
    /// worklist is empty and the error of the rule that failed otherwise. The
    /// loop ends because every step lowers the measure of the state; the
    /// measure counts on solutions without quantifiers, which the rules keep
    /// and only a `solve` from outside can break.
    pub fn run(&mut self) -> (r: Result<(), TyckError>)
        requires
            old(self).wf(),
            predicative(old(self)@.solutions),
        ensures
            final(self).wf(),
            final(self)@ == old(self)@.run(),
            final(self)@.status != Status::Running,
            r == (match final(self)@.status {
                Status::Failed(e) => Err::<(), TyckError>(e),
                _ => Ok::<(), TyckError>(()),
            }),
    {
        proof {
            self.state.lemma_wf();
            self@.lemma_run_ends();
        }
        loop
            invariant
                self.wf(),
                self@.inv(),
                self@.run() == old(self)@.run(),
            decreases
                    self@.potential(),
                    self@.quantifiers(),
                    self@.layers(),
                    self@.unsolved(),
                    self@.size(),
        {
            let ghost before = self@;
            proof {
                before.lemma_run_ends();
                if before.status == Status::Running {
                    before.lemma_step();
                }
            }
            match self.state.step() {
                Ok(true) => {
                    return Ok(());
                },
                Ok(false) => {},
                Err(e) => {
                    return Err(e);
                },
            }
        }
    }
}

} // verus!
