//! The context maps: what is declared, and what the solved existentials stand for.
//!
//! An existential that has been declared is in exactly one of two states. While
//! it is unsolved it has a declaration record; once it is solved it has a
//! solution and no record. Solutions are kept resolved: no solution has a
//! solved variable outside of its quantifiers, so that one lookup gives the last
//! word on a variable at the head of a type.

use crate::error::TyckError;
use crate::shared::share;
use crate::term::{Ty, TyVarKind};
use std::collections::HashMap;
use std::rc::Rc;
use vstd::prelude::*;

verus! {

/// The declaration record of a type variable: where its declaration stands in
/// the worklist, and of which kind it is.
#[derive(Clone, Copy, Debug, PartialEq, Eq, Structural)]
pub struct TyVarDecl {
    pub position: usize,
    pub kind: TyVarKind,
}

/// The declaration record of a term variable: where its declaration stands in
/// the worklist, and its type.
#[derive(Clone, Debug, PartialEq, Eq)]
pub struct VarDecl {
    pub position: usize,
    pub ty: Rc<Ty>,
}

/// What is known of a type variable.
#[derive(Clone, Debug, PartialEq, Eq)]
pub enum TyVarState {
    /// Declared and not solved.
    Declared(TyVarDecl),
    /// Solved to this type.
    Solved(Rc<Ty>),
}

/// The declarations of type and term variables and the solutions of existentials.
pub struct Context {
    ty_vars: HashMap<usize, TyVarDecl>,
    vars: HashMap<usize, VarDecl>,
    solutions: HashMap<usize, Rc<Ty>>,
    solved: Vec<usize>,
}

/// No variable is both declared and solved, and no solution has a solved
/// variable on its surface: the solutions are resolved.
pub open spec fn normal(declared: Set<usize>, solutions: Map<usize, Rc<Ty>>) -> bool {
    &&& forall|k: usize| !(#[trigger] declared.contains(k) && solutions.contains_key(k))
    &&& forall|k: usize, j: usize|
        solutions.contains_key(k) && solutions.contains_key(j) ==> !(#[trigger] solutions[k]
            .surface_spec(j))
}

/// No solution holds a quantifier.
pub open spec fn predicative(solutions: Map<usize, Rc<Ty>>) -> bool {
    forall|k: usize| solutions.contains_key(k) ==> (#[trigger] solutions[k]).is_mono_spec()
}

/// The solutions once `id` is solved to `with`: `with` takes the place of `id`
/// on the surface of every solution, and `id` has the solution `with`.
pub open spec fn solved_with(solutions: Map<usize, Rc<Ty>>, id: usize, with: &Ty) -> Map<
    usize,
    Rc<Ty>,
> {
    Map::new(
        |k: usize| solutions.contains_key(k) || k == id,
        |k: usize|
            if k == id {
                Rc::new(*with)
            } else {
                Rc::new(solutions[k].subst_spec(id, with))
            },
    )
}

/// Why the variable `id` cannot be solved to `ty`, if it cannot: it is not an
/// unsolved existential, or the type mentions it, at any depth or through the
/// solutions.
pub open spec fn solve_error(
    kinds: Map<usize, TyVarKind>,
    solutions: Map<usize, Rc<Ty>>,
    id: usize,
    ty: &Ty,
) -> Option<TyckError> {
    if !kinds.contains_key(id) {
        Some(TyckError::DoubleSolve)
    } else if kinds[id] == TyVarKind::Universal {
        Some(TyckError::InvariantViolation)
    } else if ty.mentions_spec(id) || ty.resolve_spec(solutions).surface_spec(id) {
        Some(TyckError::CircularInstantiation)
    } else {
        None
    }
}

/// Solving keeps the solutions resolved.
pub proof fn lemma_solved_with_normal(
    kinds: Map<usize, TyVarKind>,
    solutions: Map<usize, Rc<Ty>>,
    id: usize,
    ty: &Ty,
)
    requires
        normal(kinds.dom(), solutions),
        solve_error(kinds, solutions, id, ty) is None,
    ensures
        normal(kinds.remove(id).dom(), solved_with(solutions, id, &ty.resolve_spec(solutions))),
{
    let with = ty.resolve_spec(solutions);
    let after = solved_with(solutions, id, &with);
    assert forall|j: usize| solutions.contains_key(j) implies !with.surface_spec(j) by {
        ty.lemma_resolve_drops(solutions, j);
    }
    assert forall|k: usize, j: usize|
        after.contains_key(k) && after.contains_key(j) implies !(#[trigger] after[k].surface_spec(
        j,
    )) by {
        if k != id {
            if after[k].surface_spec(j) {
                solutions[k].lemma_subst_surface(id, &with, j);
            }
        }
    }
}

/// Solving to a type without quantifiers keeps the solutions free of quantifiers.
pub proof fn lemma_solved_with_predicative(solutions: Map<usize, Rc<Ty>>, id: usize, ty: &Ty)
    requires
        predicative(solutions),
        ty.is_mono_spec(),
    ensures
        predicative(solved_with(solutions, id, &ty.resolve_spec(solutions))),
        ty.resolve_spec(solutions).is_mono_spec(),
{
    let with = ty.resolve_spec(solutions);
    let after = solved_with(solutions, id, &with);
    ty.lemma_resolve_mono(solutions);
    assert forall|k: usize| after.contains_key(k) implies (#[trigger] after[k]).is_mono_spec() by {
        if k != id {
            solutions[k].lemma_subst_mono(id, &with);
        }
    }
}

impl Context {
    /// The unsolved type variables with their declaration records.
    pub closed spec fn ty_vars(self) -> Map<usize, TyVarDecl> {
        self.ty_vars@
    }

    /// The unsolved type variables with their kinds.
    pub open spec fn kinds(self) -> Map<usize, TyVarKind> {
        Map::new(|k: usize| self.ty_vars().contains_key(k), |k: usize| self.ty_vars()[k].kind)
    }

    /// The term variables with their types.
    pub open spec fn var_types(self) -> Map<usize, Rc<Ty>> {
        Map::new(|k: usize| self.vars().contains_key(k), |k: usize| self.vars()[k].ty)
    }

    /// The term variables with their declaration records.
    pub closed spec fn vars(self) -> Map<usize, VarDecl> {
        self.vars@
    }

    /// The solved existentials with their solutions.
    pub closed spec fn solutions(self) -> Map<usize, Rc<Ty>> {
        self.solutions@
    }

    /// The list of solved variables names the keys of the solutions, each once.
    spec fn listed(self) -> bool {
        &&& self.solved@.no_duplicates()
        &&& forall|k: usize| self.solutions@.contains_key(k) <==> self.solved@.contains(k)
    }

    /// The maps are normal: no variable is both declared and solved, and the
    /// solutions are resolved.
    pub closed spec fn wf(self) -> bool {
        &&& self.listed()
        &&& normal(self.ty_vars@.dom(), self.solutions@)
    }

    /// What `wf` says of the maps, and that the maps are finite.
    pub proof fn lemma_wf(self)
        requires
            self.wf(),
        ensures
            normal(self.ty_vars().dom(), self.solutions()),
            normal(self.kinds().dom(), self.solutions()),
            self.ty_vars().dom().finite(),
            self.vars().dom().finite(),
            self.solutions().dom().finite(),
    {
        broadcast use vstd::std_specs::hash::axiom_hashmap_view_finite_dom;

        assert(self.kinds().dom() =~= self.ty_vars().dom());
    }

    /// A context in which nothing is declared and nothing solved.
    pub fn new() -> (ctx: Self)
        ensures
            ctx.wf(),
            ctx.ty_vars() == Map::<usize, TyVarDecl>::empty(),
            ctx.vars() == Map::<usize, VarDecl>::empty(),
            ctx.solutions() == Map::<usize, Rc<Ty>>::empty(),
    {
        Context {
            ty_vars: HashMap::new(),
            vars: HashMap::new(),
            solutions: HashMap::new(),
            solved: Vec::new(),
        }
    }

    /// Declares the type variable `id`. A variable that is declared or solved
    /// already is an invariant violation, and the context stays as it was.
    pub fn declare_type_var(&mut self, id: usize, kind: TyVarKind, position: usize) -> (r: Result<
        (),
        TyckError,
    >)
        requires
            old(self).wf(),
        ensures
            final(self).wf(),
            final(self).vars() == old(self).vars(),
            final(self).solutions() == old(self).solutions(),
            old(self).ty_vars().contains_key(id) || old(self).solutions().contains_key(id) ==> r
                == Err::<(), TyckError>(TyckError::InvariantViolation) && final(self).ty_vars()
                == old(self).ty_vars(),
            !old(self).ty_vars().contains_key(id) && !old(self).solutions().contains_key(id) ==> r
                == Ok::<(), TyckError>(()) && final(self).ty_vars() == old(self).ty_vars().insert(
                id,
                TyVarDecl { position, kind },
            ),
    {
        if self.ty_vars.contains_key(&id) || self.solutions.contains_key(&id) {
            return Err(TyckError::InvariantViolation);
        }
        self.ty_vars.insert(id, TyVarDecl { position, kind });
        Ok(())
    }

    /// Declares the term variable `id` with its type. A variable that is
    /// declared already is an invariant violation, and the context stays as it was.
    pub fn declare_var(&mut self, id: usize, ty: Rc<Ty>, position: usize) -> (r: Result<
        (),
        TyckError,
    >)
        requires
            old(self).wf(),
        ensures
            final(self).wf(),
            final(self).ty_vars() == old(self).ty_vars(),
            final(self).solutions() == old(self).solutions(),
            old(self).vars().contains_key(id) ==> r == Err::<(), TyckError>(
                TyckError::InvariantViolation,
            ) && final(self).vars() == old(self).vars(),
            !old(self).vars().contains_key(id) ==> r == Ok::<(), TyckError>(()) && final(self).vars() == old(self).vars().insert(id, VarDecl { position, ty }),
    {
        if self.vars.contains_key(&id) {
            return Err(TyckError::InvariantViolation);
        }
        self.vars.insert(id, VarDecl { position, ty });
        Ok(())
    }

    /// Removes the declaration of the type variable `id`, if it has one.
    pub fn discharge_type_var(&mut self, id: usize)
        requires
            old(self).wf(),
        ensures
            final(self).wf(),
            final(self).ty_vars() == old(self).ty_vars().remove(id),
            final(self).vars() == old(self).vars(),
            final(self).solutions() == old(self).solutions(),
    {
        self.ty_vars.remove(&id);
    }

    /// Removes the declaration of the term variable `id`, if it has one.
    pub fn discharge_var(&mut self, id: usize)
        requires
            old(self).wf(),
        ensures
            final(self).wf(),
            final(self).ty_vars() == old(self).ty_vars(),
            final(self).vars() == old(self).vars().remove(id),
            final(self).solutions() == old(self).solutions(),
    {
        self.vars.remove(&id);
    }

    /// What is known of the type variable `id`: its declaration while it is
    /// unsolved, its solution once it is solved. A variable that is neither
    /// declared nor solved is unbound.
    pub fn lookup_type_var(&self, id: usize) -> (r: Result<TyVarState, TyckError>)
        requires
            self.wf(),
        ensures
            self.ty_vars().contains_key(id) ==> r == Ok::<TyVarState, TyckError>(
                TyVarState::Declared(self.ty_vars()[id]),
            ),
            self.solutions().contains_key(id) ==> r == Ok::<TyVarState, TyckError>(
                TyVarState::Solved(self.solutions()[id]),
            ),
            !self.ty_vars().contains_key(id) && !self.solutions().contains_key(id) ==> r == Err::<
                TyVarState,
                TyckError,
            >(TyckError::UnboundVariable),
    {
        match self.ty_vars.get(&id) {
            Some(decl) => Ok(TyVarState::Declared(*decl)),
            None => match self.solutions.get(&id) {
                Some(ty) => Ok(TyVarState::Solved(share(ty))),
                None => Err(TyckError::UnboundVariable),
            },
        }
    }

    /// The type of the term variable `id`. A variable that is not declared is unbound.
    pub fn lookup_var(&self, id: usize) -> (r: Result<Rc<Ty>, TyckError>)
        ensures
            self.vars().contains_key(id) ==> r == Ok::<Rc<Ty>, TyckError>(self.vars()[id].ty),
            !self.vars().contains_key(id) ==> r == Err::<Rc<Ty>, TyckError>(
                TyckError::UnboundVariable,
            ),
    {
        match self.vars.get(&id) {
            Some(decl) => Ok(share(&decl.ty)),
            None => Err(TyckError::UnboundVariable),
        }
    }

    /// The solution of the existential `id`, if it is solved.
    pub fn solution(&self, id: usize) -> (r: Option<Rc<Ty>>)
        ensures
            r == (if self.solutions().contains_key(id) {
                Some(self.solutions()[id])
            } else {
                None
            }),
    {
        match self.solutions.get(&id) {
            Some(ty) => Some(share(ty)),
            None => None,
        }
    }

    /// Whether no type variable and no term variable is declared.
    pub fn no_declarations(&self) -> (r: bool)
        ensures
            r == (self.ty_vars().dom() =~= Set::<usize>::empty() && self.vars().dom()
                =~= Set::<usize>::empty()),
    {
        broadcast use vstd::std_specs::hash::axiom_hashmap_view_finite_dom;

        let r = self.ty_vars.len() == 0 && self.vars.len() == 0;
        proof {
            if self.ty_vars@.len() == 0 {
                assert(self.ty_vars@.dom() =~= Set::<usize>::empty()) by {
                    self.ty_vars@.dom().lemma_len0_is_empty();
                }
            }
            if self.vars@.len() == 0 {
                assert(self.vars@.dom() =~= Set::<usize>::empty()) by {
                    self.vars@.dom().lemma_len0_is_empty();
                }
            }
        }
        r
    }

    /// The type with every solved variable replaced by its solution; quantified
    /// types are left as they are.
    pub fn resolve(&self, ty: &Rc<Ty>) -> (r: Rc<Ty>)
        ensures
            *r == ty.resolve_spec(self.solutions()),
        decreases **ty,
    {
        match &**ty {
            Ty::Unit => share(ty),
            Ty::Var(k) => match self.solutions.get(k) {
                Some(t) => share(t),
                None => share(ty),
            },
            Ty::Forall(_, _) => share(ty),
            Ty::Arrow(a, b) => {
                let x = self.resolve(a);
                let y = self.resolve(b);
                Rc::new(Ty::Arrow(x, y))
            },
        }
    }

    /// Solves the existential `id` to `ty`, resolved: the variable leaves the
    /// declarations, the resolved type takes its place in every solution, and
    /// it becomes the solution of `id`. Returns where the declaration of `id`
    /// stands in the worklist. Fails, and leaves the context as it was, with
    /// `DoubleSolve` where `id` has no declaration, because it is solved already
    /// or was removed; with `InvariantViolation` where `id` is universal; with
    /// `CircularInstantiation` where the type mentions `id`, at any depth or
    /// through the solutions.
    pub fn solve(&mut self, id: usize, ty: &Rc<Ty>) -> (r: Result<usize, TyckError>)
        requires
            old(self).wf(),
        ensures
            final(self).wf(),
            final(self).vars() == old(self).vars(),
            match r {
                Err(e) => solve_error(old(self).kinds(), old(self).solutions(), id, &**ty)
                    == Some(e) && *final(self) == *old(self),
                Ok(position) => solve_error(old(self).kinds(), old(self).solutions(), id, &**ty)
                    is None && position == old(self).ty_vars()[id].position && final(self).ty_vars() == old(self).ty_vars().remove(id) && final(self).solutions()
                    == solved_with(
                    old(self).solutions(),
                    id,
                    &ty.resolve_spec(old(self).solutions()),
                ),
            },
    {
        let decl = match self.ty_vars.get(&id) {
            None => {
                return Err(TyckError::DoubleSolve);
            },
            Some(decl) => *decl,
        };
        match decl.kind {
            TyVarKind::Universal => {
                return Err(TyckError::InvariantViolation);
            },
            TyVarKind::Existential => {},
        }
        if ty.mentions(id) {
            return Err(TyckError::CircularInstantiation);
        }
        let with = self.resolve(ty);
        if with.surface(id) {
            return Err(TyckError::CircularInstantiation);
        }
        let ghost before = *self;
        proof {
            assert(before.kinds().dom() =~= before.ty_vars@.dom());
            lemma_solved_with_normal(before.kinds(), before.solutions@, id, &**ty);
            assert(before.kinds().remove(id).dom() =~= before.ty_vars@.remove(id).dom());
        }
        let mut i: usize = 0;
        while i < self.solved.len()
            invariant
                0 <= i <= self.solved.len(),
                self.solved == before.solved,
                self.ty_vars == before.ty_vars,
                self.vars == before.vars,
                before.listed(),
                self.solutions@.dom() == before.solutions@.dom(),
                forall|j: int|
                    0 <= j < self.solved.len() ==> *(#[trigger] self.solutions@[self.solved@[j]])
                        == (if j < i {
                        before.solutions@[self.solved@[j]].subst_spec(id, &*with)
                    } else {
                        *before.solutions@[self.solved@[j]]
                    }),
            decreases self.solved.len() - i,
        {
            let k = self.solved[i];
            proof {
                assert(before.solved@.contains(k));
            }
            let updated = match self.solutions.get(&k) {
                Some(t) => Some(Ty::subst(t, id, &with)),
                None => None,
            };
            let ghost mid = self.solutions@;
            match updated {
                Some(t) => {
                    self.solutions.insert(k, t);
                },
                None => {},
            }
            proof {
                assert(self.solutions@.dom() =~= before.solutions@.dom());
                assert forall|j: int| 0 <= j < self.solved.len() implies *(
                #[trigger] self.solutions@[self.solved@[j]]) == (if j < i + 1 {
                    before.solutions@[self.solved@[j]].subst_spec(id, &*with)
                } else {
                    *before.solutions@[self.solved@[j]]
                }) by {
                    if j != i {
                        assert(self.solved@[j] != self.solved@[i as int]);
                        assert(self.solutions@[self.solved@[j]] == mid[self.solved@[j]]);
                    }
                }
            }
            i = i + 1;
        }
        self.solutions.insert(id, with);
        self.solved.push(id);
        self.ty_vars.remove(&id);
        proof {
            let target = solved_with(before.solutions@, id, &*with);
            assert forall|k: usize| target.contains_key(k) implies self.solutions@.contains_key(k)
                && self.solutions@[k] == target[k] by {
                if k != id {
                    assert(before.solved@.contains(k));
                    let j = before.solved@.index_of(k);
                    assert(before.solved@[j] == k);
                    assert(*self.solutions@[self.solved@[j]]
                        == before.solutions@[self.solved@[j]].subst_spec(id, &*with));
                }
            }
            assert(self.solutions@ =~= target);
            assert(!before.solutions@.contains_key(id));
            assert forall|k: usize| self.solutions@.contains_key(k) <==> self.solved@.contains(
                k,
            ) by {
                if before.solved@.contains(k) {
                    let j = before.solved@.index_of(k);
                    assert(self.solved@[j] == k);
                }
                if k == id {
                    assert(self.solved@[before.solved@.len() as int] == id);
                }
            }
            assert(self.solved@.no_duplicates()) by {
                assert forall|a: int, b: int|
                    0 <= a < self.solved@.len() && 0 <= b < self.solved@.len() && a
                        != b implies self.solved@[a] != self.solved@[b] by {
                    if a < before.solved@.len() {
                        assert(before.solved@.contains(self.solved@[a]));
                    }
                    if b < before.solved@.len() {
                        assert(before.solved@.contains(self.solved@[b]));
                    }
                }
            }
        }
        Ok(decl.position)
    }
}

} // verus!
