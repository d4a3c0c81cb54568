//! What holds of the rules, whatever the state: laws of the model that the
//! machine implements.

use crate::error::TyckError;
use crate::judgment::{Judgment, WorkItem};
use crate::model::{State, Status};
use crate::term::{Ty, TyVarKind};
use std::rc::Rc;
use vstd::prelude::*;

verus! {

/// Trivial equality is sound. It holds between a type and itself where the
/// type is the unit type or a variable, it holds between equal types only, and
/// where it holds the subtype rule accepts the pair as it stands: no item is
/// pushed, nothing is declared, nothing is solved.
pub proof fn law_trivial_equality(state: State, a: Ty, b: Ty)
    ensures
        a is Unit || a is Var ==> Ty::trivially_equal_spec(&a, &a),
        Ty::trivially_equal_spec(&a, &b) ==> a == b,
        Ty::trivially_equal_spec(&a, &b) ==> state.subtype(&a, &b) == Ok::<State, TyckError>(state),
{
}

/// A running machine whose next item is a subtype judgment between trivially
/// equal types drops the judgment and changes nothing else.
pub proof fn law_trivial_equality_step(state: State, a: Ty, b: Ty)
    requires
        state.status == Status::Running,
        Ty::trivially_equal_spec(&a, &b),
    ensures
        state.push_judgment(Judgment::Subtype { lhs: Rc::new(a), rhs: Rc::new(b) }).step()
            == state,
{
    let pushed = state.push_judgment(Judgment::Subtype { lhs: Rc::new(a), rhs: Rc::new(b) });
    assert(pushed.items.drop_last() =~= state.items);
}

/// A subtype judgment between two arrows is taken apart into the judgment on
/// the codomains, in the same direction, and the judgment on the domains, in
/// the other direction; the judgment on the domains is processed first.
pub proof fn law_arrow_decomposition(state: State, a1: Ty, a2: Ty, b1: Ty, b2: Ty)
    ensures
        state.subtype(
            &Ty::Arrow(Rc::new(a1), Rc::new(a2)),
            &Ty::Arrow(Rc::new(b1), Rc::new(b2)),
        ) == Ok::<State, TyckError>(
            state.push_judgment(Judgment::Subtype { lhs: Rc::new(a2), rhs: Rc::new(b2) })
                .push_judgment(Judgment::Subtype { lhs: Rc::new(b1), rhs: Rc::new(a1) }),
        ),
{
}

/// The subtype judgment between two arrows is accepted exactly when the
/// judgments on the domains, reversed, and on the codomains are accepted one
/// after the other: from the first step on the two runs are the same run.
pub proof fn law_arrow_run(state: State, a1: Ty, a2: Ty, b1: Ty, b2: Ty)
    requires
        state.inv(),
        state.status == Status::Running,
    ensures
        state.push_judgment(
            Judgment::Subtype {
                lhs: Rc::new(Ty::Arrow(Rc::new(a1), Rc::new(a2))),
                rhs: Rc::new(Ty::Arrow(Rc::new(b1), Rc::new(b2))),
            },
        ).run() == state.push_judgment(
            Judgment::Subtype { lhs: Rc::new(a2), rhs: Rc::new(b2) },
        ).push_judgment(Judgment::Subtype { lhs: Rc::new(b1), rhs: Rc::new(a1) }).run(),
{
    let whole = state.push_judgment(
        Judgment::Subtype {
            lhs: Rc::new(Ty::Arrow(Rc::new(a1), Rc::new(a2))),
            rhs: Rc::new(Ty::Arrow(Rc::new(b1), Rc::new(b2))),
        },
    );
    let parts = state.push_judgment(
        Judgment::Subtype { lhs: Rc::new(a2), rhs: Rc::new(b2) },
    ).push_judgment(Judgment::Subtype { lhs: Rc::new(b1), rhs: Rc::new(a1) });
    assert(whole.items.drop_last() =~= state.items);
    law_arrow_decomposition(state, a1, a2, b1, b2);
    assert(whole.step() == parts);
    whole.lemma_run_ends();
    parts.lemma_run_ends();
}

/// The full check accepts every type without quantifiers against itself,
/// whether or not its variables are declared: the run that starts with the
/// judgment between the type and itself goes on as the run without it.
pub proof fn law_reflexivity(state: State, a: &Ty)
    requires
        state.inv(),
        state.status == Status::Running,
        a.is_mono_spec(),
    ensures
        state.push_judgment(Judgment::Subtype { lhs: Rc::new(*a), rhs: Rc::new(*a) }).run()
            == state.run(),
    decreases a,
{
    let pushed = state.push_judgment(Judgment::Subtype { lhs: Rc::new(*a), rhs: Rc::new(*a) });
    state.lemma_push(WorkItem::Judgment(Rc::new(Judgment::Subtype { lhs: Rc::new(*a), rhs: Rc::new(*a) })));
    assert(pushed.items.drop_last() =~= state.items);
    pushed.lemma_run_ends();
    state.lemma_run_ends();
    match a {
        Ty::Arrow(x, y) => {
            let lower = state.push_judgment(Judgment::Subtype { lhs: *y, rhs: *y });
            let upper = lower.push_judgment(Judgment::Subtype { lhs: *x, rhs: *x });
            assert(pushed.step() == upper);
            state.lemma_push(WorkItem::Judgment(Rc::new(Judgment::Subtype { lhs: *y, rhs: *y })));
            law_reflexivity(lower, &**x);
            law_reflexivity(state, &**y);
        },
        _ => {
            assert(pushed.step() == state);
        },
    }
}

/// An existential is solved once: after `solve(id, ty)` has succeeded, every
/// further `solve` of `id` fails with `DoubleSolve`, whatever the type.
pub proof fn law_single_assignment(state: State, id: usize, ty: Ty, again: Ty)
    requires
        state.solve(id, &ty) is Ok,
    ensures
        state.solve(id, &ty).unwrap().solve(id, &again) == Err::<State, TyckError>(
            TyckError::DoubleSolve,
        ),
{
}

/// The occurs check: an unsolved existential cannot be solved to a type that
/// mentions it, at any depth, or that comes to mention it once the solved
/// variables outside of its quantifiers are replaced by their solutions.
pub proof fn law_occurs_check(state: State, id: usize, ty: Ty)
    requires
        state.kinds.contains_key(id),
        state.kinds[id] == TyVarKind::Existential,
        ty.mentions_spec(id) || ty.resolve_spec(state.solutions).surface_spec(id),
    ensures
        state.solve(id, &ty) == Err::<State, TyckError>(TyckError::CircularInstantiation),
{
}

/// A type that has an unsolved variable outside of its quantifiers still has
/// it there once it is resolved: resolving hides no occurrence from the occurs
/// check.
pub proof fn law_occurs_survives_resolution(state: State, id: usize, ty: Ty)
    requires
        !state.solutions.contains_key(id),
        ty.surface_spec(id),
    ensures
        ty.resolve_spec(state.solutions).surface_spec(id),
{
    ty.lemma_resolve_keeps(state.solutions, id);
}

/// An unsolved existential is solved to every type that passes the occurs
/// check, whether or not the type holds a quantifier: the variable leaves the
/// declarations, its declaration becomes garbage in place, and the resolved
/// type is its solution.
pub proof fn law_solve_succeeds(state: State, id: usize, ty: Ty)
    requires
        state.kinds.contains_key(id),
        state.kinds[id] == TyVarKind::Existential,
        state.has_decl(id),
        !ty.mentions_spec(id),
        !ty.resolve_spec(state.solutions).surface_spec(id),
    ensures
        state.solve(id, &ty) is Ok,
        !state.solve(id, &ty).unwrap().kinds.contains_key(id),
        *state.solve(id, &ty).unwrap().solutions[id] == ty.resolve_spec(state.solutions),
        state.solve(id, &ty).unwrap().items == state.items.update(
            state.decl_index(id),
            WorkItem::Garbage,
        ),
{
}

/// Checking ends. From a state that upholds the invariant the run comes to
/// rest, accepting or failing; and while the machine runs, every step lowers
/// the measure of the state, which is made of the weight of the pending
/// expressions, the quantifiers of the pending types, how much of them stands
/// above a quantifier, the number of unsolved variables and the sizes of the
/// pending types.
pub proof fn law_termination(state: State)
    requires
        state.inv(),
    ensures
        state.run().status != Status::Running,
        state.status == Status::Running && state.step().status == Status::Running
            ==> state.step().lower_than(state),
        state.status == Status::Running && state.items.len() == 0 ==> state.run().status
            == Status::Succeeded,
{
    state.lemma_run_ends();
    if state.status == Status::Running {
        state.lemma_step();
    }
}

} // verus!
