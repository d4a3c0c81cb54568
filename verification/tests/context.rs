use std::rc::Rc;
use worklist_tyck::context::{Context, TyVarDecl, TyVarState};
use worklist_tyck::error::TyckError;
use worklist_tyck::term::{Ty, TyVarKind};

fn unit() -> Rc<Ty> {
    Rc::new(Ty::Unit)
}

fn var(i: usize) -> Rc<Ty> {
    Rc::new(Ty::Var(i))
}

fn arrow(a: Rc<Ty>, b: Rc<Ty>) -> Rc<Ty> {
    Rc::new(Ty::Arrow(a, b))
}

#[test]
fn lookup_of_an_undeclared_variable_is_unbound() {
    let ctx = Context::new();
    assert_eq!(ctx.lookup_type_var(0), Err(TyckError::UnboundVariable));
    assert_eq!(ctx.lookup_var(0), Err(TyckError::UnboundVariable));
    assert_eq!(ctx.solution(0), None);
    assert!(ctx.no_declarations());
}

#[test]
fn declared_variables_are_found() {
    let mut ctx = Context::new();
    assert_eq!(ctx.declare_type_var(3, TyVarKind::Universal, 11), Ok(()));
    assert_eq!(ctx.declare_var(0, unit(), 12), Ok(()));
    assert_eq!(
        ctx.lookup_type_var(3),
        Ok(TyVarState::Declared(TyVarDecl { position: 11, kind: TyVarKind::Universal }))
    );
    assert_eq!(ctx.lookup_var(0), Ok(unit()));
    assert!(!ctx.no_declarations());
    assert_eq!(
        ctx.declare_type_var(3, TyVarKind::Existential, 13),
        Err(TyckError::InvariantViolation)
    );
    assert_eq!(ctx.declare_var(0, var(3), 14), Err(TyckError::InvariantViolation));
    assert_eq!(ctx.lookup_var(0), Ok(unit()));
    ctx.discharge_type_var(3);
    ctx.discharge_var(0);
    assert_eq!(ctx.lookup_type_var(3), Err(TyckError::UnboundVariable));
    assert_eq!(ctx.lookup_var(0), Err(TyckError::UnboundVariable));
    assert!(ctx.no_declarations());
}

#[test]
fn solve_moves_the_variable_from_the_declarations_to_the_solutions() {
    let mut ctx = Context::new();
    ctx.declare_type_var(0, TyVarKind::Existential, 5).unwrap();
    assert_eq!(ctx.solve(0, &arrow(unit(), unit())), Ok(5));
    assert_eq!(ctx.lookup_type_var(0), Ok(TyVarState::Solved(arrow(unit(), unit()))));
    assert_eq!(ctx.solution(0), Some(arrow(unit(), unit())));
    assert!(ctx.no_declarations());
}

#[test]
fn a_second_solve_is_a_double_solve() {
    let mut ctx = Context::new();
    ctx.declare_type_var(0, TyVarKind::Existential, 1).unwrap();
    assert_eq!(ctx.solve(0, &unit()), Ok(1));
    assert_eq!(ctx.solve(0, &unit()), Err(TyckError::DoubleSolve));
    assert_eq!(ctx.solve(0, &arrow(unit(), unit())), Err(TyckError::DoubleSolve));
    assert_eq!(ctx.solve(0, &var(0)), Err(TyckError::DoubleSolve));
    assert_eq!(ctx.solution(0), Some(unit()));
}

#[test]
fn solve_of_a_removed_or_undeclared_variable_is_a_double_solve() {
    let mut ctx = Context::new();
    assert_eq!(ctx.solve(4, &unit()), Err(TyckError::DoubleSolve));
    ctx.declare_type_var(4, TyVarKind::Existential, 1).unwrap();
    ctx.discharge_type_var(4);
    assert_eq!(ctx.solve(4, &unit()), Err(TyckError::DoubleSolve));
    assert_eq!(ctx.solution(4), None);
}

#[test]
fn solve_of_a_universal_is_an_invariant_violation() {
    let mut ctx = Context::new();
    ctx.declare_type_var(0, TyVarKind::Universal, 1).unwrap();
    assert_eq!(ctx.solve(0, &unit()), Err(TyckError::InvariantViolation));
    assert_eq!(
        ctx.lookup_type_var(0),
        Ok(TyVarState::Declared(TyVarDecl { position: 1, kind: TyVarKind::Universal }))
    );
}

#[test]
fn solve_to_a_type_that_mentions_the_variable_is_circular() {
    let mut ctx = Context::new();
    ctx.declare_type_var(0, TyVarKind::Existential, 1).unwrap();
    assert_eq!(ctx.solve(0, &arrow(var(0), unit())), Err(TyckError::CircularInstantiation));
    assert_eq!(ctx.solve(0, &var(0)), Err(TyckError::CircularInstantiation));
    assert_eq!(
        ctx.solve(0, &arrow(unit(), arrow(unit(), var(0)))),
        Err(TyckError::CircularInstantiation)
    );
    let quantified = Rc::new(Ty::Forall("a".to_string(), var(1)));
    assert_eq!(ctx.solve(0, &quantified), Err(TyckError::CircularInstantiation));
    assert_eq!(ctx.solution(0), None);
    assert_eq!(ctx.solve(0, &unit()), Ok(1));
}

#[test]
fn solve_to_a_type_that_mentions_the_variable_through_a_solution_is_circular() {
    let mut ctx = Context::new();
    ctx.declare_type_var(0, TyVarKind::Existential, 1).unwrap();
    ctx.declare_type_var(1, TyVarKind::Existential, 2).unwrap();
    assert_eq!(ctx.solve(1, &arrow(var(0), unit())), Ok(2));
    assert_eq!(ctx.solve(0, &var(1)), Err(TyckError::CircularInstantiation));
    assert_eq!(ctx.solve(0, &arrow(unit(), var(1))), Err(TyckError::CircularInstantiation));
    assert_eq!(ctx.solution(0), None);
}

#[test]
fn solve_takes_a_quantified_type_as_it_is() {
    let mut ctx = Context::new();
    ctx.declare_type_var(0, TyVarKind::Existential, 1).unwrap();
    ctx.declare_type_var(1, TyVarKind::Existential, 2).unwrap();
    ctx.declare_type_var(2, TyVarKind::Existential, 3).unwrap();
    let quantified = Rc::new(Ty::Forall("a".to_string(), var(0)));
    assert_eq!(ctx.solve(2, &unit()), Ok(3));
    assert_eq!(ctx.solve(0, &arrow(var(2), quantified.clone())), Ok(1));
    assert_eq!(ctx.solution(0), Some(arrow(unit(), quantified.clone())));
    assert_eq!(ctx.solve(1, &quantified), Ok(2));
    assert_eq!(ctx.solution(1), Some(quantified));
}

#[test]
fn solutions_are_kept_resolved() {
    let mut ctx = Context::new();
    for id in 0..4 {
        ctx.declare_type_var(id, TyVarKind::Existential, 10 + id).unwrap();
    }
    assert_eq!(ctx.solve(0, &arrow(var(1), var(2))), Ok(10));
    assert_eq!(ctx.solve(3, &var(0)), Ok(13));
    assert_eq!(ctx.solution(3), Some(arrow(var(1), var(2))));
    assert_eq!(ctx.solve(1, &unit()), Ok(11));
    assert_eq!(ctx.solution(0), Some(arrow(unit(), var(2))));
    assert_eq!(ctx.solution(3), Some(arrow(unit(), var(2))));
    assert_eq!(ctx.solve(2, &arrow(var(1), var(1))), Ok(12));
    let full = arrow(unit(), arrow(unit(), unit()));
    assert_eq!(ctx.solution(0), Some(full.clone()));
    assert_eq!(ctx.solution(3), Some(full.clone()));
    assert_eq!(ctx.solution(2), Some(arrow(unit(), unit())));
    assert_eq!(ctx.resolve(&arrow(var(0), var(9))), arrow(full, var(9)));
    assert!(ctx.no_declarations());
}

#[test]
fn resolve_leaves_quantified_types_alone() {
    let mut ctx = Context::new();
    ctx.declare_type_var(0, TyVarKind::Existential, 1).unwrap();
    ctx.solve(0, &unit()).unwrap();
    let quantified = Rc::new(Ty::Forall("a".to_string(), var(1)));
    assert_eq!(ctx.resolve(&quantified), quantified);
    assert_eq!(ctx.resolve(&var(0)), unit());
    assert_eq!(ctx.resolve(&var(1)), var(1));
}
