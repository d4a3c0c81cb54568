use std::rc::Rc;
use worklist_tyck::context::TyVarState;
use worklist_tyck::error::TyckError;
use worklist_tyck::judgment::{Judgment, WorkItem};
use worklist_tyck::machine::{Machine, TyckMachine};
use worklist_tyck::model::Status;
use worklist_tyck::term::{Expr, Ty, TyVarKind};

fn unit() -> Rc<Ty> {
    Rc::new(Ty::Unit)
}

fn var(i: usize) -> Rc<Ty> {
    Rc::new(Ty::Var(i))
}

fn arrow(a: Rc<Ty>, b: Rc<Ty>) -> Rc<Ty> {
    Rc::new(Ty::Arrow(a, b))
}

fn quantified(name: &str, body: Rc<Ty>) -> Rc<Ty> {
    Rc::new(Ty::Forall(name.to_string(), body))
}

fn e_unit() -> Rc<Expr> {
    Rc::new(Expr::Unit)
}

fn e_var(i: usize) -> Rc<Expr> {
    Rc::new(Expr::Var(i))
}

fn lam(name: &str, body: Rc<Expr>) -> Rc<Expr> {
    Rc::new(Expr::Lam(name.to_string(), body))
}

fn app(f: Rc<Expr>, a: Rc<Expr>) -> Rc<Expr> {
    Rc::new(Expr::App(f, a))
}

fn let_in(name: &str, bound: Rc<Expr>, body: Rc<Expr>) -> Rc<Expr> {
    Rc::new(Expr::Let(name.to_string(), bound, body))
}

fn subtype(lhs: Rc<Ty>, rhs: Rc<Ty>) -> Rc<Judgment> {
    Rc::new(Judgment::Subtype { lhs, rhs })
}

fn check(expr: Rc<Expr>, ty: Rc<Ty>) -> Rc<Judgment> {
    Rc::new(Judgment::Check { expr, ty })
}

fn done() -> Rc<Judgment> {
    subtype(unit(), unit())
}

fn run_with(judgment: Rc<Judgment>) -> (Machine, Result<(), TyckError>) {
    let mut machine = Machine::new();
    machine.enter(|state| state.push_judgment(judgment));
    let result = machine.run();
    (machine, result)
}

fn infer_closed(expr: Rc<Expr>) -> (Machine, Result<(), TyckError>) {
    let mut machine = Machine::new();
    let target = machine.enter(|state| state.fresh_type_var(TyVarKind::Existential)).unwrap();
    assert_eq!(target, 0);
    machine.enter(|state| {
        state.push_judgment(Rc::new(Judgment::Infer { expr, replace: 0, nested: done() }))
    });
    let result = machine.run();
    (machine, result)
}

#[test]
fn an_empty_machine_accepts() {
    let mut machine = Machine::new();
    assert_eq!(machine.enter(|state| state.status()), Status::Running);
    assert_eq!(machine.run(), Ok(()));
    assert_eq!(machine.enter(|state| state.status()), Status::Succeeded);
    assert_eq!(machine.run(), Ok(()));
}

#[test]
fn check_unit_against_unit_succeeds_without_residue() {
    let (mut machine, result) = run_with(check(e_unit(), unit()));
    assert_eq!(result, Ok(()));
    assert_eq!(machine.enter(|state| state.status()), Status::Succeeded);
    assert!(machine.enter(|state| state.no_declarations()));
    assert!(machine.enter(|state| state.pending().is_empty()));
}

#[test]
fn check_identity_against_unit_to_unit_succeeds() {
    let (mut machine, result) = run_with(check(lam("x", e_var(0)), arrow(unit(), unit())));
    assert_eq!(result, Ok(()));
    assert_eq!(machine.enter(|state| state.status()), Status::Succeeded);
    assert!(machine.enter(|state| state.no_declarations()));
    assert_eq!(machine.enter(|state| state.lookup_var(0)), Err(TyckError::UnboundVariable));
}

#[test]
fn subtype_with_disagreeing_codomains_fails_with_a_mismatch() {
    let bad = subtype(arrow(unit(), unit()), arrow(unit(), arrow(unit(), unit())));
    let (mut machine, result) = run_with(bad);
    assert_eq!(result, Err(TyckError::TypeMismatch));
    assert_eq!(
        machine.enter(|state| state.status()),
        Status::Failed(TyckError::TypeMismatch)
    );
    assert_eq!(
        machine.enter(|state| state.offending()),
        Some(subtype(unit(), arrow(unit(), unit())))
    );
    assert!(machine.enter(|state| state.pending().is_empty()));
    assert_eq!(machine.run(), Err(TyckError::TypeMismatch));
}

#[test]
fn infer_application_of_identity_to_unit_solves_the_target_to_unit() {
    let (mut machine, result) = infer_closed(app(lam("x", e_var(0)), e_unit()));
    assert_eq!(result, Ok(()));
    assert_eq!(machine.enter(|state| state.solution(0)), Some(unit()));
    assert_eq!(
        machine.enter(|state| state.lookup_type_var(0)),
        Ok(TyVarState::Solved(unit()))
    );
    assert!(machine.enter(|state| state.no_declarations()));
}

#[test]
fn solving_an_existential_to_an_arrow_from_itself_is_circular() {
    let mut state = TyckMachine::new();
    assert_eq!(state.fresh_type_var(TyVarKind::Existential), Ok(0));
    assert_eq!(
        state.solve(0, &arrow(var(0), unit())),
        Err(TyckError::CircularInstantiation)
    );
    assert_eq!(state.solution(0), None);
    assert_eq!(state.pending().len(), 1);
    assert_eq!(*state.pending()[0], WorkItem::TyVarDecl(0, TyVarKind::Existential));
}

#[test]
fn solve_leaves_garbage_in_the_place_of_the_declaration() {
    let mut state = TyckMachine::new();
    assert_eq!(state.fresh_type_var(TyVarKind::Existential), Ok(0));
    assert_eq!(state.fresh_type_var(TyVarKind::Universal), Ok(1));
    assert_eq!(state.solve(0, &arrow(var(1), unit())), Ok(()));
    let items: Vec<WorkItem> = state.pending().into_iter().cloned().collect();
    assert_eq!(
        items,
        vec![WorkItem::Garbage, WorkItem::TyVarDecl(1, TyVarKind::Universal)]
    );
    assert_eq!(state.solve(0, &unit()), Err(TyckError::DoubleSolve));
    assert_eq!(state.solve(1, &unit()), Err(TyckError::InvariantViolation));
    assert_eq!(state.solve(7, &unit()), Err(TyckError::DoubleSolve));
    assert_eq!(state.resolve(&var(0)), arrow(var(1), unit()));
}

#[test]
fn step_closes_scopes_and_drops_garbage() {
    let mut state = TyckMachine::new();
    assert_eq!(state.fresh_var(unit()), Ok(0));
    assert_eq!(state.fresh_type_var(TyVarKind::Existential), Ok(0));
    assert_eq!(state.fresh_type_var(TyVarKind::Existential), Ok(1));
    assert_eq!(state.solve(1, &unit()), Ok(()));
    assert_eq!(state.lookup_var(0), Ok(unit()));
    assert_eq!(state.step(), Ok(false));
    let items: Vec<WorkItem> = state.pending().into_iter().cloned().collect();
    assert_eq!(
        items,
        vec![WorkItem::VarDecl(0, unit()), WorkItem::TyVarDecl(0, TyVarKind::Existential)]
    );
    assert!(matches!(state.lookup_type_var(0), Ok(TyVarState::Declared(_))));
    assert_eq!(state.step(), Ok(false));
    assert_eq!(state.lookup_type_var(0), Err(TyckError::UnboundVariable));
    assert_eq!(state.pending().len(), 1);
    assert_eq!(state.lookup_var(0), Ok(unit()));
    assert_eq!(state.step(), Ok(false));
    assert_eq!(state.lookup_var(0), Err(TyckError::UnboundVariable));
    assert!(state.no_declarations());
    assert_eq!(state.status(), Status::Running);
    assert_eq!(state.step(), Ok(true));
    assert_eq!(state.status(), Status::Succeeded);
    assert_eq!(state.step(), Ok(true));
    assert_eq!(state.solution(1), Some(unit()));
    assert_eq!(state.offending(), None);
}

#[test]
fn a_popped_declaration_leaves_the_context_whatever_is_pending() {
    let mut state = TyckMachine::new();
    state.push_judgment(done());
    assert_eq!(state.fresh_type_var(TyVarKind::Existential), Ok(0));
    assert_eq!(state.fresh_type_var(TyVarKind::Universal), Ok(1));
    assert_eq!(state.step(), Ok(false));
    assert_eq!(state.lookup_type_var(1), Err(TyckError::UnboundVariable));
    assert_eq!(state.step(), Ok(false));
    assert_eq!(state.lookup_type_var(0), Err(TyckError::UnboundVariable));
    let items: Vec<WorkItem> = state.pending().into_iter().cloned().collect();
    assert_eq!(items, vec![WorkItem::Judgment(done())]);
    assert_eq!(state.step(), Ok(false));
    assert_eq!(state.step(), Ok(true));
}

#[test]
fn lookup_names_the_position_of_the_declaration() {
    let mut state = TyckMachine::new();
    state.push_judgment(done());
    assert_eq!(state.fresh_type_var(TyVarKind::Universal), Ok(0));
    assert_eq!(state.fresh_type_var(TyVarKind::Existential), Ok(1));
    let first = match state.lookup_type_var(0) {
        Ok(TyVarState::Declared(decl)) => decl,
        other => panic!("not declared: {:?}", other),
    };
    let second = match state.lookup_type_var(1) {
        Ok(TyVarState::Declared(decl)) => decl,
        other => panic!("not declared: {:?}", other),
    };
    assert_eq!(first.kind, TyVarKind::Universal);
    assert_eq!(second.kind, TyVarKind::Existential);
    assert_ne!(first.position, second.position);
}

#[test]
fn arrow_subtype_pushes_codomains_then_domains() {
    let mut state = TyckMachine::new();
    let (a1, a2, b1, b2) = (var(1), var(2), var(3), var(4));
    state.push_judgment(subtype(arrow(a1.clone(), a2.clone()), arrow(b1.clone(), b2.clone())));
    assert_eq!(state.step(), Ok(false));
    let items: Vec<WorkItem> = state.pending().into_iter().cloned().collect();
    assert_eq!(
        items,
        vec![
            WorkItem::Judgment(subtype(a2, b2)),
            WorkItem::Judgment(subtype(b1, a1)),
        ]
    );
}

#[test]
fn arrow_subtype_succeeds_exactly_when_both_parts_succeed() {
    let cases = vec![
        (unit(), unit(), unit(), unit()),
        (unit(), arrow(unit(), unit()), unit(), unit()),
        (arrow(unit(), unit()), unit(), unit(), unit()),
        (arrow(unit(), unit()), unit(), arrow(unit(), unit()), unit()),
        (unit(), unit(), unit(), arrow(unit(), unit())),
    ];
    for (a1, a2, b1, b2) in cases {
        let (_, whole) =
            run_with(subtype(arrow(a1.clone(), a2.clone()), arrow(b1.clone(), b2.clone())));
        let mut parts = Machine::new();
        parts.enter(|state| {
            state.push_judgment(subtype(a2.clone(), b2.clone()));
            state.push_judgment(subtype(b1.clone(), a1.clone()));
        });
        assert_eq!(whole, parts.run());
        let (_, dom) = run_with(subtype(b1, a1));
        let (_, cod) = run_with(subtype(a2, b2));
        assert_eq!(whole.is_ok(), dom.is_ok() && cod.is_ok());
    }
}

#[test]
fn subtype_solves_an_existential_on_either_side() {
    let mut left = TyckMachine::new();
    left.fresh_type_var(TyVarKind::Existential).unwrap();
    left.push_judgment(subtype(var(0), arrow(unit(), unit())));
    assert_eq!(left.step(), Ok(false));
    assert_eq!(left.solution(0), Some(arrow(unit(), unit())));

    let mut right = TyckMachine::new();
    right.fresh_type_var(TyVarKind::Existential).unwrap();
    right.push_judgment(subtype(unit(), var(0)));
    assert_eq!(right.step(), Ok(false));
    assert_eq!(right.solution(0), Some(unit()));
}

#[test]
fn subtype_between_two_existentials_solves_the_inner_one() {
    let mut state = TyckMachine::new();
    state.fresh_type_var(TyVarKind::Existential).unwrap();
    state.fresh_type_var(TyVarKind::Existential).unwrap();
    state.push_judgment(subtype(var(1), var(0)));
    assert_eq!(state.step(), Ok(false));
    assert_eq!(state.solution(1), Some(var(0)));
    assert_eq!(state.solution(0), None);

    let mut other = TyckMachine::new();
    other.fresh_type_var(TyVarKind::Existential).unwrap();
    other.fresh_type_var(TyVarKind::Existential).unwrap();
    other.push_judgment(subtype(var(0), var(1)));
    assert_eq!(other.step(), Ok(false));
    assert_eq!(other.solution(1), Some(var(0)));
    assert_eq!(other.solution(0), None);
}

#[test]
fn subtype_instantiation_is_subject_to_the_occurs_check() {
    let mut state = TyckMachine::new();
    state.fresh_type_var(TyVarKind::Existential).unwrap();
    state.push_judgment(subtype(var(0), arrow(var(0), unit())));
    assert_eq!(state.step(), Err(TyckError::CircularInstantiation));
    assert_eq!(state.status(), Status::Failed(TyckError::CircularInstantiation));
    assert_eq!(state.solution(0), None);
    assert_eq!(state.pending().len(), 1);
    assert_eq!(state.offending(), Some(subtype(var(0), arrow(var(0), unit()))));
    assert_eq!(state.step(), Err(TyckError::CircularInstantiation));
}

#[test]
fn subtype_takes_an_existential_apart_against_an_arrow_with_a_quantifier() {
    let identity = quantified("a", arrow(var(0), var(0)));
    let mut state = TyckMachine::new();
    assert_eq!(state.fresh_type_var(TyVarKind::Existential), Ok(0));
    state.push_judgment(subtype(var(0), arrow(unit(), identity.clone())));
    assert_eq!(state.step(), Ok(false));
    assert_eq!(state.solution(0), Some(arrow(var(1), var(2))));
    let items: Vec<WorkItem> = state.pending().into_iter().cloned().collect();
    assert_eq!(
        items,
        vec![
            WorkItem::TyVarDecl(1, TyVarKind::Existential),
            WorkItem::TyVarDecl(2, TyVarKind::Existential),
            WorkItem::Garbage,
            WorkItem::Judgment(subtype(var(2), identity.clone())),
            WorkItem::Judgment(subtype(unit(), var(1))),
        ]
    );
    assert_eq!(state.step(), Ok(false));
    assert_eq!(state.solution(0), Some(arrow(unit(), var(2))));

    let mut other = TyckMachine::new();
    assert_eq!(other.fresh_type_var(TyVarKind::Existential), Ok(0));
    other.push_judgment(subtype(arrow(identity.clone(), unit()), var(0)));
    assert_eq!(other.step(), Ok(false));
    let items: Vec<WorkItem> = other.pending().into_iter().cloned().collect();
    assert_eq!(
        items[3..],
        [
            WorkItem::Judgment(subtype(unit(), var(2))),
            WorkItem::Judgment(subtype(var(1), identity.clone())),
        ]
    );

    let mut circular = TyckMachine::new();
    assert_eq!(circular.fresh_type_var(TyVarKind::Existential), Ok(0));
    circular.push_judgment(subtype(var(0), arrow(var(0), identity)));
    assert_eq!(circular.step(), Err(TyckError::CircularInstantiation));
}

#[test]
fn solve_takes_a_quantified_type() {
    let identity = quantified("a", arrow(var(0), var(0)));
    let mut state = TyckMachine::new();
    assert_eq!(state.fresh_type_var(TyVarKind::Existential), Ok(0));
    assert_eq!(state.solve(0, &arrow(unit(), identity.clone())), Ok(()));
    assert_eq!(state.solution(0), Some(arrow(unit(), identity)));
    let items: Vec<WorkItem> = state.pending().into_iter().cloned().collect();
    assert_eq!(items, vec![WorkItem::Garbage]);
}

#[test]
fn app_infer_binds_the_result_to_a_quantified_codomain() {
    let identity = quantified("a", arrow(var(0), var(0)));
    let mut state = TyckMachine::new();
    assert_eq!(state.fresh_type_var(TyVarKind::Existential), Ok(0));
    state.push_judgment(Rc::new(Judgment::AppInfer {
        func: arrow(unit(), identity.clone()),
        expr: e_unit(),
        replace: 0,
        nested: done(),
    }));
    assert_eq!(state.step(), Ok(false));
    let items: Vec<WorkItem> = state.pending().into_iter().cloned().collect();
    assert_eq!(
        items,
        vec![
            WorkItem::TyVarDecl(0, TyVarKind::Existential),
            WorkItem::Judgment(check(e_unit(), unit())),
            WorkItem::Judgment(done()),
            WorkItem::Judgment(subtype(identity, var(0))),
        ]
    );
    let mut machine = Machine::new();
    machine.enter(|inner| {
        inner.fresh_type_var(TyVarKind::Existential).unwrap();
        inner.push_judgment(Rc::new(Judgment::AppInfer {
            func: arrow(unit(), quantified("a", arrow(var(0), var(0)))),
            expr: e_unit(),
            replace: 0,
            nested: done(),
        }));
    });
    assert_eq!(machine.run(), Ok(()));
    assert_eq!(machine.enter(|inner| inner.solution(0)), Some(arrow(var(1), var(1))));
}

#[test]
fn subtype_of_an_undeclared_variable_is_unbound() {
    let (_, result) = run_with(subtype(var(3), unit()));
    assert_eq!(result, Err(TyckError::UnboundVariable));
    let (_, same) = run_with(subtype(var(3), var(3)));
    assert_eq!(same, Ok(()));
}

#[test]
fn universals_are_equal_to_themselves_only() {
    let mut state = TyckMachine::new();
    state.fresh_type_var(TyVarKind::Universal).unwrap();
    state.fresh_type_var(TyVarKind::Universal).unwrap();
    state.push_judgment(subtype(var(0), var(1)));
    state.push_judgment(subtype(var(1), var(1)));
    assert_eq!(state.step(), Ok(false));
    assert_eq!(state.step(), Err(TyckError::TypeMismatch));
}

#[test]
fn quantifiers_are_opened_with_fresh_variables() {
    let identity = quantified("a", arrow(var(0), var(0)));
    let (mut machine, result) = run_with(subtype(identity.clone(), arrow(unit(), unit())));
    assert_eq!(result, Ok(()));
    assert_eq!(machine.enter(|state| state.solution(0)), Some(unit()));

    let (_, reflexive) = run_with(subtype(identity.clone(), identity.clone()));
    assert_eq!(reflexive, Ok(()));

    let (_, too_general) = run_with(subtype(arrow(unit(), unit()), identity));
    assert_eq!(too_general, Err(TyckError::TypeMismatch));
}

#[test]
fn check_against_a_quantified_type() {
    let identity = quantified("a", arrow(var(0), var(0)));
    let (machine, result) = run_with(check(lam("x", e_var(0)), identity.clone()));
    assert_eq!(result, Ok(()));
    drop(machine);
    let (_, constant) = run_with(check(lam("x", e_unit()), identity));
    assert_eq!(constant, Err(TyckError::TypeMismatch));
}

#[test]
fn check_let_binds_the_variable_in_the_body() {
    let program = let_in("id", lam("x", e_var(0)), app(e_var(0), e_unit()));
    let (mut machine, result) = run_with(check(program.clone(), unit()));
    assert_eq!(result, Ok(()));
    assert!(machine.enter(|state| state.no_declarations()));
    let (_, wrong) = run_with(check(program, arrow(unit(), unit())));
    assert_eq!(wrong, Err(TyckError::TypeMismatch));
}

#[test]
fn infer_finds_principal_types() {
    let (mut identity, result) = infer_closed(lam("x", e_var(0)));
    assert_eq!(result, Ok(()));
    assert_eq!(identity.enter(|state| state.solution(0)), Some(arrow(var(1), var(1))));

    let (mut constant, result) = infer_closed(lam("x", lam("y", e_var(1))));
    assert_eq!(result, Ok(()));
    let found = constant.enter(|state| state.solution(0)).unwrap();
    match &*found {
        Ty::Arrow(a, rest) => match &**rest {
            Ty::Arrow(_, c) => assert_eq!(a, c),
            other => panic!("not an arrow: {:?}", other),
        },
        other => panic!("not an arrow: {:?}", other),
    }

    let (mut let_bound, result) = infer_closed(let_in("u", e_unit(), e_var(0)));
    assert_eq!(result, Ok(()));
    assert_eq!(let_bound.enter(|state| state.solution(0)), Some(unit()));
}

#[test]
fn infer_rejects_self_application() {
    let (_, result) = infer_closed(lam("x", app(e_var(0), e_var(0))));
    assert_eq!(result, Err(TyckError::CircularInstantiation));
}

#[test]
fn infer_rejects_the_application_of_unit() {
    let (_, result) = infer_closed(app(e_unit(), e_unit()));
    assert_eq!(result, Err(TyckError::TypeMismatch));
}

#[test]
fn infer_of_an_unbound_variable_fails() {
    let (_, result) = infer_closed(e_var(0));
    assert_eq!(result, Err(TyckError::UnboundVariable));
}

#[test]
fn infer_into_a_solved_target_is_a_double_solve() {
    let mut machine = Machine::new();
    machine.enter(|state| {
        state.fresh_type_var(TyVarKind::Existential).unwrap();
        state.solve(0, &unit()).unwrap();
        state.push_judgment(Rc::new(Judgment::Infer {
            expr: e_unit(),
            replace: 0,
            nested: done(),
        }));
    });
    assert_eq!(machine.run(), Err(TyckError::DoubleSolve));
}

#[test]
fn app_infer_instantiates_quantifiers() {
    let mut machine = Machine::new();
    machine.enter(|state| {
        state.fresh_type_var(TyVarKind::Existential).unwrap();
        state.push_judgment(Rc::new(Judgment::AppInfer {
            func: quantified("a", arrow(var(0), var(0))),
            expr: e_unit(),
            replace: 0,
            nested: done(),
        }));
    });
    assert_eq!(machine.run(), Ok(()));
    assert_eq!(machine.enter(|state| state.solution(0)), Some(unit()));
}

#[test]
fn app_infer_of_a_function_type_that_is_the_target_is_a_double_solve() {
    let mut state = TyckMachine::new();
    state.fresh_type_var(TyVarKind::Existential).unwrap();
    state.push_judgment(Rc::new(Judgment::AppInfer {
        func: var(0),
        expr: e_unit(),
        replace: 0,
        nested: done(),
    }));
    assert_eq!(state.step(), Err(TyckError::DoubleSolve));
    assert_eq!(state.solution(0), None);
}

#[test]
fn a_larger_program_comes_to_rest() {
    let compose = lam(
        "f",
        lam("g", lam("x", app(e_var(2), app(e_var(1), e_var(0))))),
    );
    let mut program = app(app(compose, lam("a", e_var(0))), lam("b", e_unit()));
    for _ in 0..6 {
        program = let_in("p", program, app(lam("q", e_var(0)), e_var(0)));
    }
    let (mut machine, result) = infer_closed(program);
    assert_eq!(result, Ok(()));
    let found = machine.enter(|state| state.solution(0)).unwrap();
    match &*found {
        Ty::Arrow(_, result) => assert_eq!(*result, unit()),
        other => panic!("not an arrow: {:?}", other),
    }
    assert_eq!(machine.enter(|state| state.status()), Status::Succeeded);
    assert!(machine.enter(|state| state.no_declarations()));
}

#[test]
fn a_subtype_judgment_between_a_type_and_itself_is_accepted() {
    let types = vec![
        unit(),
        var(7),
        arrow(unit(), var(3)),
        arrow(arrow(var(1), unit()), arrow(var(2), arrow(unit(), var(1)))),
        quantified("a", arrow(var(0), var(0))),
    ];
    for ty in types {
        let (mut machine, result) = run_with(subtype(ty.clone(), ty));
        assert_eq!(result, Ok(()));
        assert_eq!(machine.enter(|state| state.offending()), None);
    }
}

#[test]
fn every_run_ends_in_success_or_failure() {
    let exprs = vec![
        e_unit(),
        e_var(0),
        lam("x", e_var(0)),
        lam("x", e_var(1)),
        app(e_unit(), e_unit()),
        app(lam("x", e_var(0)), lam("y", e_var(0))),
        let_in("x", e_unit(), app(e_var(0), e_var(0))),
        lam("x", lam("y", app(e_var(1), e_var(0)))),
    ];
    let types = vec![
        unit(),
        arrow(unit(), unit()),
        quantified("a", arrow(var(0), var(0))),
        arrow(quantified("a", var(0)), unit()),
        var(0),
    ];
    for expr in &exprs {
        for ty in &types {
            let (mut machine, result) = run_with(check(expr.clone(), ty.clone()));
            let status = machine.enter(|state| state.status());
            match result {
                Ok(()) => assert_eq!(status, Status::Succeeded),
                Err(e) => assert_eq!(status, Status::Failed(e)),
            }
        }
    }
}
