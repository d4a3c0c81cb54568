use std::rc::Rc;
use worklist_tyck::error::TyckError;
use worklist_tyck::order_index::Direction;
use worklist_tyck::term::{Expr, Ty};

fn unit() -> Rc<Ty> {
    Rc::new(Ty::Unit)
}

fn var(i: usize) -> Rc<Ty> {
    Rc::new(Ty::Var(i))
}

fn arrow(a: Rc<Ty>, b: Rc<Ty>) -> Rc<Ty> {
    Rc::new(Ty::Arrow(a, b))
}

fn quantified(name: &str, body: Rc<Ty>) -> Rc<Ty> {
    Rc::new(Ty::Forall(name.to_string(), body))
}

#[test]
fn trivially_equal_holds_of_unit_and_of_equal_variables() {
    assert!(Ty::trivially_equal(&Ty::Unit, &Ty::Unit));
    assert!(Ty::trivially_equal(&Ty::Var(3), &Ty::Var(3)));
    assert!(!Ty::trivially_equal(&Ty::Var(3), &Ty::Var(4)));
    assert!(!Ty::trivially_equal(&Ty::Unit, &Ty::Var(0)));
    assert!(!Ty::trivially_equal(&Ty::Var(0), &Ty::Unit));
}

#[test]
fn trivially_equal_never_holds_of_arrows_and_quantifiers() {
    let a = arrow(unit(), unit());
    assert!(!Ty::trivially_equal(&a, &a));
    let q = quantified("a", var(0));
    assert!(!Ty::trivially_equal(&q, &q));
    assert!(!Ty::trivially_equal(&a, &Ty::Unit));
}

#[test]
fn trivially_equal_shared_agrees_with_trivially_equal() {
    let u = unit();
    assert!(Ty::trivially_equal_shared(&u, &u));
    assert!(Ty::trivially_equal_shared(&u, &unit()));
    let v = var(2);
    assert!(Ty::trivially_equal_shared(&v, &Rc::clone(&v)));
    assert!(Ty::trivially_equal_shared(&v, &var(2)));
    assert!(!Ty::trivially_equal_shared(&v, &var(5)));
    let a = arrow(unit(), unit());
    assert!(!Ty::trivially_equal_shared(&a, &Rc::clone(&a)));
    assert!(!Ty::trivially_equal_shared(&a, &arrow(unit(), unit())));
}

#[test]
fn is_mono_sees_quantifiers_at_any_depth() {
    assert!(unit().is_mono());
    assert!(arrow(var(0), arrow(unit(), var(1))).is_mono());
    assert!(!quantified("a", var(0)).is_mono());
    assert!(!arrow(unit(), quantified("a", var(0))).is_mono());
}

#[test]
fn mentions_counts_binders() {
    assert!(var(4).mentions(4));
    assert!(!var(4).mentions(3));
    assert!(arrow(unit(), arrow(var(7), unit())).mentions(7));
    assert!(!unit().mentions(0));
    let q = quantified("a", arrow(var(0), var(3)));
    assert!(q.mentions(2));
    assert!(!q.mentions(3));
    assert!(!q.mentions(0));
    assert!(!quantified("a", var(0)).mentions(usize::MAX));
}

#[test]
fn surface_sees_what_stands_outside_of_quantifiers() {
    assert!(var(4).surface(4));
    assert!(arrow(unit(), arrow(var(7), unit())).surface(7));
    assert!(!arrow(unit(), var(7)).surface(6));
    let q = quantified("a", arrow(var(0), var(3)));
    assert!(q.mentions(2));
    assert!(!q.surface(2));
    assert!(!q.surface(3));
    assert!(arrow(var(2), q).surface(2));
}

#[test]
fn open_puts_the_fresh_variable_in_the_place_of_the_bound_one() {
    let body = arrow(var(0), var(3));
    assert_eq!(Ty::open(&body, 9), Some(arrow(var(9), var(2))));
    let nested = quantified("b", arrow(var(0), arrow(var(1), var(2))));
    assert_eq!(
        Ty::open(&nested, 5),
        Some(quantified("b", arrow(var(0), arrow(var(6), var(1)))))
    );
    assert_eq!(Ty::open(&unit(), 1), Some(unit()));
}

#[test]
fn open_fails_where_an_identifier_would_leave_the_range() {
    let nested = quantified("b", var(1));
    assert_eq!(Ty::open(&nested, usize::MAX), None);
    assert_eq!(Ty::open(&var(0), usize::MAX), Some(var(usize::MAX)));
}

#[test]
fn open_shares_what_it_does_not_change() {
    let body = unit();
    let opened = Ty::open(&body, 3).unwrap();
    assert!(Rc::ptr_eq(&body, &opened));
    assert_eq!(Rc::strong_count(&body), 2);
}

#[test]
fn subst_replaces_a_variable_outside_of_quantifiers() {
    let t = arrow(var(1), arrow(var(2), var(1)));
    let with = arrow(unit(), unit());
    assert_eq!(
        Ty::subst(&t, 1, &with),
        arrow(with.clone(), arrow(var(2), with.clone()))
    );
    let q = quantified("a", var(1));
    assert_eq!(Ty::subst(&q, 1, &with), q);
    let replaced = Ty::subst(&var(1), 1, &with);
    assert!(Rc::ptr_eq(&replaced, &with));
}

#[test]
fn expr_open_binds_the_variable_of_a_let_in_its_body_only() {
    let e = Rc::new(Expr::Let(
        "y".to_string(),
        Rc::new(Expr::Var(0)),
        Rc::new(Expr::App(Rc::new(Expr::Var(0)), Rc::new(Expr::Var(1)))),
    ));
    let opened = Expr::open(&e, 4).unwrap();
    assert_eq!(
        *opened,
        Expr::Let(
            "y".to_string(),
            Rc::new(Expr::Var(4)),
            Rc::new(Expr::App(Rc::new(Expr::Var(0)), Rc::new(Expr::Var(5)))),
        )
    );
    let lam = Rc::new(Expr::Lam("x".to_string(), Rc::new(Expr::Var(2))));
    assert_eq!(
        Expr::open(&lam, 0),
        Some(Rc::new(Expr::Lam("x".to_string(), Rc::new(Expr::Var(1)))))
    );
    assert_eq!(Expr::open(&lam, usize::MAX), None);
    assert_eq!(Expr::open(&Rc::new(Expr::Unit), 0), Some(Rc::new(Expr::Unit)));
}

#[test]
fn errors_have_names() {
    assert_eq!(TyckError::TypeMismatch.describe(), "type mismatch");
    assert_eq!(TyckError::CircularInstantiation.describe(), "circular instantiation");
    assert_eq!(TyckError::UnboundVariable.describe(), "unbound variable");
    assert_eq!(TyckError::DoubleSolve.describe(), "double solve");
    assert_eq!(TyckError::InvariantViolation.describe(), "invariant violation");
    assert_ne!(Direction::Left, Direction::Right);
}
