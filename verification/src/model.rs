//! The rules of the machine, stated on its abstract state.
//!
//! The abstract state is what the rules speak of: the items of the worklist in
//! their order, the declared variables, and the solutions. Where a declaration
//! stands is read off the worklist itself. A rule takes the state with its
//! judgment already popped and gives the state that follows, or the error on
//! which checking ends.

use crate::context::{normal, predicative, solve_error, solved_with};
use crate::error::TyckError;
use crate::judgment::{Judgment, WorkItem};
use crate::term::{Expr, Ty, TyVarKind};
use std::rc::Rc;
use vstd::prelude::*;

verus! {

/// Whether the machine still has work, has accepted, or has failed.
#[derive(Clone, Copy, Debug, PartialEq, Eq, Structural)]
pub enum Status {
    Running,
    Succeeded,
    Failed(TyckError),
}

/// The abstract state of the machine.
pub struct State {
    /// The items of the worklist; the last one is the next to be processed.
    pub items: Seq<WorkItem>,
    /// The unsolved type variables with their kinds.
    pub kinds: Map<usize, TyVarKind>,
    /// The term variables with their types.
    pub vars: Map<usize, Rc<Ty>>,
    /// The solved existentials with their solutions.
    pub solutions: Map<usize, Rc<Ty>>,
    /// The identifier that the next fresh type variable gets.
    pub next_ty_var: usize,
    /// The identifier that the next fresh term variable gets.
    pub next_var: usize,
    /// Whether the machine still has work, has accepted, or has failed.
    pub status: Status,
    /// The judgment whose rule failed, once the machine has failed.
    pub offending: Option<Rc<Judgment>>,
}

impl State {
    /// The state of a machine on which nothing was done yet.
    pub open spec fn initial() -> State {
        State {
            items: Seq::empty(),
            kinds: Map::empty(),
            vars: Map::empty(),
            solutions: Map::empty(),
            next_ty_var: 0,
            next_var: 0,
            status: Status::Running,
            offending: None,
        }
    }

    /// The declared type variables are finitely many, the maps are normal, no
    /// solution holds a quantifier, and the identifiers that are yet to be
    /// handed out occur nowhere.
    pub open spec fn inv(self) -> bool {
        &&& self.kinds.dom().finite()
        &&& normal(self.kinds.dom(), self.solutions)
        &&& predicative(self.solutions)
        &&& forall|k: usize|
            #![trigger self.kinds.contains_key(k)]
            #![trigger self.solutions.contains_key(k)]
            self.kinds.contains_key(k) || self.solutions.contains_key(k) ==> k
                < self.next_ty_var
    }

    /// The state with the machine failed on `e` in the rule of `judgment`.
    pub open spec fn failed(self, e: TyckError, judgment: Rc<Judgment>) -> State {
        State { status: Status::Failed(e), offending: Some(judgment), ..self }
    }

    /// The state with `item` at the back of the worklist.
    pub open spec fn push(self, item: WorkItem) -> State {
        State { items: self.items.push(item), ..self }
    }

    /// The state with the judgment `j` at the back of the worklist.
    pub open spec fn push_judgment(self, j: Judgment) -> State {
        self.push(WorkItem::Judgment(Rc::new(j)))
    }

    /// The state with the fresh type variable `id` declared at the back.
    pub open spec fn declare(self, id: usize, kind: TyVarKind) -> State {
        State {
            items: self.items.push(WorkItem::TyVarDecl(id, kind)),
            kinds: self.kinds.insert(id, kind),
            next_ty_var: (id + 1) as usize,
            ..self
        }
    }

    /// The state with the fresh existential `id` declared in front of the item
    /// at index `at`.
    pub open spec fn declare_before(self, at: int, id: usize) -> State {
        State {
            items: self.items.insert(at, WorkItem::TyVarDecl(id, TyVarKind::Existential)),
            kinds: self.kinds.insert(id, TyVarKind::Existential),
            next_ty_var: (id + 1) as usize,
            ..self
        }
    }

    /// The state with the fresh term variable `id` declared at the back.
    pub open spec fn declare_var(self, id: usize, ty: Rc<Ty>) -> State {
        State {
            items: self.items.push(WorkItem::VarDecl(id, ty)),
            vars: self.vars.insert(id, ty),
            next_var: (id + 1) as usize,
            ..self
        }
    }

    /// The type with a solved variable at its head replaced by the solution.
    pub open spec fn head(self, ty: &Ty) -> Ty {
        match *ty {
            Ty::Var(k) => if self.solutions.contains_key(k) {
                *self.solutions[k]
            } else {
                *ty
            },
            _ => *ty,
        }
    }

    /// Whether the type is a variable that is neither declared nor solved.
    pub open spec fn is_unbound(self, ty: &Ty) -> bool {
        match *ty {
            Ty::Var(k) => !self.kinds.contains_key(k) && !self.solutions.contains_key(k),
            _ => false,
        }
    }

    /// Whether the type is an unsolved existential.
    pub open spec fn is_unsolved(self, ty: &Ty) -> bool {
        match *ty {
            Ty::Var(k) => self.kinds.contains_key(k) && self.kinds[k] == TyVarKind::Existential,
            _ => false,
        }
    }

    /// Whether the declaration of the existential `id` stands in the worklist.
    pub open spec fn has_decl(self, id: usize) -> bool {
        self.items.contains(WorkItem::TyVarDecl(id, TyVarKind::Existential))
    }

    /// Where the declaration of the existential `id` stands in the worklist.
    pub open spec fn decl_index(self, id: usize) -> int {
        self.items.index_of(WorkItem::TyVarDecl(id, TyVarKind::Existential))
    }

    /// Solving the existential `id` to `ty`: its declaration becomes garbage in
    /// place, and the resolved type becomes its solution.
    pub open spec fn solve(self, id: usize, ty: &Ty) -> Result<State, TyckError> {
        match solve_error(self.kinds, self.solutions, id, ty) {
            Some(e) => Err(e),
            None => if !self.has_decl(id) {
                Err(TyckError::InvariantViolation)
            } else {
                Ok(
                    State {
                        items: self.items.update(self.decl_index(id), WorkItem::Garbage),
                        kinds: self.kinds.remove(id),
                        solutions: solved_with(
                            self.solutions,
                            id,
                            &ty.resolve_spec(self.solutions),
                        ),
                        ..self
                    },
                )
            },
        }
    }

    /// Solving the existential `id` to the arrow between two fresh existentials,
    /// which are declared immediately in front of it.
    pub open spec fn split(self, id: usize) -> Result<State, TyckError> {
        if !self.kinds.contains_key(id) {
            Err(TyckError::DoubleSolve)
        } else if self.kinds[id] == TyVarKind::Universal || !self.has_decl(id)
            || self.next_ty_var >= usize::MAX - 1 {
            Err(TyckError::InvariantViolation)
        } else {
            let dom = self.next_ty_var;
            let cod = (self.next_ty_var + 1) as usize;
            let at = self.decl_index(id);
            self.declare_before(at, dom).declare_before(at + 1, cod).solve(
                id,
                &Ty::Arrow(Rc::new(Ty::Var(dom)), Rc::new(Ty::Var(cod))),
            )
        }
    }

    /// Instantiating the existential `id` with `ty`, which stands on the right of
    /// it in the judgment where `on_left`, else on the left. A type without
    /// quantifiers is the solution. An arrow that holds a quantifier is taken
    /// apart: the existential is split into an arrow between two fresh
    /// existentials, and the parts are compared, so that the quantifiers are
    /// met by the rules for quantifiers.
    pub open spec fn instantiate(self, id: usize, ty: &Ty, on_left: bool) -> Result<
        State,
        TyckError,
    > {
        match *ty {
            Ty::Arrow(t1, t2) => if ty.is_mono_spec() {
                self.solve(id, ty)
            } else if ty.mentions_spec(id) {
                Err(TyckError::CircularInstantiation)
            } else {
                match self.split(id) {
                    Err(e) => Err(e),
                    Ok(s) => {
                        let dom = Rc::new(Ty::Var(self.next_ty_var));
                        let cod = Rc::new(Ty::Var((self.next_ty_var + 1) as usize));
                        if on_left {
                            Ok(
                                s.push_judgment(Judgment::Subtype { lhs: cod, rhs: t2 })
                                    .push_judgment(Judgment::Subtype { lhs: t1, rhs: dom }),
                            )
                        } else {
                            Ok(
                                s.push_judgment(Judgment::Subtype { lhs: t2, rhs: cod })
                                    .push_judgment(Judgment::Subtype { lhs: dom, rhs: t1 }),
                            )
                        }
                    },
                }
            },
            _ => self.solve(id, ty),
        }
    }

    /// Binding the existential `id` to `ty` as the result of an inference. A type
    /// without quantifiers is the solution. For a type that holds a quantifier
    /// the judgment that the type is a subtype of the existential is pushed,
    /// so that the existential is solved to an instance of it.
    pub open spec fn bind(self, id: usize, ty: Rc<Ty>, nested: Rc<Judgment>) -> Result<
        State,
        TyckError,
    > {
        if ty.is_mono_spec() {
            match self.solve(id, &*ty) {
                Err(e) => Err(e),
                Ok(s) => Ok(s.push(WorkItem::Judgment(nested))),
            }
        } else {
            match solve_error(self.kinds, self.solutions, id, &*ty) {
                Some(e) => Err(e),
                None => Ok(
                    self.push(WorkItem::Judgment(nested)).push_judgment(
                        Judgment::Subtype { lhs: ty, rhs: Rc::new(Ty::Var(id)) },
                    ),
                ),
            }
        }
    }

    /// The subtype rule.
    pub open spec fn subtype(self, lhs: &Ty, rhs: &Ty) -> Result<State, TyckError> {
        let a = self.head(lhs);
        let b = self.head(rhs);
        if Ty::trivially_equal_spec(lhs, rhs) || Ty::trivially_equal_spec(&a, &b) {
            Ok(self)
        } else if self.is_unbound(&a) || self.is_unbound(&b) {
            Err(TyckError::UnboundVariable)
        } else {
            match (a, b) {
                (Ty::Arrow(a1, a2), Ty::Arrow(b1, b2)) => Ok(
                    self.push_judgment(Judgment::Subtype { lhs: a2, rhs: b2 }).push_judgment(
                        Judgment::Subtype { lhs: b1, rhs: a1 },
                    ),
                ),
                (_, Ty::Forall(_, body)) => if self.next_ty_var == usize::MAX {
                    Err(TyckError::InvariantViolation)
                } else {
                    match body.open_spec(self.next_ty_var) {
                        None => Err(TyckError::InvariantViolation),
                        Some(t) => Ok(
                            self.declare(self.next_ty_var, TyVarKind::Universal).push_judgment(
                                Judgment::Subtype { lhs: Rc::new(a), rhs: Rc::new(t) },
                            ),
                        ),
                    }
                },
                (Ty::Forall(_, body), _) => if self.next_ty_var == usize::MAX {
                    Err(TyckError::InvariantViolation)
                } else {
                    match body.open_spec(self.next_ty_var) {
                        None => Err(TyckError::InvariantViolation),
                        Some(t) => Ok(
                            self.declare(self.next_ty_var, TyVarKind::Existential).push_judgment(
                                Judgment::Subtype { lhs: Rc::new(t), rhs: Rc::new(b) },
                            ),
                        ),
                    }
                },
                (Ty::Var(i), Ty::Var(j)) => if self.is_unsolved(&a) && self.is_unsolved(&b) {
                    if !self.has_decl(i) || !self.has_decl(j) {
                        Err(TyckError::InvariantViolation)
                    } else if self.decl_index(i) < self.decl_index(j) {
                        self.solve(j, &a)
                    } else {
                        self.solve(i, &b)
                    }
                } else if self.is_unsolved(&a) {
                    self.solve(i, &b)
                } else if self.is_unsolved(&b) {
                    self.solve(j, &a)
                } else {
                    Err(TyckError::TypeMismatch)
                },
                (Ty::Var(i), _) => if self.is_unsolved(&a) {
                    self.instantiate(i, &b, true)
                } else {
                    Err(TyckError::TypeMismatch)
                },
                (_, Ty::Var(j)) => if self.is_unsolved(&b) {
                    self.instantiate(j, &a, false)
                } else {
                    Err(TyckError::TypeMismatch)
                },
                _ => Err(TyckError::TypeMismatch),
            }
        }
    }

    /// The checking rule.
    pub open spec fn check(self, expr: &Expr, ty: &Ty) -> Result<State, TyckError> {
        let t = self.head(ty);
        match (*expr, t) {
            (Expr::Let(_, bound, body), _) => if self.next_ty_var == usize::MAX || self.next_var
                == usize::MAX {
                Err(TyckError::InvariantViolation)
            } else {
                match body.open_spec(self.next_var) {
                    None => Err(TyckError::InvariantViolation),
                    Some(opened) => Ok(
                        self.declare(self.next_ty_var, TyVarKind::Existential).declare_var(
                            self.next_var,
                            Rc::new(Ty::Var(self.next_ty_var)),
                        ).push_judgment(
                            Judgment::Infer {
                                expr: bound,
                                replace: self.next_ty_var,
                                nested: Rc::new(
                                    Judgment::Check { expr: Rc::new(opened), ty: Rc::new(*ty) },
                                ),
                            },
                        ),
                    ),
                }
            },
            (Expr::Lam(_, body), Ty::Arrow(dom, cod)) => if self.next_var == usize::MAX {
                Err(TyckError::InvariantViolation)
            } else {
                match body.open_spec(self.next_var) {
                    None => Err(TyckError::InvariantViolation),
                    Some(opened) => Ok(
                        self.declare_var(self.next_var, dom).push_judgment(
                            Judgment::Check { expr: Rc::new(opened), ty: cod },
                        ),
                    ),
                }
            },
            (_, Ty::Forall(_, body)) => if self.next_ty_var == usize::MAX {
                Err(TyckError::InvariantViolation)
            } else {
                match body.open_spec(self.next_ty_var) {
                    None => Err(TyckError::InvariantViolation),
                    Some(opened) => Ok(
                        self.declare(self.next_ty_var, TyVarKind::Universal).push_judgment(
                            Judgment::Check { expr: Rc::new(*expr), ty: Rc::new(opened) },
                        ),
                    ),
                }
            },
            _ => if self.next_ty_var == usize::MAX {
                Err(TyckError::InvariantViolation)
            } else {
                Ok(
                    self.declare(self.next_ty_var, TyVarKind::Existential).push_judgment(
                        Judgment::Infer {
                            expr: Rc::new(*expr),
                            replace: self.next_ty_var,
                            nested: Rc::new(
                                Judgment::Subtype {
                                    lhs: Rc::new(Ty::Var(self.next_ty_var)),
                                    rhs: Rc::new(*ty),
                                },
                            ),
                        },
                    ),
                )
            },
        }
    }

    /// The inference rule.
    pub open spec fn infer(self, expr: &Expr, replace: usize, nested: Rc<Judgment>) -> Result<
        State,
        TyckError,
    > {
        match *expr {
            Expr::Var(v) => if !self.vars.contains_key(v) {
                Err(TyckError::UnboundVariable)
            } else {
                self.bind(replace, self.vars[v], nested)
            },
            Expr::Unit => self.bind(replace, Rc::new(Ty::Unit), nested),
            Expr::Lam(_, body) => if self.next_var == usize::MAX {
                Err(TyckError::InvariantViolation)
            } else {
                match body.open_spec(self.next_var) {
                    None => Err(TyckError::InvariantViolation),
                    Some(opened) => match self.split(replace) {
                        Err(e) => Err(e),
                        Ok(s) => Ok(
                            s.push(WorkItem::Judgment(nested)).declare_var(
                                self.next_var,
                                Rc::new(Ty::Var(self.next_ty_var)),
                            ).push_judgment(
                                Judgment::Check {
                                    expr: Rc::new(opened),
                                    ty: Rc::new(Ty::Var((self.next_ty_var + 1) as usize)),
                                },
                            ),
                        ),
                    },
                }
            },
            Expr::App(f, a) => if self.next_ty_var == usize::MAX {
                Err(TyckError::InvariantViolation)
            } else {
                Ok(
                    self.declare(self.next_ty_var, TyVarKind::Existential).push_judgment(
                        Judgment::Infer {
                            expr: f,
                            replace: self.next_ty_var,
                            nested: Rc::new(
                                Judgment::AppInfer {
                                    func: Rc::new(Ty::Var(self.next_ty_var)),
                                    expr: a,
                                    replace,
                                    nested,
                                },
                            ),
                        },
                    ),
                )
            },
            Expr::Let(_, bound, body) => if self.next_ty_var == usize::MAX || self.next_var
                == usize::MAX {
                Err(TyckError::InvariantViolation)
            } else {
                match body.open_spec(self.next_var) {
                    None => Err(TyckError::InvariantViolation),
                    Some(opened) => Ok(
                        self.declare(self.next_ty_var, TyVarKind::Existential).declare_var(
                            self.next_var,
                            Rc::new(Ty::Var(self.next_ty_var)),
                        ).push_judgment(
                            Judgment::Infer {
                                expr: bound,
                                replace: self.next_ty_var,
                                nested: Rc::new(
                                    Judgment::Infer { expr: Rc::new(opened), replace, nested },
                                ),
                            },
                        ),
                    ),
                }
            },
        }
    }

    /// The rule for an application, once the function has the arrow type from
    /// `dom` to `cod`: the result is bound to `cod`, then the check of the
    /// argument and the continuation are pushed. Where `cod` holds a quantifier,
    /// the judgment that `cod` is a subtype of the result is pushed on top, so
    /// that the result is solved to an instance of it.
    pub open spec fn apply(
        self,
        dom: Rc<Ty>,
        cod: Rc<Ty>,
        expr: Rc<Expr>,
        replace: usize,
        nested: Rc<Judgment>,
    ) -> Result<State, TyckError> {
        if cod.is_mono_spec() {
            match self.solve(replace, &*cod) {
                Err(e) => Err(e),
                Ok(s) => Ok(
                    s.push_judgment(Judgment::Check { expr, ty: dom }).push(
                        WorkItem::Judgment(nested),
                    ),
                ),
            }
        } else {
            match solve_error(self.kinds, self.solutions, replace, &*cod) {
                Some(e) => Err(e),
                None => Ok(
                    self.push_judgment(Judgment::Check { expr, ty: dom }).push(
                        WorkItem::Judgment(nested),
                    ).push_judgment(Judgment::Subtype { lhs: cod, rhs: Rc::new(Ty::Var(replace)) }),
                ),
            }
        }
    }

    /// The rule for the type of an application. A function type that is an
    /// unsolved existential is split into an arrow first; the existential that
    /// is to take the result must then be another one, and unsolved.
    pub open spec fn app_infer(
        self,
        func: &Ty,
        expr: Rc<Expr>,
        replace: usize,
        nested: Rc<Judgment>,
    ) -> Result<State, TyckError> {
        let f = self.head(func);
        match f {
            Ty::Arrow(dom, cod) => self.apply(dom, cod, expr, replace, nested),
            Ty::Forall(_, body) => if self.next_ty_var == usize::MAX {
                Err(TyckError::InvariantViolation)
            } else {
                match body.open_spec(self.next_ty_var) {
                    None => Err(TyckError::InvariantViolation),
                    Some(opened) => Ok(
                        self.declare(self.next_ty_var, TyVarKind::Existential).push_judgment(
                            Judgment::AppInfer { func: Rc::new(opened), expr, replace, nested },
                        ),
                    ),
                }
            },
            Ty::Var(k) => if self.is_unbound(&f) {
                Err(TyckError::UnboundVariable)
            } else if !self.is_unsolved(&f) {
                Err(TyckError::TypeMismatch)
            } else if replace == k || !self.kinds.contains_key(replace) {
                Err(TyckError::DoubleSolve)
            } else if self.kinds[replace] == TyVarKind::Universal {
                Err(TyckError::InvariantViolation)
            } else {
                match self.split(k) {
                    Err(e) => Err(e),
                    Ok(s) => s.apply(
                        Rc::new(Ty::Var(self.next_ty_var)),
                        Rc::new(Ty::Var((self.next_ty_var + 1) as usize)),
                        expr,
                        replace,
                        nested,
                    ),
                }
            },
            Ty::Unit => Err(TyckError::TypeMismatch),
        }
    }

    /// The rule of a judgment.
    pub open spec fn process(self, judgment: &Judgment) -> Result<State, TyckError> {
        match *judgment {
            Judgment::Subtype { lhs, rhs } => self.subtype(&*lhs, &*rhs),
            Judgment::Check { expr, ty } => self.check(&*expr, &*ty),
            Judgment::Infer { expr, replace, nested } => self.infer(&*expr, replace, nested),
            Judgment::AppInfer { func, expr, replace, nested } => self.app_infer(
                &*func,
                expr,
                replace,
                nested,
            ),
        }
    }

    /// One step of the machine. A machine that is not running stays as it is.
    /// An empty worklist is success. Else the last item is taken off the
    /// worklist. A declaration closes its scope: the variable leaves the
    /// context. Garbage is dropped. A judgment is replaced by what its rule asks
    /// for; where the rule fails, the machine fails and keeps the judgment as
    /// the offending one.
    pub open spec fn step(self) -> State {
        if self.status != Status::Running {
            self
        } else if self.items.len() == 0 {
            State { status: Status::Succeeded, ..self }
        } else {
            let rest = State { items: self.items.drop_last(), ..self };
            match self.items.last() {
                WorkItem::TyVarDecl(id, _) => State { kinds: self.kinds.remove(id), ..rest },
                WorkItem::VarDecl(id, _) => State { vars: self.vars.remove(id), ..rest },
                WorkItem::Garbage => rest,
                WorkItem::Judgment(j) => match rest.process(&*j) {
                    Ok(next) => next,
                    Err(e) => rest.failed(e, j),
                },
            }
        }
    }
}

} // verus!
