//! Why checking ends: a measure of the abstract state that every step lowers.
//!
//! The measure has five parts, compared in this order. The *potential* is the
//! weight of the expressions that the pending judgments hold: every rule that
//! takes an expression apart lowers it. The number of *quantifiers* in the
//! pending types: opening a quantifier lowers it. The *layers* of the pending
//! subtype judgments, which is how much of their types stands above a
//! quantifier: taking an existential apart against an arrow that holds a
//! quantifier lowers it. The number of *unsolved* type variables: solving
//! lowers it. The *size* of the worklist, which is its length and the resolved
//! sizes of the types in its subtype judgments: taking an arrow apart, trivial
//! equality and the dropping of an item lower it. No rule raises a part
//! without lowering an earlier one.

use crate::context::{lemma_solved_with_normal, lemma_solved_with_predicative};
use crate::judgment::{Judgment, WorkItem};
use crate::model::{State, Status};
use crate::term::{Expr, Ty, TyVarKind};
use std::rc::Rc;
use vstd::prelude::*;

verus! {

/// The sum of the weights that `f` gives to the items.
pub open spec fn weigh(items: Seq<WorkItem>, f: spec_fn(WorkItem) -> nat) -> nat
    decreases items.len(),
{
    if items.len() == 0 {
        0
    } else {
        weigh(items.drop_last(), f) + f(items.last())
    }
}

/// An item at the back adds its weight to the sum.
pub proof fn lemma_weigh_push(items: Seq<WorkItem>, f: spec_fn(WorkItem) -> nat, x: WorkItem)
    ensures
        weigh(items.push(x), f) == weigh(items, f) + f(x),
{
    assert(items.push(x).drop_last() =~= items);
}

/// An item adds its weight to the sum wherever it is put.
pub proof fn lemma_weigh_insert(
    items: Seq<WorkItem>,
    f: spec_fn(WorkItem) -> nat,
    i: int,
    x: WorkItem,
)
    requires
        0 <= i <= items.len(),
    ensures
        weigh(items.insert(i, x), f) == weigh(items, f) + f(x),
    decreases items.len(),
{
    if i == items.len() {
        assert(items.insert(i, x) =~= items.push(x));
        lemma_weigh_push(items, f, x);
    } else {
        assert(items.insert(i, x).drop_last() =~= items.drop_last().insert(i, x));
        assert(items.insert(i, x).last() == items.last());
        lemma_weigh_insert(items.drop_last(), f, i, x);
    }
}

/// An item that takes the place of another changes the sum by the difference
/// of their weights.
pub proof fn lemma_weigh_update(
    items: Seq<WorkItem>,
    f: spec_fn(WorkItem) -> nat,
    i: int,
    x: WorkItem,
)
    requires
        0 <= i < items.len(),
    ensures
        weigh(items.update(i, x), f) + f(items[i]) == weigh(items, f) + f(x),
    decreases items.len(),
{
    if i == items.len() - 1 {
        assert(items.update(i, x).drop_last() =~= items.drop_last());
    } else {
        assert(items.update(i, x).drop_last() =~= items.drop_last().update(i, x));
        lemma_weigh_update(items.drop_last(), f, i, x);
    }
}

impl Ty {
    /// The size of the type once a solved variable at its head is replaced by
    /// its solution.
    pub open spec fn resolved_size(&self, solutions: Map<usize, Rc<Ty>>) -> nat
        decreases self,
    {
        match *self {
            Ty::Unit => 1,
            Ty::Var(k) => if solutions.contains_key(k) {
                solutions[k].size()
            } else {
                1
            },
            Ty::Forall(_, body) => 1 + body.size(),
            Ty::Arrow(a, b) => 1 + a.resolved_size(solutions) + b.resolved_size(solutions),
        }
    }

    /// A type without a solved variable on its surface has its own size.
    pub proof fn lemma_resolved_size_fixed(&self, solutions: Map<usize, Rc<Ty>>)
        requires
            forall|k: usize| #[trigger] solutions.contains_key(k) ==> !self.surface_spec(k),
        ensures
            self.resolved_size(solutions) == self.size(),
        decreases self,
    {
        match self {
            Ty::Arrow(a, b) => {
                a.lemma_resolved_size_fixed(solutions);
                b.lemma_resolved_size_fixed(solutions);
            },
            _ => {},
        }
    }
}

/// The weight of an item in the potential.
pub open spec fn by_potential() -> spec_fn(WorkItem) -> nat {
    |item: WorkItem| item.potential()
}

/// The weight of an item in the count of quantifiers.
pub open spec fn by_quantifiers() -> spec_fn(WorkItem) -> nat {
    |item: WorkItem| item.quantifiers()
}

/// The weight of an item in the layers.
pub open spec fn by_layers() -> spec_fn(WorkItem) -> nat {
    |item: WorkItem| item.layers()
}

/// The weight of an item in the size.
pub open spec fn by_size(solutions: Map<usize, Rc<Ty>>) -> spec_fn(WorkItem) -> nat {
    |item: WorkItem|
        match item {
            WorkItem::Judgment(j) => match *j {
                Judgment::Subtype { lhs, rhs } => 1 + lhs.resolved_size(solutions)
                    + rhs.resolved_size(solutions),
                _ => 1,
            },
            _ => 1,
        }
}

/// Whether the first quadruple comes before the second in the order of the
/// last four parts of the measure.
pub open spec fn lex_less(
    a1: nat,
    a2: nat,
    a3: nat,
    a4: nat,
    b1: nat,
    b2: nat,
    b3: nat,
    b4: nat,
) -> bool {
    a1 < b1 || (a1 == b1 && (a2 < b2 || (a2 == b2 && (a3 < b3 || (a3 == b3 && a4 < b4)))))
}

impl State {
    /// The weight of the expressions that the pending judgments hold.
    pub open spec fn potential(self) -> nat {
        weigh(self.items, by_potential())
    }

    /// The number of quantifiers in the pending types.
    pub open spec fn quantifiers(self) -> nat {
        weigh(self.items, by_quantifiers())
    }

    /// How much of the types of the pending subtype judgments stands above a
    /// quantifier.
    pub open spec fn layers(self) -> nat {
        weigh(self.items, by_layers())
    }

    /// The number of declared type variables.
    pub open spec fn unsolved(self) -> nat {
        self.kinds.dom().len()
    }

    /// The length of the worklist and the resolved sizes of the types in its
    /// subtype judgments.
    pub open spec fn size(self) -> nat {
        weigh(self.items, by_size(self.solutions))
    }

    /// Whether the measure of `self` is lower than the measure of `before`.
    pub open spec fn lower_than(self, before: State) -> bool {
        self.potential() < before.potential() || (self.potential() == before.potential()
            && lex_less(
            self.quantifiers(),
            self.layers(),
            self.unsolved(),
            self.size(),
            before.quantifiers(),
            before.layers(),
            before.unsolved(),
            before.size(),
        ))
    }

    /// A pushed item adds its weights and changes nothing else.
    pub proof fn lemma_push(self, item: WorkItem)
        requires
            self.inv(),
        ensures
            self.push(item).inv(),
            self.push(item).potential() == self.potential() + item.potential(),
            self.push(item).quantifiers() == self.quantifiers() + item.quantifiers(),
            self.push(item).layers() == self.layers() + item.layers(),
            self.push(item).unsolved() == self.unsolved(),
            self.push(item).size() == self.size() + by_size(self.solutions)(item),
            self.push(item).status == self.status,
    {
        lemma_weigh_push(self.items, by_potential(), item);
        lemma_weigh_push(self.items, by_quantifiers(), item);
        lemma_weigh_push(self.items, by_layers(), item);
        lemma_weigh_push(self.items, by_size(self.solutions), item);
    }

    /// Declaring a fresh type variable at the back keeps the invariant and the
    /// weights of the judgments and adds one to the number of declared variables.
    pub proof fn lemma_declare(self, kind: TyVarKind)
        requires
            self.inv(),
            self.next_ty_var < usize::MAX,
        ensures
            self.declare(self.next_ty_var, kind).inv(),
            self.declare(self.next_ty_var, kind).potential() == self.potential(),
            self.declare(self.next_ty_var, kind).quantifiers() == self.quantifiers(),
            self.declare(self.next_ty_var, kind).layers() == self.layers(),
            self.declare(self.next_ty_var, kind).unsolved() == self.unsolved() + 1,
            self.declare(self.next_ty_var, kind).status == self.status,
    {
        let item = WorkItem::TyVarDecl(self.next_ty_var, kind);
        lemma_weigh_push(self.items, by_potential(), item);
        lemma_weigh_push(self.items, by_quantifiers(), item);
        lemma_weigh_push(self.items, by_layers(), item);
        assert(!self.kinds.contains_key(self.next_ty_var));
        assert(!self.solutions.contains_key(self.next_ty_var));
    }

    /// Declaring a fresh existential anywhere in the worklist keeps the
    /// invariant and the weights of the judgments and adds one to the number of
    /// declared variables.
    pub proof fn lemma_declare_before(self, at: int)
        requires
            self.inv(),
            self.next_ty_var < usize::MAX,
            0 <= at <= self.items.len(),
        ensures
            self.declare_before(at, self.next_ty_var).inv(),
            self.declare_before(at, self.next_ty_var).potential() == self.potential(),
            self.declare_before(at, self.next_ty_var).quantifiers() == self.quantifiers(),
            self.declare_before(at, self.next_ty_var).layers() == self.layers(),
            self.declare_before(at, self.next_ty_var).unsolved() == self.unsolved() + 1,
            self.declare_before(at, self.next_ty_var).status == self.status,
    {
        let item = WorkItem::TyVarDecl(self.next_ty_var, TyVarKind::Existential);
        lemma_weigh_insert(self.items, by_potential(), at, item);
        lemma_weigh_insert(self.items, by_quantifiers(), at, item);
        lemma_weigh_insert(self.items, by_layers(), at, item);
        assert(!self.kinds.contains_key(self.next_ty_var));
        assert(!self.solutions.contains_key(self.next_ty_var));
    }

    /// Declaring a term variable keeps the invariant, the weights of the
    /// judgments and the number of declared type variables.
    pub proof fn lemma_declare_var(self, id: usize, ty: Rc<Ty>)
        requires
            self.inv(),
        ensures
            self.declare_var(id, ty).inv(),
            self.declare_var(id, ty).potential() == self.potential(),
            self.declare_var(id, ty).quantifiers() == self.quantifiers(),
            self.declare_var(id, ty).layers() == self.layers(),
            self.declare_var(id, ty).unsolved() == self.unsolved(),
            self.declare_var(id, ty).status == self.status,
    {
        lemma_weigh_push(self.items, by_potential(), WorkItem::VarDecl(id, ty));
        lemma_weigh_push(self.items, by_quantifiers(), WorkItem::VarDecl(id, ty));
        lemma_weigh_push(self.items, by_layers(), WorkItem::VarDecl(id, ty));
    }

    /// Solving to a type without quantifiers keeps the invariant and the weights
    /// of the judgments and takes one from the number of unsolved variables.
    pub proof fn lemma_solve(self, id: usize, ty: &Ty)
        requires
            self.inv(),
            ty.is_mono_spec(),
        ensures
            match self.solve(id, ty) {
                Ok(next) => next.inv() && next.potential() == self.potential()
                    && next.quantifiers() == self.quantifiers() && next.layers() == self.layers()
                    && next.unsolved() + 1 == self.unsolved() && next.status == self.status
                    && next.next_ty_var == self.next_ty_var && next.next_var == self.next_var
                    && next.vars == self.vars && next.items.len() == self.items.len(),
                Err(_) => true,
            },
    {
        if let Ok(next) = self.solve(id, ty) {
            let at = self.decl_index(id);
            assert(self.items[at] == WorkItem::TyVarDecl(id, TyVarKind::Existential));
            lemma_weigh_update(self.items, by_potential(), at, WorkItem::Garbage);
            lemma_weigh_update(self.items, by_quantifiers(), at, WorkItem::Garbage);
            lemma_weigh_update(self.items, by_layers(), at, WorkItem::Garbage);
            lemma_solved_with_normal(self.kinds, self.solutions, id, ty);
            lemma_solved_with_predicative(self.solutions, id, ty);
            self.kinds.lemma_remove_key_len(id);
        }
    }

    /// Splitting keeps the invariant and the weights of the judgments and adds
    /// one to the number of unsolved variables.
    pub proof fn lemma_split(self, id: usize)
        requires
            self.inv(),
        ensures
            match self.split(id) {
                Ok(next) => next.inv() && next.potential() == self.potential()
                    && next.quantifiers() == self.quantifiers() && next.layers() == self.layers()
                    && next.unsolved() == self.unsolved() + 1 && next.status == self.status
                    && next.next_ty_var == self.next_ty_var + 2 && next.next_var == self.next_var
                    && next.vars == self.vars,
                Err(_) => true,
            },
    {
        if let Ok(next) = self.split(id) {
            reveal_with_fuel(Ty::is_mono_spec, 3);
            let dom = self.next_ty_var;
            let cod = (self.next_ty_var + 1) as usize;
            let at = self.decl_index(id);
            self.lemma_declare_before(at);
            let one = self.declare_before(at, dom);
            one.lemma_declare_before(at + 1);
            let two = one.declare_before(at + 1, cod);
            two.lemma_solve(id, &Ty::Arrow(Rc::new(Ty::Var(dom)), Rc::new(Ty::Var(cod))));
        }
    }

    /// Looking up a solved variable at the head of a type changes neither the
    /// quantifiers nor the layers nor the resolved size, and a type with a
    /// quantifier is its own head.
    pub proof fn lemma_head(self, ty: &Ty)
        requires
            self.inv(),
        ensures
            self.head(ty).quantifiers() == ty.quantifiers(),
            self.head(ty).layers() == ty.layers(),
            self.head(ty).resolved_size(self.solutions) == ty.resolved_size(self.solutions),
            !self.head(ty).is_mono_spec() ==> self.head(ty) == *ty,
    {
        match *ty {
            Ty::Var(k) => {
                if self.solutions.contains_key(k) {
                    let found = self.solutions[k];
                    found.lemma_mono_quantifiers();
                    found.lemma_mono_layers();
                    assert forall|j: usize| #[trigger]
                        self.solutions.contains_key(j) implies !found.surface_spec(j) by {
                        assert(!self.solutions[k].surface_spec(j));
                    }
                    found.lemma_resolved_size_fixed(self.solutions);
                }
            },
            _ => {},
        }
    }

    /// Instantiating keeps the invariant and the potential. With a type without
    /// quantifiers it takes one from the number of unsolved variables; with an
    /// arrow that holds one it adds the quantifiers of the arrow and all its
    /// layers but one.
    pub proof fn lemma_instantiate(self, id: usize, ty: &Ty, on_left: bool)
        requires
            self.inv(),
            !(ty is Forall),
        ensures
            match self.instantiate(id, ty, on_left) {
                Ok(next) => next.inv() && next.status == self.status && next.potential()
                    == self.potential() && next.quantifiers() == self.quantifiers()
                    + ty.quantifiers() && (if ty.is_mono_spec() {
                    next.layers() == self.layers() && next.unsolved() + 1 == self.unsolved()
                } else {
                    next.layers() + 1 == self.layers() + ty.layers()
                }),
                Err(_) => true,
            },
    {
        ty.lemma_mono_quantifiers();
        ty.lemma_mono_layers();
        match *ty {
            Ty::Arrow(t1, t2) => {
                if ty.is_mono_spec() {
                    self.lemma_solve(id, ty);
                } else if !ty.mentions_spec(id) {
                    self.lemma_split(id);
                    if let Ok(s) = self.split(id) {
                        let dom = Rc::new(Ty::Var(self.next_ty_var));
                        let cod = Rc::new(Ty::Var((self.next_ty_var + 1) as usize));
                        let first = if on_left {
                            WorkItem::Judgment(Rc::new(Judgment::Subtype { lhs: cod, rhs: t2 }))
                        } else {
                            WorkItem::Judgment(Rc::new(Judgment::Subtype { lhs: t2, rhs: cod }))
                        };
                        let second = if on_left {
                            WorkItem::Judgment(Rc::new(Judgment::Subtype { lhs: t1, rhs: dom }))
                        } else {
                            WorkItem::Judgment(Rc::new(Judgment::Subtype { lhs: dom, rhs: t1 }))
                        };
                        s.lemma_push(first);
                        s.push(first).lemma_push(second);
                    }
                }
            },
            _ => {
                self.lemma_solve(id, ty);
            },
        }
    }

    /// Binding the result of an inference keeps the invariant and adds the
    /// potential of the continuation.
    pub proof fn lemma_bind(self, id: usize, ty: Rc<Ty>, nested: Rc<Judgment>)
        requires
            self.inv(),
        ensures
            match self.bind(id, ty, nested) {
                Ok(next) => next.inv() && next.status == self.status && next.potential()
                    == self.potential() + nested.potential(),
                Err(_) => true,
            },
    {
        if ty.is_mono_spec() {
            self.lemma_solve(id, &*ty);
            if let Ok(s) = self.solve(id, &*ty) {
                s.lemma_push(WorkItem::Judgment(nested));
            }
        } else {
            let first = WorkItem::Judgment(nested);
            let second = WorkItem::Judgment(
                Rc::new(Judgment::Subtype { lhs: ty, rhs: Rc::new(Ty::Var(id)) }),
            );
            self.lemma_push(first);
            self.push(first).lemma_push(second);
        }
    }

    /// The subtype rule keeps the potential and lowers the rest of the measure.
    pub proof fn lemma_subtype(self, lhs: &Ty, rhs: &Ty)
        requires
            self.inv(),
        ensures
            match self.subtype(lhs, rhs) {
                Ok(next) => next.inv() && next.status == self.status && next.potential()
                    == self.potential() && lex_less(
                    next.quantifiers(),
                    next.layers(),
                    next.unsolved(),
                    next.size(),
                    self.quantifiers() + lhs.quantifiers() + rhs.quantifiers(),
                    self.layers() + lhs.layers() + rhs.layers(),
                    self.unsolved(),
                    self.size() + 1 + lhs.resolved_size(self.solutions) + rhs.resolved_size(
                        self.solutions,
                    ),
                ),
                Err(_) => true,
            },
    {
        let a = self.head(lhs);
        let b = self.head(rhs);
        self.lemma_head(lhs);
        self.lemma_head(rhs);
        a.lemma_mono_quantifiers();
        b.lemma_mono_quantifiers();
        a.lemma_mono_layers();
        b.lemma_mono_layers();
        if Ty::trivially_equal_spec(lhs, rhs) || Ty::trivially_equal_spec(&a, &b) {
        } else if self.is_unbound(&a) || self.is_unbound(&b) {
        } else {
            match (a, b) {
                (Ty::Arrow(a1, a2), Ty::Arrow(b1, b2)) => {
                    let first = WorkItem::Judgment(Rc::new(Judgment::Subtype { lhs: a2, rhs: b2 }));
                    let second = WorkItem::Judgment(
                        Rc::new(Judgment::Subtype { lhs: b1, rhs: a1 }),
                    );
                    self.lemma_push(first);
                    self.push(first).lemma_push(second);
                },
                (_, Ty::Forall(_, body)) => {
                    if self.next_ty_var < usize::MAX {
                        if let Some(t) = body.open_spec(self.next_ty_var) {
                            body.lemma_open_keeps_measures(0, self.next_ty_var);
                            self.lemma_declare(TyVarKind::Universal);
                            self.declare(self.next_ty_var, TyVarKind::Universal).lemma_push(
                                WorkItem::Judgment(
                                    Rc::new(Judgment::Subtype { lhs: Rc::new(a), rhs: Rc::new(t) }),
                                ),
                            );
                        }
                    }
                },
                (Ty::Forall(_, body), _) => {
                    if self.next_ty_var < usize::MAX {
                        if let Some(t) = body.open_spec(self.next_ty_var) {
                            body.lemma_open_keeps_measures(0, self.next_ty_var);
                            self.lemma_declare(TyVarKind::Existential);
                            self.declare(self.next_ty_var, TyVarKind::Existential).lemma_push(
                                WorkItem::Judgment(
                                    Rc::new(Judgment::Subtype { lhs: Rc::new(t), rhs: Rc::new(b) }),
                                ),
                            );
                        }
                    }
                },
                (Ty::Var(i), Ty::Var(j)) => {
                    self.lemma_solve(i, &b);
                    self.lemma_solve(j, &a);
                },
                (Ty::Var(i), _) => {
                    self.lemma_instantiate(i, &b, true);
                },
                (_, Ty::Var(j)) => {
                    self.lemma_instantiate(j, &a, false);
                },
                _ => {},
            }
        }
    }

    /// The checking rule lowers the potential.
    pub proof fn lemma_check(self, expr: &Expr, ty: &Ty)
        requires
            self.inv(),
        ensures
            match self.check(expr, ty) {
                Ok(next) => next.inv() && next.status == self.status && (next.potential()
                    < self.potential() + expr.weight() + 2 || (next.potential()
                    == self.potential() + expr.weight() + 2 && next.quantifiers()
                    < self.quantifiers() + ty.quantifiers())),
                Err(_) => true,
            },
    {
        reveal_with_fuel(Judgment::potential, 3);
        reveal_with_fuel(Judgment::quantifiers, 3);
        let t = self.head(ty);
        self.lemma_head(ty);
        match (*expr, t) {
            (Expr::Let(_, bound, body), _) => {
                if self.next_ty_var < usize::MAX && self.next_var < usize::MAX {
                    if let Some(opened) = body.open_spec(self.next_var) {
                        body.lemma_open_keeps_weight(0, self.next_var);
                        self.lemma_declare(TyVarKind::Existential);
                        let one = self.declare(self.next_ty_var, TyVarKind::Existential);
                        one.lemma_declare_var(self.next_var, Rc::new(Ty::Var(self.next_ty_var)));
                        let two = one.declare_var(self.next_var, Rc::new(Ty::Var(self.next_ty_var)));
                        two.lemma_push(
                            WorkItem::Judgment(
                                Rc::new(
                                    Judgment::Infer {
                                        expr: bound,
                                        replace: self.next_ty_var,
                                        nested: Rc::new(
                                            Judgment::Check {
                                                expr: Rc::new(opened),
                                                ty: Rc::new(*ty),
                                            },
                                        ),
                                    },
                                ),
                            ),
                        );
                    }
                }
            },
            (Expr::Lam(_, body), Ty::Arrow(dom, cod)) => {
                if self.next_var < usize::MAX {
                    if let Some(opened) = body.open_spec(self.next_var) {
                        body.lemma_open_keeps_weight(0, self.next_var);
                        self.lemma_declare_var(self.next_var, dom);
                        self.declare_var(self.next_var, dom).lemma_push(
                            WorkItem::Judgment(
                                Rc::new(Judgment::Check { expr: Rc::new(opened), ty: cod }),
                            ),
                        );
                    }
                }
            },
            (_, Ty::Forall(_, body)) => {
                if self.next_ty_var < usize::MAX {
                    if let Some(opened) = body.open_spec(self.next_ty_var) {
                        body.lemma_open_keeps_measures(0, self.next_ty_var);
                        self.lemma_declare(TyVarKind::Universal);
                        self.declare(self.next_ty_var, TyVarKind::Universal).lemma_push(
                            WorkItem::Judgment(
                                Rc::new(
                                    Judgment::Check { expr: Rc::new(*expr), ty: Rc::new(opened) },
                                ),
                            ),
                        );
                    }
                }
            },
            _ => {
                if self.next_ty_var < usize::MAX {
                    self.lemma_declare(TyVarKind::Existential);
                    self.declare(self.next_ty_var, TyVarKind::Existential).lemma_push(
                        WorkItem::Judgment(
                            Rc::new(
                                Judgment::Infer {
                                    expr: Rc::new(*expr),
                                    replace: self.next_ty_var,
                                    nested: Rc::new(
                                        Judgment::Subtype {
                                            lhs: Rc::new(Ty::Var(self.next_ty_var)),
                                            rhs: Rc::new(*ty),
                                        },
                                    ),
                                },
                            ),
                        ),
                    );
                }
            },
        }
    }

    /// The inference rule lowers the potential.
    pub proof fn lemma_infer(self, expr: &Expr, replace: usize, nested: Rc<Judgment>)
        requires
            self.inv(),
        ensures
            match self.infer(expr, replace, nested) {
                Ok(next) => next.inv() && next.status == self.status && next.potential()
                    < self.potential() + expr.weight() + 1 + nested.potential(),
                Err(_) => true,
            },
    {
        reveal_with_fuel(Judgment::potential, 3);
        match *expr {
            Expr::Var(v) => {
                if self.vars.contains_key(v) {
                    self.lemma_bind(replace, self.vars[v], nested);
                }
            },
            Expr::Unit => {
                self.lemma_bind(replace, Rc::new(Ty::Unit), nested);
            },
            Expr::Lam(_, body) => {
                if self.next_var < usize::MAX {
                    if let Some(opened) = body.open_spec(self.next_var) {
                        body.lemma_open_keeps_weight(0, self.next_var);
                        self.lemma_split(replace);
                        if let Ok(s) = self.split(replace) {
                            let dom = Rc::new(Ty::Var(self.next_ty_var));
                            s.lemma_push(WorkItem::Judgment(nested));
                            let one = s.push(WorkItem::Judgment(nested));
                            one.lemma_declare_var(self.next_var, dom);
                            let two = one.declare_var(self.next_var, dom);
                            two.lemma_push(
                                WorkItem::Judgment(
                                    Rc::new(
                                        Judgment::Check {
                                            expr: Rc::new(opened),
                                            ty: Rc::new(Ty::Var((self.next_ty_var + 1) as usize)),
                                        },
                                    ),
                                ),
                            );
                        }
                    }
                }
            },
            Expr::App(f, a) => {
                if self.next_ty_var < usize::MAX {
                    self.lemma_declare(TyVarKind::Existential);
                    self.declare(self.next_ty_var, TyVarKind::Existential).lemma_push(
                        WorkItem::Judgment(
                            Rc::new(
                                Judgment::Infer {
                                    expr: f,
                                    replace: self.next_ty_var,
                                    nested: Rc::new(
                                        Judgment::AppInfer {
                                            func: Rc::new(Ty::Var(self.next_ty_var)),
                                            expr: a,
                                            replace,
                                            nested,
                                        },
                                    ),
                                },
                            ),
                        ),
                    );
                }
            },
            Expr::Let(_, bound, body) => {
                if self.next_ty_var < usize::MAX && self.next_var < usize::MAX {
                    if let Some(opened) = body.open_spec(self.next_var) {
                        body.lemma_open_keeps_weight(0, self.next_var);
                        self.lemma_declare(TyVarKind::Existential);
                        let one = self.declare(self.next_ty_var, TyVarKind::Existential);
                        one.lemma_declare_var(self.next_var, Rc::new(Ty::Var(self.next_ty_var)));
                        let two = one.declare_var(self.next_var, Rc::new(Ty::Var(self.next_ty_var)));
                        two.lemma_push(
                            WorkItem::Judgment(
                                Rc::new(
                                    Judgment::Infer {
                                        expr: bound,
                                        replace: self.next_ty_var,
                                        nested: Rc::new(
                                            Judgment::Infer {
                                                expr: Rc::new(opened),
                                                replace,
                                                nested,
                                            },
                                        ),
                                    },
                                ),
                            ),
                        );
                    }
                }
            },
        }
    }

    /// The rule for an application adds the potential of the check of the
    /// argument and of the continuation.
    pub proof fn lemma_apply(
        self,
        dom: Rc<Ty>,
        cod: Rc<Ty>,
        expr: Rc<Expr>,
        replace: usize,
        nested: Rc<Judgment>,
    )
        requires
            self.inv(),
        ensures
            match self.apply(dom, cod, expr, replace, nested) {
                Ok(next) => next.inv() && next.status == self.status && next.potential()
                    == self.potential() + expr.weight() + 2 + nested.potential(),
                Err(_) => true,
            },
    {
        let check = WorkItem::Judgment(Rc::new(Judgment::Check { expr, ty: dom }));
        if cod.is_mono_spec() {
            self.lemma_solve(replace, &*cod);
            if let Ok(s) = self.solve(replace, &*cod) {
                s.lemma_push(check);
                s.push(check).lemma_push(WorkItem::Judgment(nested));
            }
        } else {
            let bound = WorkItem::Judgment(
                Rc::new(Judgment::Subtype { lhs: cod, rhs: Rc::new(Ty::Var(replace)) }),
            );
            self.lemma_push(check);
            self.push(check).lemma_push(WorkItem::Judgment(nested));
            self.push(check).push(WorkItem::Judgment(nested)).lemma_push(bound);
        }
    }

    /// The rule for the type of an application lowers the potential, or keeps
    /// it and lowers the number of quantifiers.
    pub proof fn lemma_app_infer(
        self,
        func: &Ty,
        expr: Rc<Expr>,
        replace: usize,
        nested: Rc<Judgment>,
    )
        requires
            self.inv(),
        ensures
            match self.app_infer(func, expr, replace, nested) {
                Ok(next) => next.inv() && next.status == self.status && (next.potential()
                    < self.potential() + expr.weight() + 3 + nested.potential() || (
                next.potential() == self.potential() + expr.weight() + 3 + nested.potential()
                    && next.quantifiers() < self.quantifiers() + func.quantifiers()
                    + nested.quantifiers())),
                Err(_) => true,
            },
    {
        reveal_with_fuel(Judgment::potential, 3);
        reveal_with_fuel(Judgment::quantifiers, 3);
        reveal_with_fuel(Ty::is_mono_spec, 2);
        let f = self.head(func);
        self.lemma_head(func);
        match f {
            Ty::Arrow(dom, cod) => {
                self.lemma_apply(dom, cod, expr, replace, nested);
            },
            Ty::Forall(_, body) => {
                if self.next_ty_var < usize::MAX {
                    if let Some(opened) = body.open_spec(self.next_ty_var) {
                        body.lemma_open_keeps_measures(0, self.next_ty_var);
                        self.lemma_declare(TyVarKind::Existential);
                        self.declare(self.next_ty_var, TyVarKind::Existential).lemma_push(
                            WorkItem::Judgment(
                                Rc::new(
                                    Judgment::AppInfer {
                                        func: Rc::new(opened),
                                        expr,
                                        replace,
                                        nested,
                                    },
                                ),
                            ),
                        );
                    }
                }
            },
            Ty::Var(k) => {
                self.lemma_split(k);
                if let Ok(s) = self.split(k) {
                    s.lemma_apply(
                        Rc::new(Ty::Var(self.next_ty_var)),
                        Rc::new(Ty::Var((self.next_ty_var + 1) as usize)),
                        expr,
                        replace,
                        nested,
                    );
                }
            },
            Ty::Unit => {},
        }
    }

    /// Every step of a running machine keeps the invariant; it ends the run
    /// or lowers the measure.
    pub proof fn lemma_step(self)
        requires
            self.inv(),
            self.status == Status::Running,
        ensures
            self.step().inv(),
            self.items.len() == 0 ==> self.step().status == Status::Succeeded,
            self.step().status == Status::Running ==> self.step().lower_than(self),
    {
        if self.items.len() > 0 {
            let rest = State { items: self.items.drop_last(), ..self };
            let last = self.items.last();
            assert(self.potential() == rest.potential() + last.potential());
            assert(self.quantifiers() == rest.quantifiers() + last.quantifiers());
            assert(self.layers() == rest.layers() + last.layers());
            assert(self.size() == rest.size() + by_size(self.solutions)(last));
            match last {
                WorkItem::TyVarDecl(id, _) => {
                    if self.kinds.contains_key(id) {
                        self.kinds.lemma_remove_key_len(id);
                    } else {
                        assert(self.kinds.remove(id) =~= self.kinds);
                    }
                },
                WorkItem::VarDecl(id, _) => {},
                WorkItem::Garbage => {},
                WorkItem::Judgment(j) => {
                    match *j {
                        Judgment::Subtype { lhs, rhs } => {
                            rest.lemma_subtype(&*lhs, &*rhs);
                        },
                        Judgment::Check { expr, ty } => {
                            rest.lemma_check(&*expr, &*ty);
                        },
                        Judgment::Infer { expr, replace, nested } => {
                            rest.lemma_infer(&*expr, replace, nested);
                        },
                        Judgment::AppInfer { func, expr, replace, nested } => {
                            rest.lemma_app_infer(&*func, expr, replace, nested);
                        },
                    }
                },
            }
        }
    }

    /// The state in which the machine comes to rest: the steps are taken one
    /// after the other until the machine has accepted or failed.
    pub open spec fn run(self) -> State
        decreases self.potential(), self.quantifiers(), self.layers(), self.unsolved(), self.size(),
        when self.inv()
        via Self::run_decreases
    {
        if self.status != Status::Running {
            self
        } else if self.step().status != Status::Running {
            self.step()
        } else {
            self.step().run()
        }
    }

    #[via_fn]
    proof fn run_decreases(self) {
        if self.status == Status::Running {
            self.lemma_step();
        }
    }

    /// Checking ends: from every state that upholds the invariant the machine
    /// comes to rest, accepting or failing, after finitely many steps; each of
    /// them lowers the measure, which the pending judgments bound.
    pub proof fn lemma_run_ends(self)
        requires
            self.inv(),
        ensures
            self.run().inv(),
            self.run().status != Status::Running,
            self.status == Status::Running ==> self.run() == self.step().run(),
        decreases self.potential(), self.quantifiers(), self.layers(), self.unsolved(), self.size(),
    {
        if self.status == Status::Running {
            self.lemma_step();
            if self.step().status == Status::Running {
                self.step().lemma_run_ends();
            }
        }
    }
}

} // verus!
