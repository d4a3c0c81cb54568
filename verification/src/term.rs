//! Types, expressions and judgments of the calculus.
//!
//! Variables are numbers. At the top of a term, `Var(i)` names the variable that
//! was declared with the identifier `i`. A binder (`Forall`, `Lam`, `Let`) carries
//! the name of its variable for display only: in its body, `Var(0)` is the bound
//! variable and `Var(i + 1)` is what `Var(i)` is outside. To go under a binder the
//! machine *opens* the body: it puts a freshly declared identifier in the place of
//! the bound variable.

use crate::shared::{identical, share};
use std::rc::Rc;
use vstd::prelude::*;

verus! {

/// Whether a type variable is bound by the program or is a placeholder to be solved.
#[derive(Clone, Copy, Debug, PartialEq, Eq, Structural)]
pub enum TyVarKind {
    Universal,
    Existential,
}

/// A type of the calculus.
#[derive(Clone, Debug, PartialEq, Eq)]
pub enum Ty {
    Unit,
    Var(usize),
    Forall(String, Rc<Ty>),
    Arrow(Rc<Ty>, Rc<Ty>),
}

/// An expression of the calculus.
#[derive(Clone, Debug, PartialEq, Eq)]
pub enum Expr {
    Var(usize),
    App(Rc<Expr>, Rc<Expr>),
    Lam(String, Rc<Expr>),
    Let(String, Rc<Expr>, Rc<Expr>),
    Unit,
}

impl Ty {
    /// The equality that needs no rule: both are the unit type, or both are the
    /// same variable.
    pub open spec fn trivially_equal_spec(lhs: &Ty, rhs: &Ty) -> bool {
        match (*lhs, *rhs) {
            (Ty::Unit, Ty::Unit) => true,
            (Ty::Var(l), Ty::Var(r)) => l == r,
            _ => false,
        }
    }

    /// The number of nodes of the type.
    pub open spec fn size(&self) -> nat
        decreases self,
    {
        match *self {
            Ty::Unit => 1,
            Ty::Var(_) => 1,
            Ty::Forall(_, body) => 1 + body.size(),
            Ty::Arrow(a, b) => 1 + a.size() + b.size(),
        }
    }

    /// The number of quantifiers of the type.
    pub open spec fn quantifiers(&self) -> nat
        decreases self,
    {
        match *self {
            Ty::Unit => 0,
            Ty::Var(_) => 0,
            Ty::Forall(_, body) => 1 + body.quantifiers(),
            Ty::Arrow(a, b) => a.quantifiers() + b.quantifiers(),
        }
    }

    /// How much of the type stands above a quantifier: nothing where it holds
    /// none, else its arrows down to the quantifiers and what they hold.
    pub open spec fn layers(&self) -> nat
        decreases self,
    {
        match *self {
            Ty::Unit => 0,
            Ty::Var(_) => 0,
            Ty::Forall(_, body) => 1 + body.size(),
            Ty::Arrow(a, b) => if a.layers() + b.layers() == 0 {
                0
            } else {
                1 + a.layers() + b.layers()
            },
        }
    }

    /// Whether the type holds no quantifier.
    pub open spec fn is_mono_spec(&self) -> bool
        decreases self,
    {
        match *self {
            Ty::Unit => true,
            Ty::Var(_) => true,
            Ty::Forall(_, _) => false,
            Ty::Arrow(a, b) => a.is_mono_spec() && b.is_mono_spec(),
        }
    }

    /// Whether the variable `id` of the surrounding scope occurs in the type, at
    /// any depth. Under a binder it goes by the next number.
    pub open spec fn mentions_spec(&self, id: usize) -> bool
        decreases self,
    {
        match *self {
            Ty::Unit => false,
            Ty::Var(k) => k == id,
            Ty::Forall(_, body) => id < usize::MAX && body.mentions_spec((id + 1) as usize),
            Ty::Arrow(a, b) => a.mentions_spec(id) || b.mentions_spec(id),
        }
    }

    /// Whether the variable `id` occurs in the type outside of every quantifier:
    /// where a substitution would reach it.
    pub open spec fn surface_spec(&self, id: usize) -> bool
        decreases self,
    {
        match *self {
            Ty::Unit => false,
            Ty::Var(k) => k == id,
            Ty::Forall(_, _) => false,
            Ty::Arrow(a, b) => a.surface_spec(id) || b.surface_spec(id),
        }
    }

    /// The body of a binder with the variable `repl` in the place of the
    /// variable that the binder at `depth` binds; `None` where a number would
    /// leave the range of identifiers.
    pub open spec fn open_at(&self, depth: usize, repl: usize) -> Option<Ty>
        decreases self,
    {
        match *self {
            Ty::Unit => Some(Ty::Unit),
            Ty::Var(k) => if k < depth {
                Some(Ty::Var(k))
            } else if k == depth {
                Some(Ty::Var(repl))
            } else {
                Some(Ty::Var((k - 1) as usize))
            },
            Ty::Forall(name, body) => if depth == usize::MAX || repl == usize::MAX {
                None
            } else {
                match body.open_at((depth + 1) as usize, (repl + 1) as usize) {
                    Some(b) => Some(Ty::Forall(name, Rc::new(b))),
                    None => None,
                }
            },
            Ty::Arrow(a, b) => match (a.open_at(depth, repl), b.open_at(depth, repl)) {
                (Some(x), Some(y)) => Some(Ty::Arrow(Rc::new(x), Rc::new(y))),
                _ => None,
            },
        }
    }

    /// The body of a quantifier with the declared variable `id` in the place of
    /// the bound one.
    pub open spec fn open_spec(&self, id: usize) -> Option<Ty> {
        self.open_at(0, id)
    }

    /// The type with `with` in the place of the variable `id`. Quantified types
    /// are left as they are: solutions are never substituted under a binder.
    pub open spec fn subst_spec(&self, id: usize, with: &Ty) -> Ty
        decreases self,
    {
        match *self {
            Ty::Unit => Ty::Unit,
            Ty::Var(k) => if k == id {
                *with
            } else {
                Ty::Var(k)
            },
            Ty::Forall(_, _) => *self,
            Ty::Arrow(a, b) => Ty::Arrow(
                Rc::new(a.subst_spec(id, with)),
                Rc::new(b.subst_spec(id, with)),
            ),
        }
    }

    /// The type with every solved variable replaced by its solution. Quantified
    /// types are left as they are.
    pub open spec fn resolve_spec(&self, solutions: Map<usize, Rc<Ty>>) -> Ty
        decreases self,
    {
        match *self {
            Ty::Unit => Ty::Unit,
            Ty::Var(k) => if solutions.contains_key(k) {
                *solutions[k]
            } else {
                Ty::Var(k)
            },
            Ty::Forall(_, _) => *self,
            Ty::Arrow(a, b) => Ty::Arrow(
                Rc::new(a.resolve_spec(solutions)),
                Rc::new(b.resolve_spec(solutions)),
            ),
        }
    }

    /// Substituting a type without quantifiers into one leaves one.
    pub proof fn lemma_subst_mono(&self, id: usize, with: &Ty)
        requires
            self.is_mono_spec(),
            with.is_mono_spec(),
        ensures
            self.subst_spec(id, with).is_mono_spec(),
        decreases self,
    {
        match self {
            Ty::Arrow(a, b) => {
                a.lemma_subst_mono(id, with);
                b.lemma_subst_mono(id, with);
            },
            _ => {},
        }
    }

    /// What stands on the surface of a type after a substitution stood there
    /// before, or the substituted type brought it; the replaced variable itself
    /// is gone unless the substituted type brings it back.
    pub proof fn lemma_subst_surface(&self, id: usize, with: &Ty, j: usize)
        requires
            self.subst_spec(id, with).surface_spec(j),
        ensures
            (self.surface_spec(j) && j != id) || (self.surface_spec(id) && with.surface_spec(j)),
        decreases self,
    {
        match self {
            Ty::Arrow(a, b) => {
                if a.subst_spec(id, with).surface_spec(j) {
                    a.lemma_subst_surface(id, with, j);
                } else {
                    b.lemma_subst_surface(id, with, j);
                }
            },
            _ => {},
        }
    }

    /// Resolving a type without quantifiers with solutions without quantifiers
    /// leaves one.
    pub proof fn lemma_resolve_mono(&self, solutions: Map<usize, Rc<Ty>>)
        requires
            self.is_mono_spec(),
            forall|k: usize| solutions.contains_key(k) ==> (#[trigger] solutions[k]).is_mono_spec(),
        ensures
            self.resolve_spec(solutions).is_mono_spec(),
        decreases self,
    {
        match self {
            Ty::Arrow(a, b) => {
                a.lemma_resolve_mono(solutions);
                b.lemma_resolve_mono(solutions);
            },
            _ => {},
        }
    }

    /// A resolved type has no solved variable on its surface, where no solution has.
    pub proof fn lemma_resolve_drops(&self, solutions: Map<usize, Rc<Ty>>, j: usize)
        requires
            solutions.contains_key(j),
            forall|k: usize|
                solutions.contains_key(k) ==> !(#[trigger] solutions[k]).surface_spec(j),
        ensures
            !self.resolve_spec(solutions).surface_spec(j),
        decreases self,
    {
        match self {
            Ty::Arrow(a, b) => {
                a.lemma_resolve_drops(solutions, j);
                b.lemma_resolve_drops(solutions, j);
            },
            _ => {},
        }
    }

    /// A resolved type still has on its surface the unsolved variables that the
    /// type has there.
    pub proof fn lemma_resolve_keeps(&self, solutions: Map<usize, Rc<Ty>>, id: usize)
        requires
            !solutions.contains_key(id),
            self.surface_spec(id),
        ensures
            self.resolve_spec(solutions).surface_spec(id),
        decreases self,
    {
        match self {
            Ty::Arrow(a, b) => {
                if a.surface_spec(id) {
                    a.lemma_resolve_keeps(solutions, id);
                } else {
                    b.lemma_resolve_keeps(solutions, id);
                }
            },
            _ => {},
        }
    }

    /// Opening keeps the number of nodes and the number of quantifiers.
    pub proof fn lemma_open_keeps_measures(&self, depth: usize, repl: usize)
        requires
            self.open_at(depth, repl) is Some,
        ensures
            self.open_at(depth, repl).unwrap().size() == self.size(),
            self.open_at(depth, repl).unwrap().quantifiers() == self.quantifiers(),
        decreases self,
    {
        match self {
            Ty::Forall(_, body) => {
                body.lemma_open_keeps_measures((depth + 1) as usize, (repl + 1) as usize);
            },
            Ty::Arrow(a, b) => {
                a.lemma_open_keeps_measures(depth, repl);
                b.lemma_open_keeps_measures(depth, repl);
            },
            _ => {},
        }
    }

    /// A type without quantifiers has no layers, and the other way round.
    pub proof fn lemma_mono_layers(&self)
        ensures
            self.is_mono_spec() <==> self.layers() == 0,
        decreases self,
    {
        match self {
            Ty::Arrow(a, b) => {
                a.lemma_mono_layers();
                b.lemma_mono_layers();
            },
            _ => {},
        }
    }

    /// A type without quantifiers counts none, and the other way round.
    pub proof fn lemma_mono_quantifiers(&self)
        ensures
            self.is_mono_spec() <==> self.quantifiers() == 0,
        decreases self,
    {
        match self {
            Ty::Arrow(a, b) => {
                a.lemma_mono_quantifiers();
                b.lemma_mono_quantifiers();
            },
            _ => {},
        }
    }

    /// The equality that needs no rule: both are the unit type, or both are the
    /// same variable.
    pub fn trivially_equal(lhs: &Ty, rhs: &Ty) -> (r: bool)
        ensures
            r == Ty::trivially_equal_spec(lhs, rhs),
    {
        match (lhs, rhs) {
            (Ty::Unit, Ty::Unit) => true,
            (Ty::Var(l), Ty::Var(r)) => *l == *r,
            _ => false,
        }
    }

    /// `trivially_equal` on shared types. Two handles to one allocation hold one
    /// type, so that only its head is looked at.
    pub fn trivially_equal_shared(lhs: &Rc<Ty>, rhs: &Rc<Ty>) -> (r: bool)
        ensures
            r == Ty::trivially_equal_spec(&**lhs, &**rhs),
    {
        if identical(lhs, rhs) {
            match &**lhs {
                Ty::Unit => true,
                Ty::Var(_) => true,
                _ => false,
            }
        } else {
            Ty::trivially_equal(&**lhs, &**rhs)
        }
    }

    /// Whether the type holds no quantifier.
    pub fn is_mono(&self) -> (r: bool)
        ensures
            r == self.is_mono_spec(),
        decreases *self,
    {
        match self {
            Ty::Unit => true,
            Ty::Var(_) => true,
            Ty::Forall(_, _) => false,
            Ty::Arrow(a, b) => a.is_mono() && b.is_mono(),
        }
    }

    /// Whether the variable `id` occurs in the type, at any depth.
    pub fn mentions(&self, id: usize) -> (r: bool)
        ensures
            r == self.mentions_spec(id),
        decreases *self,
    {
        match self {
            Ty::Unit => false,
            Ty::Var(k) => *k == id,
            Ty::Forall(_, body) => id < usize::MAX && body.mentions(id + 1),
            Ty::Arrow(a, b) => a.mentions(id) || b.mentions(id),
        }
    }

    /// Whether the variable `id` occurs in the type outside of every quantifier.
    pub fn surface(&self, id: usize) -> (r: bool)
        ensures
            r == self.surface_spec(id),
        decreases *self,
    {
        match self {
            Ty::Unit => false,
            Ty::Var(k) => *k == id,
            Ty::Forall(_, _) => false,
            Ty::Arrow(a, b) => a.surface(id) || b.surface(id),
        }
    }

    /// The body of a binder with the variable `repl` in the place of the
    /// variable that the binder at `depth` binds.
    fn open_under(this: &Rc<Ty>, depth: usize, repl: usize) -> (r: Option<Rc<Ty>>)
        ensures
            match r {
                Some(t) => this.open_at(depth, repl) == Some(*t),
                None => this.open_at(depth, repl) is None,
            },
        decreases **this,
    {
        match &**this {
            Ty::Unit => Some(share(this)),
            Ty::Var(k) => {
                if *k < depth {
                    Some(share(this))
                } else if *k == depth {
                    Some(Rc::new(Ty::Var(repl)))
                } else {
                    Some(Rc::new(Ty::Var(*k - 1)))
                }
            },
            Ty::Forall(name, body) => {
                if depth == usize::MAX || repl == usize::MAX {
                    None
                } else {
                    match Ty::open_under(body, depth + 1, repl + 1) {
                        Some(b) => Some(Rc::new(Ty::Forall(name.clone(), b))),
                        None => None,
                    }
                }
            },
            Ty::Arrow(a, b) => {
                match Ty::open_under(a, depth, repl) {
                    Some(x) => match Ty::open_under(b, depth, repl) {
                        Some(y) => Some(Rc::new(Ty::Arrow(x, y))),
                        None => None,
                    },
                    None => None,
                }
            },
        }
    }

    /// The body of a quantifier with the declared variable `id` in the place of
    /// the bound one; `None` where a number would leave the range of identifiers.
    pub fn open(body: &Rc<Ty>, id: usize) -> (r: Option<Rc<Ty>>)
        ensures
            match r {
                Some(t) => body.open_spec(id) == Some(*t),
                None => body.open_spec(id) is None,
            },
    {
        Ty::open_under(body, 0, id)
    }

    /// The type with `with` in the place of the variable `id`; quantified types
    /// are left as they are.
    pub fn subst(this: &Rc<Ty>, id: usize, with: &Rc<Ty>) -> (r: Rc<Ty>)
        ensures
            *r == this.subst_spec(id, &**with),
        decreases **this,
    {
        match &**this {
            Ty::Unit => share(this),
            Ty::Var(k) => {
                if *k == id {
                    share(with)
                } else {
                    share(this)
                }
            },
            Ty::Forall(_, _) => share(this),
            Ty::Arrow(a, b) => {
                let x = Ty::subst(a, id, with);
                let y = Ty::subst(b, id, with);
                Rc::new(Ty::Arrow(x, y))
            },
        }
    }
}

impl Expr {
    /// The weight of the expression in the measure by which checking ends:
    /// every rule that takes an expression apart leaves less weight than it found.
    pub open spec fn weight(&self) -> nat
        decreases self,
    {
        match *self {
            Expr::Var(_) => 1,
            Expr::Unit => 1,
            Expr::Lam(_, body) => body.weight() + 2,
            Expr::App(f, a) => f.weight() + a.weight() + 4,
            Expr::Let(_, bound, body) => bound.weight() + body.weight() + 2,
        }
    }

    /// The body of a binder with the variable `repl` in the place of the
    /// variable that the binder at `depth` binds; `None` where a number would
    /// leave the range of identifiers. The variable of a `Let` is bound in its
    /// body only.
    pub open spec fn open_at(&self, depth: usize, repl: usize) -> Option<Expr>
        decreases self,
    {
        match *self {
            Expr::Unit => Some(Expr::Unit),
            Expr::Var(k) => if k < depth {
                Some(Expr::Var(k))
            } else if k == depth {
                Some(Expr::Var(repl))
            } else {
                Some(Expr::Var((k - 1) as usize))
            },
            Expr::Lam(name, body) => if depth == usize::MAX || repl == usize::MAX {
                None
            } else {
                match body.open_at((depth + 1) as usize, (repl + 1) as usize) {
                    Some(b) => Some(Expr::Lam(name, Rc::new(b))),
                    None => None,
                }
            },
            Expr::App(f, a) => match (f.open_at(depth, repl), a.open_at(depth, repl)) {
                (Some(x), Some(y)) => Some(Expr::App(Rc::new(x), Rc::new(y))),
                _ => None,
            },
            Expr::Let(name, bound, body) => if depth == usize::MAX || repl == usize::MAX {
                None
            } else {
                match (
                    bound.open_at(depth, repl),
                    body.open_at((depth + 1) as usize, (repl + 1) as usize),
                ) {
                    (Some(x), Some(y)) => Some(Expr::Let(name, Rc::new(x), Rc::new(y))),
                    _ => None,
                }
            },
        }
    }

    /// The body of a binder with the declared variable `id` in the place of the
    /// bound one.
    pub open spec fn open_spec(&self, id: usize) -> Option<Expr> {
        self.open_at(0, id)
    }

    /// Opening keeps the weight.
    pub proof fn lemma_open_keeps_weight(&self, depth: usize, repl: usize)
        requires
            self.open_at(depth, repl) is Some,
        ensures
            self.open_at(depth, repl).unwrap().weight() == self.weight(),
        decreases self,
    {
        match self {
            Expr::Lam(_, body) => {
                body.lemma_open_keeps_weight((depth + 1) as usize, (repl + 1) as usize);
            },
            Expr::App(f, a) => {
                f.lemma_open_keeps_weight(depth, repl);
                a.lemma_open_keeps_weight(depth, repl);
            },
            Expr::Let(_, bound, body) => {
                bound.lemma_open_keeps_weight(depth, repl);
                body.lemma_open_keeps_weight((depth + 1) as usize, (repl + 1) as usize);
            },
            _ => {},
        }
    }

    /// The body of a binder with the variable `repl` in the place of the
    /// variable that the binder at `depth` binds.
    fn open_under(this: &Rc<Expr>, depth: usize, repl: usize) -> (r: Option<Rc<Expr>>)
        ensures
            match r {
                Some(e) => this.open_at(depth, repl) == Some(*e),
                None => this.open_at(depth, repl) is None,
            },
        decreases **this,
    {
        match &**this {
            Expr::Unit => Some(share(this)),
            Expr::Var(k) => {
                if *k < depth {
                    Some(share(this))
                } else if *k == depth {
                    Some(Rc::new(Expr::Var(repl)))
                } else {
                    Some(Rc::new(Expr::Var(*k - 1)))
                }
            },
            Expr::Lam(name, body) => {
                if depth == usize::MAX || repl == usize::MAX {
                    None
                } else {
                    match Expr::open_under(body, depth + 1, repl + 1) {
                        Some(b) => Some(Rc::new(Expr::Lam(name.clone(), b))),
                        None => None,
                    }
                }
            },
            Expr::App(f, a) => {
                match Expr::open_under(f, depth, repl) {
                    Some(x) => match Expr::open_under(a, depth, repl) {
                        Some(y) => Some(Rc::new(Expr::App(x, y))),
                        None => None,
                    },
                    None => None,
                }
            },
            Expr::Let(name, bound, body) => {
                if depth == usize::MAX || repl == usize::MAX {
                    None
                } else {
                    match Expr::open_under(bound, depth, repl) {
                        Some(x) => match Expr::open_under(body, depth + 1, repl + 1) {
                            Some(y) => Some(Rc::new(Expr::Let(name.clone(), x, y))),
                            None => None,
                        },
                        None => None,
                    }
                }
            },
        }
    }

    /// The body of a binder with the declared variable `id` in the place of the
    /// bound one; `None` where a number would leave the range of identifiers.
    pub fn open(body: &Rc<Expr>, id: usize) -> (r: Option<Rc<Expr>>)
        ensures
            match r {
                Some(e) => body.open_spec(id) == Some(*e),
                None => body.open_spec(id) is None,
            },
    {
        Expr::open_under(body, 0, id)
    }
}

} // verus!
