//! Judgments, the proof obligations of the checker, and the items of its worklist.

use crate::term::{Expr, Ty, TyVarKind};
use std::rc::Rc;
use vstd::prelude::*;

verus! {

/// A pending proof obligation.
///
/// `Infer` and `AppInfer` carry what is to be done with their result as data:
/// they bind the type they find to the existential `replace` and then hand
/// `nested` to the worklist.
#[derive(Clone, Debug, PartialEq, Eq)]
pub enum Judgment {
    /// `lhs` must be a subtype of `rhs`.
    Subtype { lhs: Rc<Ty>, rhs: Rc<Ty> },
    /// `expr` must check against `ty`.
    Check { expr: Rc<Expr>, ty: Rc<Ty> },
    /// Infer the type of `expr`, solve `replace` to it, go on with `nested`.
    Infer { expr: Rc<Expr>, replace: usize, nested: Rc<Judgment> },
    /// Infer the type of applying a value of type `func` to `expr`, solve
    /// `replace` to it, go on with `nested`.
    AppInfer { func: Rc<Ty>, expr: Rc<Expr>, replace: usize, nested: Rc<Judgment> },
}

/// An item of the worklist.
#[derive(Clone, Debug, PartialEq, Eq)]
pub enum WorkItem {
    /// The declaration of a type variable: the scope of the variable is what
    /// stands behind it in the list.
    TyVarDecl(usize, TyVarKind),
    /// The declaration of a term variable with its type.
    VarDecl(usize, Rc<Ty>),
    /// A pending obligation.
    Judgment(Rc<Judgment>),
    /// What is left in the place of a declaration that was discharged early.
    Garbage,
}

impl Judgment {
    /// The weight of the expressions that the judgment and its continuation
    /// still hold. Every rule that takes an expression apart leaves less of it
    /// than it found, and no other rule adds to it.
    pub open spec fn potential(&self) -> nat
        decreases self,
    {
        match *self {
            Judgment::Subtype { lhs, rhs } => 0,
            Judgment::Check { expr, ty } => expr.weight() + 2,
            Judgment::Infer { expr, replace, nested } => expr.weight() + 1 + nested.potential(),
            Judgment::AppInfer { func, expr, replace, nested } => expr.weight() + 3
                + nested.potential(),
        }
    }

    /// The number of quantifiers in the types of the judgment and of its
    /// continuation.
    pub open spec fn quantifiers(&self) -> nat
        decreases self,
    {
        match *self {
            Judgment::Subtype { lhs, rhs } => lhs.quantifiers() + rhs.quantifiers(),
            Judgment::Check { expr, ty } => ty.quantifiers(),
            Judgment::Infer { expr, replace, nested } => nested.quantifiers(),
            Judgment::AppInfer { func, expr, replace, nested } => func.quantifiers()
                + nested.quantifiers(),
        }
    }

    /// How much of the types of a subtype judgment stands above a quantifier.
    pub open spec fn layers(&self) -> nat {
        match *self {
            Judgment::Subtype { lhs, rhs } => lhs.layers() + rhs.layers(),
            _ => 0,
        }
    }
}

impl WorkItem {
    /// The potential of the judgment that the item holds; none for the others.
    pub open spec fn potential(self) -> nat {
        match self {
            WorkItem::Judgment(j) => j.potential(),
            _ => 0,
        }
    }

    /// The quantifiers of the judgment that the item holds; none for the others.
    pub open spec fn quantifiers(self) -> nat {
        match self {
            WorkItem::Judgment(j) => j.quantifiers(),
            _ => 0,
        }
    }

    /// The layers of the judgment that the item holds; none for the others.
    pub open spec fn layers(self) -> nat {
        match self {
            WorkItem::Judgment(j) => j.layers(),
            _ => 0,
        }
    }
}

} // verus!
