//! A worklist-based bidirectional type checker for a small polymorphic calculus:
//! unit, variables, functions, let-bindings, universal quantification, and
//! subtyping with existential type variables that drive inference.
//!
//! The checker is a machine that rewrites a worklist. The worklist holds pending
//! judgments and the declarations of the variables that the judgments may
//! mention, in scope order; the machine takes the last item, applies its rule,
//! and pushes what the rule asks for, until the worklist is empty or a rule fails.
//!
//! - [`term`] and [`judgment`]: types, expressions, judgments and work items.
//! - [`scope_list`]: the doubly linked ring that holds the items.
//! - [`order_index`]: the splay tree that answers which of two items comes first.
//! - [`worklist`]: the two kept in step.
//! - [`context`]: the declarations and the solutions of existentials.
//! - [`model`]: the rules, stated on the abstract state of the machine.
//! - [`measure`]: the measure that every step lowers.
//! - [`machine`]: the machine itself and its driver.
//! - [`laws`]: what holds of the rules in every state.

pub mod context;
pub mod error;
pub mod judgment;
pub mod laws;
pub mod machine;
pub mod measure;
pub mod model;
pub mod order_index;
pub mod scope_list;
pub mod shared;
pub mod term;
pub mod worklist;
