//! Building blocks of a linear and mixed-integer programming solver.
//!
//! The library holds the parts of the solver that do not depend on how the
//! coefficients are represented: building a model, laying it out in standard
//! form, the bookkeeping of a simplex basis and the control of the
//! branch-and-bound search. The coefficient type is a parameter, so every
//! contract here holds whatever number type the caller picks.

pub mod model;
pub mod simplex;
pub mod branch_bound;
