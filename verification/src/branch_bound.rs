//! Branch and bound over the linear relaxations of a mixed-integer model.
//!
//! The relaxations are solved elsewhere; this module holds the bound
//! constraints that the search adds to a model and the control of the
//! search: which node comes next, what a solved node leads to, and the
//! incumbent.

use vstd::prelude::*;
use crate::model::{ConSense, Constraint, Model, ObjectiveSense, VarId, VarType, Variable};
use crate::simplex::{OptimizationStatus, Solution};

verus! {

/// The most nodes that one search solves.
pub const MAX_ITERATIONS: usize = 10000;

/// The kind of an explicit bound constraint on a variable.
#[derive(Debug, Clone, Copy, PartialEq, Eq, Structural)]
pub enum BoundKind {
    /// `x <= 1` for a binary variable.
    BinaryUpper,
    /// `x <= higher_bound`.
    Upper,
    /// `x >= lower_bound`.
    Lower,
}

/// The bound constraints that one variable needs: an upper bound of 1 if it
/// is binary, else its own upper bound if that is finite; then its lower
/// bound if that is positive.
pub open spec fn var_bound_kinds<T>(v: Variable<T>, ub_finite: bool, lb_positive: bool) -> Seq<
    BoundKind,
> {
    let upper = if v.var_type is Binary {
        seq![BoundKind::BinaryUpper]
    } else if ub_finite {
        seq![BoundKind::Upper]
    } else {
        Seq::empty()
    };
    upper + if lb_positive {
        seq![BoundKind::Lower]
    } else {
        Seq::empty()
    }
}

/// The bound constraints of the first `count` variables, in order: each is
/// the index of its variable and its kind.
pub open spec fn bound_plan<T>(
    vars: Seq<Variable<T>>,
    ub_finite: Seq<bool>,
    lb_positive: Seq<bool>,
    count: int,
) -> Seq<(int, BoundKind)>
    decreases count,
{
    if count <= 0 {
        Seq::empty()
    } else {
        bound_plan(vars, ub_finite, lb_positive, count - 1) + var_bound_kinds(
            vars[count - 1],
            ub_finite[count - 1],
            lb_positive[count - 1],
        ).map_values(|k: BoundKind| (count - 1, k))
    }
}

/// `con` is the bound constraint of kind `kind` on variable `var`, which has
/// index `idx`: a single term with coefficient `one`, named after the kind
/// and the variable.
pub open spec fn is_bound_constraint<T>(
    con: Constraint<T>,
    idx: int,
    var: Variable<T>,
    kind: BoundKind,
    one: T,
) -> bool {
    &&& con.terms@ == seq![(VarId(idx as usize), one)]
    &&& match kind {
        BoundKind::BinaryUpper => {
            &&& con.name@ == "bound_binary_ub_"@ + var.name@
            &&& con.sense is LessEqual
            &&& con.rhs == one
        },
        BoundKind::Upper => {
            &&& con.name@ == "bound_ub_"@ + var.name@
            &&& con.sense is LessEqual
            &&& con.rhs == var.higher_bound
        },
        BoundKind::Lower => {
            &&& con.name@ == "bound_lb_"@ + var.name@
            &&& con.sense is GreaterEqual
            &&& con.rhs == var.lower_bound
        },
    }
}


/// Every bound is made explicit: among the bound constraints of the first
/// `count` variables, each variable `i` below `count` has an upper bound of 1
/// if it is binary, its own upper bound if it is not binary and that bound is
/// finite, and its lower bound if that is positive.
pub proof fn lemma_bound_plan_covers<T>(
    vars: Seq<Variable<T>>,
    ub_finite: Seq<bool>,
    lb_positive: Seq<bool>,
    count: int,
    i: int,
)
    requires
        0 <= i < count,
    ensures
        vars[i].var_type is Binary ==> bound_plan(vars, ub_finite, lb_positive, count).contains(
            (i, BoundKind::BinaryUpper),
        ),
        vars[i].var_type !is Binary && ub_finite[i] ==> bound_plan(
            vars,
            ub_finite,
            lb_positive,
            count,
        ).contains((i, BoundKind::Upper)),
        lb_positive[i] ==> bound_plan(vars, ub_finite, lb_positive, count).contains(
            (i, BoundKind::Lower),
        ),
    decreases count,
{
    let prev = bound_plan(vars, ub_finite, lb_positive, count - 1);
    let kinds = var_bound_kinds(vars[count - 1], ub_finite[count - 1], lb_positive[count - 1]);
    let added = kinds.map_values(|k: BoundKind| (count - 1, k));
    let plan = bound_plan(vars, ub_finite, lb_positive, count);
    assert(plan == prev + added);
    if i < count - 1 {
        lemma_bound_plan_covers(vars, ub_finite, lb_positive, count - 1, i);
        assert forall|e: (int, BoundKind)| prev.contains(e) implies plan.contains(e) by {
            let q = choose|q: int| 0 <= q < prev.len() && prev[q] == e;
            assert(plan[q] == e);
        }
    } else {
        if vars[i].var_type is Binary || ub_finite[i] {
            assert(plan[prev.len() as int] == added[0]);
        }
        if lb_positive[i] {
            assert(plan[plan.len() - 1] == added[added.len() - 1]);
        }
    }
}

/// No other bound constraint is added: each one belongs to a variable below
/// `count` whose type or bounds call for it.
pub proof fn lemma_bound_plan_justified<T>(
    vars: Seq<Variable<T>>,
    ub_finite: Seq<bool>,
    lb_positive: Seq<bool>,
    count: int,
    k: int,
)
    requires
        0 <= k < bound_plan(vars, ub_finite, lb_positive, count).len(),
    ensures
        ({
            let (i, kind) = bound_plan(vars, ub_finite, lb_positive, count)[k];
            &&& 0 <= i < count
            &&& match kind {
                BoundKind::BinaryUpper => vars[i].var_type is Binary,
                BoundKind::Upper => vars[i].var_type !is Binary && ub_finite[i],
                BoundKind::Lower => lb_positive[i],
            }
        }),
    decreases count,
{
    let prev = bound_plan(vars, ub_finite, lb_positive, count - 1);
    let kinds = var_bound_kinds(vars[count - 1], ub_finite[count - 1], lb_positive[count - 1]);
    let added = kinds.map_values(|kd: BoundKind| (count - 1, kd));
    let plan = bound_plan(vars, ub_finite, lb_positive, count);
    assert(plan == prev + added);
    if k < prev.len() {
        lemma_bound_plan_justified(vars, ub_finite, lb_positive, count - 1, k);
    } else {
        assert(plan[k] == added[k - prev.len()]);
    }
}

/// A bound constraint is the single term `1 * x_idx`, and its sense,
/// right-hand side and name are those of its kind: `x <= 1` named
/// `bound_binary_ub_<name>`, `x <= higher_bound` named `bound_ub_<name>`,
/// `x >= lower_bound` named `bound_lb_<name>`.
pub proof fn lemma_bound_constraint_fields<T>(
    con: Constraint<T>,
    idx: int,
    var: Variable<T>,
    kind: BoundKind,
    one: T,
)
    requires
        is_bound_constraint(con, idx, var, kind, one),
    ensures
        con.terms@ == seq![(VarId(idx as usize), one)],
        kind is BinaryUpper ==> con.sense is LessEqual && con.rhs == one && con.name@
            == "bound_binary_ub_"@ + var.name@,
        kind is Upper ==> con.sense is LessEqual && con.rhs == var.higher_bound && con.name@
            == "bound_ub_"@ + var.name@,
        kind is Lower ==> con.sense is GreaterEqual && con.rhs == var.lower_bound && con.name@
            == "bound_lb_"@ + var.name@,
{
}

/// Entry `k` of a plan of bound constraints stands at position `base + k`
/// of `cons`.
pub open spec fn plan_entry_holds<T>(
    cons: Seq<Constraint<T>>,
    base: int,
    plan: Seq<(int, BoundKind)>,
    vars: Seq<Variable<T>>,
    one: T,
    k: int,
) -> bool {
    is_bound_constraint(cons[base + k], plan[k].0, vars[plan[k].0], plan[k].1, one)
}

impl<T: Copy> Model<T> {
    /// Turns a minimization into the maximization of the negated objective:
    /// the sense becomes `Maximize` and, if it was `Minimize`, every objective
    /// coefficient is replaced by what `negate` gives for it. Returns whether
    /// the model was a minimization.
    pub fn to_maximization<F: Fn(T) -> T>(&mut self, negate: F) -> (was_minimize: bool)
        requires
            forall|x: T| #[trigger] negate.requires((x,)),
        ensures
            was_minimize == (old(self).objective_sense is Minimize),
            final(self).objective_sense is Maximize,
            final(self).name == old(self).name,
            final(self).constraints@ == old(self).constraints@,
            final(self).variables@.len() == old(self).variables@.len(),
            forall|i: int|
                0 <= i < old(self).variables@.len() ==> {
                    let v = old(self).variables@[i];
                    let w = #[trigger] final(self).variables@[i];
                    &&& w.name == v.name
                    &&& w.var_type == v.var_type
                    &&& w.lower_bound == v.lower_bound
                    &&& w.higher_bound == v.higher_bound
                    &&& if was_minimize {
                        negate.ensures((v.obj_coeff,), w.obj_coeff)
                    } else {
                        w.obj_coeff == v.obj_coeff
                    }
                },
    {
        let was_minimize = match self.objective_sense {
            ObjectiveSense::Minimize => true,
            ObjectiveSense::Maximize => false,
        };
        if was_minimize {
            self.objective_sense = ObjectiveSense::Maximize;
            let n = self.variables.len();
            let ghost vars = self.variables@;
            let mut i: usize = 0;
            while i < n
                invariant
                    i <= n,
                    n == vars.len(),
                    self.variables@.len() == n,
                    self.name == old(self).name,
                    self.objective_sense is Maximize,
                    self.constraints@ == old(self).constraints@,
                    vars == old(self).variables@,
                    forall|x: T| #[trigger] negate.requires((x,)),
                    forall|q: int|
                        0 <= q < n ==> {
                            let v = vars[q];
                            let w = #[trigger] self.variables@[q];
                            &&& w.name == v.name
                            &&& w.var_type == v.var_type
                            &&& w.lower_bound == v.lower_bound
                            &&& w.higher_bound == v.higher_bound
                            &&& if q < i {
                                negate.ensures((v.obj_coeff,), w.obj_coeff)
                            } else {
                                w.obj_coeff == v.obj_coeff
                            }
                        },
                decreases n - i,
            {
                let c = self.variables[i].obj_coeff;
                let negated = negate(c);
                self.variables[i].obj_coeff = negated;
                i = i + 1;
            }
        } else {
            self.objective_sense = ObjectiveSense::Maximize;
        }
        was_minimize
    }

    /// Makes the bounds of the variables explicit as constraints, variable by
    /// variable: `x <= 1` for a binary variable, else `x <= higher_bound`
    /// when `ub_finite` says that bound is finite; then `x >= lower_bound`
    /// when `lb_positive` says that bound is positive. `one` is the
    /// coefficient type's 1.
    pub fn add_bound_constraints(&mut self, ub_finite: &Vec<bool>, lb_positive: &Vec<bool>, one: T)
        requires
            ub_finite@.len() == old(self).variables@.len(),
            lb_positive@.len() == old(self).variables@.len(),
        ensures
            final(self).variables@ == old(self).variables@,
            final(self).name == old(self).name,
            final(self).objective_sense == old(self).objective_sense,
            final(self).constraints@.len() == old(self).constraints@.len() + bound_plan(
                old(self).variables@,
                ub_finite@,
                lb_positive@,
                old(self).variables@.len() as int,
            ).len(),
            forall|k: int|
                0 <= k < old(self).constraints@.len() ==> #[trigger] final(self).constraints@[k]
                    == old(self).constraints@[k],
            forall|k: int|
                0 <= k < bound_plan(
                    old(self).variables@,
                    ub_finite@,
                    lb_positive@,
                    old(self).variables@.len() as int,
                ).len() ==> #[trigger] plan_entry_holds(
                    final(self).constraints@,
                    old(self).constraints@.len() as int,
                    bound_plan(
                        old(self).variables@,
                        ub_finite@,
                        lb_positive@,
                        old(self).variables@.len() as int,
                    ),
                    old(self).variables@,
                    one,
                    k,
                ),
            // each bound that calls for it has its constraint among the new ones
            forall|i: int|
                #![trigger old(self).variables@[i]]
                0 <= i < old(self).variables@.len() && old(self).variables@[i].var_type is Binary
                    ==> exists|k: int|
                    old(self).constraints@.len() <= k < final(self).constraints@.len() && {
                        let con = #[trigger] final(self).constraints@[k];
                        &&& con.terms@ == seq![(VarId(i as usize), one)]
                        &&& con.sense is LessEqual
                        &&& con.rhs == one
                        &&& con.name@ == "bound_binary_ub_"@ + old(self).variables@[i].name@
                    },
            forall|i: int|
                #![trigger old(self).variables@[i]]
                0 <= i < old(self).variables@.len() && old(self).variables@[i].var_type !is Binary
                    && ub_finite@[i] ==> exists|k: int|
                    old(self).constraints@.len() <= k < final(self).constraints@.len() && {
                        let con = #[trigger] final(self).constraints@[k];
                        &&& con.terms@ == seq![(VarId(i as usize), one)]
                        &&& con.sense is LessEqual
                        &&& con.rhs == old(self).variables@[i].higher_bound
                        &&& con.name@ == "bound_ub_"@ + old(self).variables@[i].name@
                    },
            forall|i: int|
                #![trigger old(self).variables@[i]]
                0 <= i < old(self).variables@.len() && lb_positive@[i] ==> exists|k: int|
                    old(self).constraints@.len() <= k < final(self).constraints@.len() && {
                        let con = #[trigger] final(self).constraints@[k];
                        &&& con.terms@ == seq![(VarId(i as usize), one)]
                        &&& con.sense is GreaterEqual
                        &&& con.rhs == old(self).variables@[i].lower_bound
                        &&& con.name@ == "bound_lb_"@ + old(self).variables@[i].name@
                    },
            // and every new constraint is one of those
            forall|k: int|
                #![trigger final(self).constraints@[k]]
                old(self).constraints@.len() <= k < final(self).constraints@.len() ==> exists|i: int|
                    #![trigger old(self).variables@[i]]
                    0 <= i < old(self).variables@.len() && {
                        let con = final(self).constraints@[k];
                        let v = old(self).variables@[i];
                        &&& con.terms@ == seq![(VarId(i as usize), one)]
                        &&& {
                            ||| (v.var_type is Binary && con.sense is LessEqual && con.rhs == one
                                && con.name@ == "bound_binary_ub_"@ + v.name@)
                            ||| (v.var_type !is Binary && ub_finite@[i] && con.sense is LessEqual
                                && con.rhs == v.higher_bound && con.name@ == "bound_ub_"@ + v.name@)
                            ||| (lb_positive@[i] && con.sense is GreaterEqual && con.rhs
                                == v.lower_bound && con.name@ == "bound_lb_"@ + v.name@)
                        }
                    },
    {
        let n = self.variables.len();
        let ghost vars = self.variables@;
        let ghost old_cons = self.constraints@;
        let ghost ub = ub_finite@;
        let ghost lb = lb_positive@;
        let mut i: usize = 0;
        while i < n
            invariant
                i <= n,
                n == vars.len(),
                ub == ub_finite@,
                lb == lb_positive@,
                ub.len() == n,
                lb.len() == n,
                self.variables@ == vars,
                self.name == old(self).name,
                self.objective_sense == old(self).objective_sense,
                self.constraints@.len() == old_cons.len() + bound_plan(vars, ub, lb, i as int).len(),
                forall|k: int| 0 <= k < old_cons.len() ==> #[trigger] self.constraints@[k] == old_cons[k],
                forall|k: int|
                    0 <= k < bound_plan(vars, ub, lb, i as int).len() ==> #[trigger] plan_entry_holds(
                        self.constraints@,
                        old_cons.len() as int,
                        bound_plan(vars, ub, lb, i as int),
                        vars,
                        one,
                        k,
                    ),
                forall|k: int|
                    0 <= k < bound_plan(vars, ub, lb, i as int).len() ==> 0 <= #[trigger] bound_plan(
                        vars,
                        ub,
                        lb,
                        i as int,
                    )[k].0 < i,
            decreases n - i,
        {
            let ghost before = self.constraints@;
            let ghost prev = bound_plan(vars, ub, lb, i as int);
            let ghost kinds = var_bound_kinds(vars[i as int], ub[i as int], lb[i as int]);
            let ghost added = kinds.map_values(|k: BoundKind| (i as int, k));
            assert(bound_plan(vars, ub, lb, i + 1) == prev + added);
            let is_binary = match self.variables[i].var_type {
                VarType::Binary => true,
                _ => false,
            };
            let mut upper: usize = 0;
            if is_binary {
                let mut name = "bound_binary_ub_".to_owned();
                name.append(self.variables[i].name.as_str());
                let terms = vec![(VarId(i), one)];
                assert(terms@ == seq![(VarId(i), one)]);
                self.add_constraint(name.as_str(), terms, ConSense::LessEqual, one);
                upper = 1;
            } else if ub_finite[i] {
                let hb = self.variables[i].higher_bound;
                let mut name = "bound_ub_".to_owned();
                name.append(self.variables[i].name.as_str());
                let terms = vec![(VarId(i), one)];
                assert(terms@ == seq![(VarId(i), one)]);
                self.add_constraint(name.as_str(), terms, ConSense::LessEqual, hb);
                upper = 1;
            }
            assert(self.constraints@.len() == before.len() + upper);
            assert(forall|k: int| 0 <= k < before.len() ==> #[trigger] self.constraints@[k] == before[k]);
            if upper == 1 {
                assert(kinds[0] == if is_binary { BoundKind::BinaryUpper } else { BoundKind::Upper });
                assert(is_bound_constraint(self.constraints@[before.len() as int], i as int, vars[i as int], kinds[0], one));
            }
            let ghost mid = self.constraints@;
            if lb_positive[i] {
                let lbv = self.variables[i].lower_bound;
                let mut name = "bound_lb_".to_owned();
                name.append(self.variables[i].name.as_str());
                let terms = vec![(VarId(i), one)];
                assert(terms@ == seq![(VarId(i), one)]);
                self.add_constraint(name.as_str(), terms, ConSense::GreaterEqual, lbv);
                assert(kinds[upper as int] == BoundKind::Lower);
                assert(is_bound_constraint(self.constraints@[mid.len() as int], i as int, vars[i as int], kinds[upper as int], one));
            }
            assert(forall|k: int| 0 <= k < mid.len() ==> #[trigger] self.constraints@[k] == mid[k]);
            assert(kinds.len() == upper + if lb[i as int] { 1int } else { 0int });
            assert forall|k: int| 0 <= k < bound_plan(vars, ub, lb, i + 1).len() implies #[trigger] plan_entry_holds(
                self.constraints@,
                old_cons.len() as int,
                bound_plan(vars, ub, lb, i + 1),
                vars,
                one,
                k,
            ) && 0 <= bound_plan(vars, ub, lb, i + 1)[k].0 < i + 1 by {
                if k >= prev.len() {
                    let t = k - prev.len();
                    assert(bound_plan(vars, ub, lb, i + 1)[k] == added[t]);
                    assert(added[t] == (i as int, kinds[t]));
                } else {
                    assert(bound_plan(vars, ub, lb, i + 1)[k] == prev[k]);
                    assert(plan_entry_holds(before, old_cons.len() as int, prev, vars, one, k));
                    assert(0 <= prev[k].0 < i);
                    assert(self.constraints@[old_cons.len() + k] == before[old_cons.len() + k]);
                }
            }
            i = i + 1;
        }
        proof {
            let plan = bound_plan(vars, ub, lb, n as int);
            let base = old_cons.len() as int;
            assert forall|i: int| 0 <= i < n && vars[i].var_type is Binary implies exists|k: int|
                base <= k < self.constraints@.len() && {
                    let con = #[trigger] self.constraints@[k];
                    &&& con.terms@ == seq![(VarId(i as usize), one)]
                    &&& con.sense is LessEqual
                    &&& con.rhs == one
                    &&& con.name@ == "bound_binary_ub_"@ + vars[i].name@
                } by {
                lemma_bound_plan_covers(vars, ub, lb, n as int, i);
                let q = choose|q: int| 0 <= q < plan.len() && plan[q] == (i, BoundKind::BinaryUpper);
                assert(plan_entry_holds(self.constraints@, base, plan, vars, one, q));
                lemma_bound_constraint_fields(self.constraints@[base + q], i, vars[i], BoundKind::BinaryUpper, one);
            }
            assert forall|i: int| 0 <= i < n && vars[i].var_type !is Binary && ub[i] implies exists|k: int|
                base <= k < self.constraints@.len() && {
                    let con = #[trigger] self.constraints@[k];
                    &&& con.terms@ == seq![(VarId(i as usize), one)]
                    &&& con.sense is LessEqual
                    &&& con.rhs == vars[i].higher_bound
                    &&& con.name@ == "bound_ub_"@ + vars[i].name@
                } by {
                lemma_bound_plan_covers(vars, ub, lb, n as int, i);
                let q = choose|q: int| 0 <= q < plan.len() && plan[q] == (i, BoundKind::Upper);
                assert(plan_entry_holds(self.constraints@, base, plan, vars, one, q));
                lemma_bound_constraint_fields(self.constraints@[base + q], i, vars[i], BoundKind::Upper, one);
            }
            assert forall|i: int| 0 <= i < n && lb[i] implies exists|k: int|
                base <= k < self.constraints@.len() && {
                    let con = #[trigger] self.constraints@[k];
                    &&& con.terms@ == seq![(VarId(i as usize), one)]
                    &&& con.sense is GreaterEqual
                    &&& con.rhs == vars[i].lower_bound
                    &&& con.name@ == "bound_lb_"@ + vars[i].name@
                } by {
                lemma_bound_plan_covers(vars, ub, lb, n as int, i);
                let q = choose|q: int| 0 <= q < plan.len() && plan[q] == (i, BoundKind::Lower);
                assert(plan_entry_holds(self.constraints@, base, plan, vars, one, q));
                lemma_bound_constraint_fields(self.constraints@[base + q], i, vars[i], BoundKind::Lower, one);
            }
            assert forall|k: int| #![trigger self.constraints@[k]] base <= k < self.constraints@.len() implies exists|i: int|
                #![trigger vars[i]]
                0 <= i < n && {
                    let con = self.constraints@[k];
                    let v = vars[i];
                    &&& con.terms@ == seq![(VarId(i as usize), one)]
                    &&& {
                        ||| (v.var_type is Binary && con.sense is LessEqual && con.rhs == one
                            && con.name@ == "bound_binary_ub_"@ + v.name@)
                        ||| (v.var_type !is Binary && ub[i] && con.sense is LessEqual
                            && con.rhs == v.higher_bound && con.name@ == "bound_ub_"@ + v.name@)
                        ||| (lb[i] && con.sense is GreaterEqual && con.rhs
                            == v.lower_bound && con.name@ == "bound_lb_"@ + v.name@)
                    }
                } by {
                let q = k - base;
                lemma_bound_plan_justified(vars, ub, lb, n as int, q);
                assert(plan_entry_holds(self.constraints@, base, plan, vars, one, q));
                let i = plan[q].0;
                lemma_bound_constraint_fields(self.constraints@[k], i, vars[i], plan[q].1, one);
                assert(vars[i] == vars[i]);
            }
        }
    }
}


/// Whether a solution is integral where the model asks for it: `is_integer`
/// is asked about the value of every integer or binary variable, in order,
/// until it answers `false`.
pub fn is_integer_solution<T: Copy, F: Fn(T) -> bool>(
    sol: &Solution<T>,
    model: &Model<T>,
    is_integer: F,
) -> (r: bool)
    requires
        model.variables@.len() <= sol.variables@.len(),
        forall|x: T| #[trigger] is_integer.requires((x,)),
    ensures
        r ==> forall|i: int|
            0 <= i < model.variables@.len() && (#[trigger] model.variables@[i]).var_type.is_integral_spec()
                ==> is_integer.ensures((sol.variables@[i],), true),
        !r ==> exists|i: int|
            0 <= i < model.variables@.len() && (#[trigger] model.variables@[i]).var_type.is_integral_spec()
                && is_integer.ensures((sol.variables@[i],), false),
{
    let mut i: usize = 0;
    while i < model.variables.len()
        invariant
            i <= model.variables@.len(),
            model.variables@.len() <= sol.variables@.len(),
            forall|x: T| #[trigger] is_integer.requires((x,)),
            forall|q: int|
                0 <= q < i && (#[trigger] model.variables@[q]).var_type.is_integral_spec()
                    ==> is_integer.ensures((sol.variables@[q],), true),
        decreases model.variables@.len() - i,
    {
        if model.variables[i].var_type.is_integral() {
            let val = sol.variables[i];
            if !is_integer(val) {
                assert(model.variables@[i as int].var_type.is_integral_spec());
                return false;
            }
        }
        i = i + 1;
    }
    true
}

/// A node of the search: a model to relax, at its depth in the search tree.
#[derive(Debug, Clone)]
pub struct BranchNode<M> {
    pub model: M,
    pub depth: usize,
}

/// What a solved node leads to.
#[derive(Debug, Clone, Copy, PartialEq, Eq, Structural)]
pub enum NodeAction {
    /// The node is dropped: its relaxation is infeasible, or it cannot beat the incumbent.
    Prune,
    /// The relaxation is unbounded, and so is the whole problem: the search ends.
    ReportUnbounded,
    /// The relaxation's solution is integral and better than the incumbent: it becomes the incumbent.
    Accept,
    /// The node is split on a fractional variable.
    Branch,
}

/// What a node leads to, given the status of its relaxation, whether its
/// objective is no better than the incumbent's, and whether its solution is
/// integral where it must be. The checks are made in that order.
pub fn triage(status: OptimizationStatus, dominated: bool, integral: bool) -> (action: NodeAction)
    ensures
        action == match status {
            OptimizationStatus::Infeasible => NodeAction::Prune,
            OptimizationStatus::Unbounded => NodeAction::ReportUnbounded,
            OptimizationStatus::Optimal => if dominated {
                NodeAction::Prune
            } else if integral {
                NodeAction::Accept
            } else {
                NodeAction::Branch
            },
        },
{
    match status {
        OptimizationStatus::Infeasible => NodeAction::Prune,
        OptimizationStatus::Unbounded => NodeAction::ReportUnbounded,
        OptimizationStatus::Optimal => {
            if dominated {
                NodeAction::Prune
            } else if integral {
                NodeAction::Accept
            } else {
                NodeAction::Branch
            }
        },
    }
}

/// The state of a depth-first branch-and-bound search over models of type
/// `M` with solutions of type `S`: the nodes still to explore, how many
/// nodes were taken, and the best integral solution found so far.
pub struct BranchAndBound<M, S> {
    stack: Vec<BranchNode<M>>,
    iterations: usize,
    incumbent: Option<S>,
}

impl<M, S> BranchAndBound<M, S> {
    /// The nodes still to explore; the last one comes next.
    pub closed spec fn pending(&self) -> Seq<BranchNode<M>> {
        self.stack@
    }

    /// How many nodes were taken from the stack.
    pub closed spec fn taken(&self) -> nat {
        self.iterations as nat
    }

    /// The best integral solution found so far.
    pub closed spec fn best(&self) -> Option<S> {
        self.incumbent
    }

    /// No more than one node past the limit is ever taken.
    #[verifier::type_invariant]
    spec fn inv(self) -> bool {
        self.iterations <= MAX_ITERATIONS + 1
    }

    /// A search that starts from the root model at depth 0, with no incumbent.
    pub fn new(root: M) -> (bb: Self)
        ensures
            bb.pending() == seq![BranchNode { model: root, depth: 0 }],
            bb.taken() == 0,
            bb.best() is None,
    {
        let mut stack: Vec<BranchNode<M>> = Vec::new();
        stack.push(BranchNode { model: root, depth: 0 });
        BranchAndBound { stack, iterations: 0, incumbent: None }
    }

    /// The next node to solve: the most recently pushed one. Taking a node
    /// counts it; the search stops, with `None`, when no node is left or when
    /// the node taken would be one more than `MAX_ITERATIONS`, which is then
    /// dropped.
    pub fn next_node(&mut self) -> (node: Option<BranchNode<M>>)
        ensures
            final(self).taken() <= MAX_ITERATIONS + 1,
            final(self).best() == old(self).best(),
            old(self).taken() > MAX_ITERATIONS ==> node is None && final(self).pending()
                == old(self).pending() && final(self).taken() == old(self).taken(),
            old(self).taken() <= MAX_ITERATIONS && old(self).pending().len() == 0 ==> node is None
                && final(self).pending() == old(self).pending() && final(self).taken()
                == old(self).taken(),
            old(self).taken() <= MAX_ITERATIONS && old(self).pending().len() > 0 ==> {
                &&& final(self).pending() == old(self).pending().drop_last()
                &&& final(self).taken() == old(self).taken() + 1
                &&& node == if old(self).taken() < MAX_ITERATIONS {
                    Some(old(self).pending().last())
                } else {
                    None
                }
            },
            node is Some ==> final(self).taken() <= MAX_ITERATIONS,
    {
        proof {
            use_type_invariant(&*self);
        }
        if self.iterations > MAX_ITERATIONS {
            return None;
        }
        let mut stack: Vec<BranchNode<M>> = Vec::new();
        core::mem::swap(&mut stack, &mut self.stack);
        let popped = stack.pop();
        self.stack = stack;
        match popped {
            None => None,
            Some(node) => {
                self.iterations = self.iterations + 1;
                if self.iterations > MAX_ITERATIONS {
                    None
                } else {
                    Some(node)
                }
            },
        }
    }

    /// Records a new incumbent.
    pub fn accept(&mut self, solution: S)
        ensures
            final(self).best() == Some(solution),
            final(self).pending() == old(self).pending(),
            final(self).taken() == old(self).taken(),
    {
        proof {
            use_type_invariant(&*self);
        }
        self.incumbent = Some(solution);
    }

    /// Splits a node at depth `parent_depth` into two children one level
    /// deeper; `right` is explored first.
    pub fn branch(&mut self, parent_depth: usize, left: M, right: M)
        requires
            parent_depth < usize::MAX,
        ensures
            final(self).pending() == old(self).pending().push(
                BranchNode { model: left, depth: (parent_depth + 1) as usize },
            ).push(BranchNode { model: right, depth: (parent_depth + 1) as usize }),
            final(self).taken() == old(self).taken(),
            final(self).best() == old(self).best(),
    {
        proof {
            use_type_invariant(&*self);
        }
        let mut stack: Vec<BranchNode<M>> = Vec::new();
        core::mem::swap(&mut stack, &mut self.stack);
        stack.push(BranchNode { model: left, depth: parent_depth + 1 });
        stack.push(BranchNode { model: right, depth: parent_depth + 1 });
        self.stack = stack;
    }

    /// The best integral solution found so far.
    pub fn incumbent(&self) -> (r: &Option<S>)
        ensures
            *r == self.best(),
    {
        &self.incumbent
    }

    /// Ends the search, returning the best integral solution found.
    pub fn into_incumbent(self) -> (r: Option<S>)
        ensures
            r == self.best(),
    {
        self.incumbent
    }
}

} // verus!
