use or_solver_core::branch_bound::{
    is_integer_solution, triage, BranchAndBound, NodeAction, MAX_ITERATIONS,
};
use or_solver_core::model::{ConSense, Model, ObjectiveSense, VarId, VarType};
use or_solver_core::simplex::{OptimizationStatus, Solution};

#[test]
fn bound_constraints_follow_types_and_bounds() {
    let mut model: Model<f64> = Model::new("b", ObjectiveSense::Maximize);
    model.add_var("x", VarType::Binary, 0.0, 1.0, 1.0);
    model.add_var("y", VarType::Integer, 2.0, 7.5, 1.0);
    model.add_var("z", VarType::Continuos, 0.0, f64::INFINITY, 1.0);
    model.add_constraint("c", vec![(VarId(2), 1.0)], ConSense::LessEqual, 9.0);
    let ub_finite = vec![true, true, false];
    let lb_positive = vec![false, true, false];
    model.add_bound_constraints(&ub_finite, &lb_positive, 1.0);
    assert_eq!(model.constraints.len(), 4);
    assert_eq!(model.constraints[0].name, "c");
    let b = &model.constraints[1];
    assert_eq!(b.name, "bound_binary_ub_x");
    assert_eq!(b.sense, ConSense::LessEqual);
    assert_eq!(b.rhs, 1.0);
    assert_eq!(b.terms, vec![(VarId(0), 1.0)]);
    let u = &model.constraints[2];
    assert_eq!(u.name, "bound_ub_y");
    assert_eq!(u.sense, ConSense::LessEqual);
    assert_eq!(u.rhs, 7.5);
    assert_eq!(u.terms, vec![(VarId(1), 1.0)]);
    let l = &model.constraints[3];
    assert_eq!(l.name, "bound_lb_y");
    assert_eq!(l.sense, ConSense::GreaterEqual);
    assert_eq!(l.rhs, 2.0);
    assert_eq!(l.terms, vec![(VarId(1), 1.0)]);
}

#[test]
fn no_bound_constraints_for_free_variables() {
    let mut model: Model<f64> = Model::new("b", ObjectiveSense::Maximize);
    model.add_var("x1", VarType::Integer, 0.0, f64::INFINITY, 5.0);
    model.add_var("x2", VarType::Integer, 0.0, f64::INFINITY, 4.0);
    model.add_bound_constraints(&vec![false, false], &vec![false, false], 1.0);
    assert!(model.constraints.is_empty());
}

#[test]
fn triage_order() {
    assert_eq!(triage(OptimizationStatus::Infeasible, false, true), NodeAction::Prune);
    assert_eq!(triage(OptimizationStatus::Unbounded, true, true), NodeAction::ReportUnbounded);
    assert_eq!(triage(OptimizationStatus::Optimal, true, true), NodeAction::Prune);
    assert_eq!(triage(OptimizationStatus::Optimal, false, true), NodeAction::Accept);
    assert_eq!(triage(OptimizationStatus::Optimal, false, false), NodeAction::Branch);
}

#[test]
fn search_is_depth_first() {
    let mut bb: BranchAndBound<&str, i32> = BranchAndBound::new("root");
    let root = bb.next_node().unwrap();
    assert_eq!((root.model, root.depth), ("root", 0));
    bb.branch(root.depth, "le", "ge");
    let n = bb.next_node().unwrap();
    assert_eq!((n.model, n.depth), ("ge", 1));
    bb.branch(n.depth, "ge-le", "ge-ge");
    assert_eq!(bb.next_node().unwrap().model, "ge-ge");
    assert_eq!(bb.next_node().unwrap().model, "ge-le");
    bb.accept(7);
    assert_eq!(*bb.incumbent(), Some(7));
    let last = bb.next_node().unwrap();
    assert_eq!((last.model, last.depth), ("le", 1));
    assert!(bb.next_node().is_none());
    assert_eq!(bb.into_incumbent(), Some(7));
}

#[test]
fn search_stops_at_iteration_limit() {
    let mut bb: BranchAndBound<u32, ()> = BranchAndBound::new(0);
    let mut taken = 0usize;
    while let Some(node) = bb.next_node() {
        taken += 1;
        bb.branch(node.depth, 1, 2);
    }
    assert_eq!(taken, MAX_ITERATIONS);
    assert!(bb.next_node().is_none());
    assert_eq!(bb.into_incumbent(), None);
}

#[test]
fn minimization_negates_the_objective() {
    let mut model: Model<f64> = Model::new("min", ObjectiveSense::Minimize);
    model.add_var("x1", VarType::Integer, 0.0, f64::INFINITY, 1.0);
    model.add_var("x2", VarType::Integer, 0.0, f64::INFINITY, -2.5);
    assert!(model.to_maximization(|c: f64| -c));
    assert_eq!(model.objective_sense, ObjectiveSense::Maximize);
    assert_eq!(model.variables[0].obj_coeff, -1.0);
    assert_eq!(model.variables[1].obj_coeff, 2.5);
    assert_eq!(model.variables[1].name, "x2");
    assert!(!model.to_maximization(|c: f64| -c));
    assert_eq!(model.variables[1].obj_coeff, 2.5);
}

#[test]
fn integrality_checks_only_integer_variables() {
    let mut model: Model<f64> = Model::new("int", ObjectiveSense::Maximize);
    model.add_var("x", VarType::Integer, 0.0, 10.0, 1.0);
    model.add_var("y", VarType::Continuos, 0.0, 10.0, 1.0);
    model.add_var("z", VarType::Binary, 0.0, 1.0, 1.0);
    let is_int = |v: f64| (v - v.round()).abs() < 1e-6;
    let sol = Solution { status: OptimizationStatus::Optimal, objective_value: 0.0, variables: vec![3.0, 0.5, 1.0] };
    assert!(is_integer_solution(&sol, &model, is_int));
    let sol = Solution { status: OptimizationStatus::Optimal, objective_value: 0.0, variables: vec![3.75, 1.0, 1.0] };
    assert!(!is_integer_solution(&sol, &model, is_int));
    let sol = Solution { status: OptimizationStatus::Optimal, objective_value: 0.0, variables: vec![3.0, 1.0, 0.5] };
    assert!(!is_integer_solution(&sol, &model, is_int));
}
