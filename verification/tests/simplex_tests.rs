use or_solver_core::simplex::{basic_values, OptimizationStatus, SimplexBasis, Solution};

#[test]
fn initial_basis_takes_last_columns() {
    let b = SimplexBasis::initial(4, 2);
    assert_eq!(b.basis, vec![2, 3]);
    assert_eq!(b.non_basis, vec![0, 1]);
    let b = SimplexBasis::initial(3, 3);
    assert_eq!(b.basis, vec![0, 1, 2]);
    assert!(b.non_basis.is_empty());
}

#[test]
fn basis_from_columns() {
    let b = SimplexBasis::from_basis(&vec![2, 3, 5], 6).unwrap();
    assert_eq!(b.basis, vec![2, 3, 5]);
    assert_eq!(b.non_basis, vec![0, 1, 4]);
    assert!(SimplexBasis::from_basis(&vec![2, 6], 6).is_none());
    assert!(SimplexBasis::from_basis(&vec![1, 1], 6).is_none());
    let e = SimplexBasis::from_basis(&vec![], 2).unwrap();
    assert_eq!(e.non_basis, vec![0, 1]);
}

#[test]
fn pivot_swaps_columns() {
    let mut b = SimplexBasis::initial(4, 2);
    let leave = b.pivot(1, 0);
    assert_eq!(leave, 3);
    assert_eq!(b.basis, vec![2, 0]);
    assert_eq!(b.non_basis, vec![3, 1]);
    let back = b.pivot(1, leave);
    assert_eq!(back, 0);
    assert_eq!(b.basis, vec![2, 3]);
    assert_eq!(b.non_basis, vec![0, 1]);
}

#[test]
fn pivot_on_column_not_listed_keeps_non_basis() {
    let mut b = SimplexBasis::initial(4, 2);
    let leave = b.pivot(0, 7);
    assert_eq!(leave, 2);
    assert_eq!(b.basis, vec![7, 3]);
    assert_eq!(b.non_basis, vec![0, 1]);
}

#[test]
fn values_of_basic_variables() {
    let values = basic_values(&vec![3, 0, 1], &vec![4.0, 35.0, 1.25], 2, 0.0);
    assert_eq!(values, vec![35.0, 1.25]);
    let values = basic_values(&vec![2, 3], &vec![5.0, 45.0], 2, 0.0);
    assert_eq!(values, vec![0.0, 0.0]);
    let values = basic_values(&vec![1, 1], &vec![5.0, 6.0], 3, 0.0);
    assert_eq!(values, vec![0.0, 6.0, 0.0]);
}

#[test]
fn solution_fields() {
    let s = Solution { status: OptimizationStatus::Optimal, objective_value: 23.75, variables: vec![3.75, 1.25] };
    assert_eq!(s.status, OptimizationStatus::Optimal);
    assert_ne!(s.status, OptimizationStatus::Unbounded);
    assert_eq!(s.objective_value, 23.75);
    assert_eq!(s.variables.len(), 2);
}
