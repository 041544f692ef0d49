use or_solver_core::model::{
    ConId, ConSense, Model, ObjectiveSense, StandardForm, VarId, VarType,
};

fn paper_model() -> Model<f64> {
    let mut model = Model::new("Test", ObjectiveSense::Maximize);
    let x1 = model.add_var("x1", VarType::Integer, 0.0, f64::INFINITY, 5.0);
    let x2 = model.add_var("x2", VarType::Integer, 0.0, f64::INFINITY, 4.0);
    model.add_constraint("Capacity A", vec![(x1, 1.0), (x2, 1.0)], ConSense::LessEqual, 5.0);
    model.add_constraint("Capacity B", vec![(x1, 10.0), (x2, 6.0)], ConSense::LessEqual, 45.0);
    model
}

#[test]
fn new_model_is_empty() {
    let model: Model<f64> = Model::new("Test", ObjectiveSense::Minimize);
    assert_eq!(model.name, "Test");
    assert_eq!(model.objective_sense, ObjectiveSense::Minimize);
    assert!(model.variables.is_empty());
    assert!(model.constraints.is_empty());
}

#[test]
fn ids_count_up_from_zero() {
    let mut model: Model<f64> = Model::new("ids", ObjectiveSense::Maximize);
    assert_eq!(model.add_var("a", VarType::Continuos, 0.0, 1.0, 2.0), VarId(0));
    assert_eq!(model.add_var("b", VarType::Binary, 0.0, 1.0, 3.0), VarId(1));
    assert_eq!(model.add_var("c", VarType::Integer, -1.0, 4.0, -2.0), VarId(2));
    assert_eq!(
        model.add_constraint("r0", vec![(VarId(0), 1.0)], ConSense::Equal, 1.0),
        ConId(0)
    );
    assert_eq!(
        model.add_constraint("r1", vec![(VarId(2), 2.0)], ConSense::GreaterEqual, 0.5),
        ConId(1)
    );
    let c = &model.variables[2];
    assert_eq!(c.name, "c");
    assert_eq!(c.var_type, VarType::Integer);
    assert_eq!(c.lower_bound, -1.0);
    assert_eq!(c.higher_bound, 4.0);
    assert_eq!(c.obj_coeff, -2.0);
    let r1 = &model.constraints[1];
    assert_eq!(r1.name, "r1");
    assert_eq!(r1.sense, ConSense::GreaterEqual);
    assert_eq!(r1.rhs, 0.5);
    assert_eq!(r1.terms, vec![(VarId(2), 2.0)]);
}

#[test]
fn integral_types() {
    assert!(!VarType::Continuos.is_integral());
    assert!(VarType::Integer.is_integral());
    assert!(VarType::Binary.is_integral());
}

#[test]
fn standard_form_of_less_equal_rows() {
    let model = paper_model();
    let sf = StandardForm::from_model(&model, 0.0, 1.0, -1.0);
    assert_eq!(sf.num_vars, 2);
    assert_eq!(sf.num_constraints, 2);
    assert_eq!(sf.a_matrix, vec![vec![1.0, 1.0, 1.0, 0.0], vec![10.0, 6.0, 0.0, 1.0]]);
    assert_eq!(sf.b_vector, vec![5.0, 45.0]);
    assert_eq!(sf.c_vector, vec![5.0, 4.0, 0.0, 0.0]);
    assert_eq!(sf.initial_basis, vec![2, 3]);
}

#[test]
fn standard_form_with_greater_equal_row() {
    let mut model = paper_model();
    model.add_constraint("min", vec![(VarId(0), 1.0), (VarId(1), 1.0)], ConSense::GreaterEqual, 1.0);
    let sf = StandardForm::from_model(&model, 0.0, 1.0, -1.0);
    assert_eq!(sf.num_constraints, 3);
    assert_eq!(
        sf.a_matrix,
        vec![
            vec![1.0, 1.0, 1.0, 0.0, 0.0, 0.0],
            vec![10.0, 6.0, 0.0, 1.0, 0.0, 0.0],
            vec![1.0, 1.0, 0.0, 0.0, -1.0, 1.0],
        ]
    );
    assert_eq!(sf.b_vector, vec![5.0, 45.0, 1.0]);
    assert_eq!(sf.c_vector, vec![5.0, 4.0, 0.0, 0.0, 0.0, 0.0]);
    assert_eq!(sf.initial_basis, vec![2, 3, 5]);
}

#[test]
fn standard_form_with_equal_row() {
    let mut model: Model<f64> = Model::new("eq", ObjectiveSense::Maximize);
    let x = model.add_var("x", VarType::Continuos, 0.0, f64::INFINITY, 1.0);
    model.add_constraint("e", vec![(x, 2.0)], ConSense::Equal, 3.0);
    model.add_constraint("g", vec![(x, 1.0)], ConSense::GreaterEqual, 1.0);
    let sf = StandardForm::from_model(&model, 0.0, 1.0, -1.0);
    // columns: x, slack e, slack g, artificial e, artificial g
    assert_eq!(
        sf.a_matrix,
        vec![vec![2.0, 0.0, 0.0, 1.0, 0.0], vec![1.0, 0.0, -1.0, 0.0, 1.0]]
    );
    assert_eq!(sf.initial_basis, vec![3, 4]);
    assert_eq!(sf.c_vector.len(), 5);
    // the starting basis is the identity, = row included
    let basis = sf.get_submatrix(&sf.initial_basis);
    assert_eq!(basis, vec![vec![1.0, 0.0], vec![0.0, 1.0]]);
}

#[test]
fn later_term_overwrites_earlier() {
    let mut model: Model<f64> = Model::new("dup", ObjectiveSense::Maximize);
    let x = model.add_var("x", VarType::Continuos, 0.0, 1.0, 1.0);
    let y = model.add_var("y", VarType::Continuos, 0.0, 1.0, 1.0);
    model.add_constraint("r", vec![(x, 2.0), (y, 3.0), (x, 7.0)], ConSense::LessEqual, 4.0);
    let sf = StandardForm::from_model(&model, 0.0, 1.0, -1.0);
    assert_eq!(sf.a_matrix, vec![vec![7.0, 3.0, 1.0]]);
}

#[test]
fn columns_and_submatrix() {
    let mut model = paper_model();
    model.add_constraint("min", vec![(VarId(0), 1.0), (VarId(1), 1.0)], ConSense::GreaterEqual, 1.0);
    let sf = StandardForm::from_model(&model, 0.0, 1.0, -1.0);
    assert_eq!(sf.get_column(0), vec![1.0, 10.0, 1.0]);
    assert_eq!(sf.get_column(4), vec![0.0, 0.0, -1.0]);
    let sub = sf.get_submatrix(&[5, 0]);
    assert_eq!(sub, vec![vec![0.0, 1.0], vec![0.0, 10.0], vec![1.0, 1.0]]);
    for (k, &j) in [5usize, 0].iter().enumerate() {
        let col = sf.get_column(j);
        for r in 0..3 {
            assert_eq!(sub[r][k], col[r]);
        }
    }
    assert_eq!(sf.get_submatrix(&[]), vec![Vec::<f64>::new(), Vec::new(), Vec::new()]);
}

#[test]
fn initial_basis_is_identity() {
    let mut model = paper_model();
    model.add_constraint("min", vec![(VarId(0), 1.0), (VarId(1), 1.0)], ConSense::GreaterEqual, 1.0);
    model.add_constraint("fix", vec![(VarId(1), 1.0)], ConSense::Equal, 1.0);
    let sf = StandardForm::from_model(&model, 0.0, 1.0, -1.0);
    // columns: x1, x2, four slacks, artificials of "min" and "fix"
    assert_eq!(sf.a_matrix[3], vec![0.0, 1.0, 0.0, 0.0, 0.0, 0.0, 0.0, 1.0]);
    assert_eq!(sf.initial_basis, vec![2, 3, 6, 7]);
    let basis = sf.get_submatrix(&sf.initial_basis);
    assert_eq!(
        basis,
        vec![
            vec![1.0, 0.0, 0.0, 0.0],
            vec![0.0, 1.0, 0.0, 0.0],
            vec![0.0, 0.0, 1.0, 0.0],
            vec![0.0, 0.0, 0.0, 1.0],
        ]
    );
}
