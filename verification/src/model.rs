//! Optimization models: variables, constraints and their standard form.

use vstd::prelude::*;

verus! {

/// Index of a variable inside a [`Model`].
#[derive(Debug, Clone, Copy, PartialEq, Eq, Hash, Structural)]
pub struct VarId(pub usize);

/// Index of a constraint inside a [`Model`].
#[derive(Debug, Clone, Copy, PartialEq, Eq, Hash, Structural)]
pub struct ConId(pub usize);

/// The domain of a variable.
#[derive(Debug, Clone, Copy, PartialEq, Eq, Structural)]
pub enum VarType {
    Continuos,
    Integer,
    Binary,
}

impl VarType {
    /// A variable of this type must take an integer value.
    pub open spec fn is_integral_spec(self) -> bool {
        self is Integer || self is Binary
    }

    /// Whether a variable of this type must take an integer value.
    pub fn is_integral(&self) -> (r: bool)
        ensures
            r == self.is_integral_spec(),
    {
        match self {
            VarType::Continuos => false,
            VarType::Integer => true,
            VarType::Binary => true,
        }
    }
}

/// A decision variable.
#[derive(Debug, Clone)]
pub struct Variable<T> {
    pub name: String,
    pub var_type: VarType,
    pub lower_bound: T,
    pub higher_bound: T,
    pub obj_coeff: T,
}

/// The relation between the left-hand side and the right-hand side of a constraint.
#[derive(Debug, Clone, Copy, PartialEq, Eq, Structural)]
pub enum ConSense {
    LessEqual,
    Equal,
    GreaterEqual,
}

/// A linear constraint `sum(coeff * var) sense rhs`.
#[derive(Debug, Clone)]
pub struct Constraint<T> {
    pub name: String,
    pub sense: ConSense,
    pub rhs: T,
    pub terms: Vec<(VarId, T)>,
}

/// Whether the objective is to be maximized or minimized.
#[derive(Debug, Clone, Copy, PartialEq, Eq, Structural)]
pub enum ObjectiveSense {
    Maximize,
    Minimize,
}

/// A linear (mixed-integer) optimization model.
#[derive(Debug, Clone)]
pub struct Model<T> {
    pub name: String,
    pub objective_sense: ObjectiveSense,
    pub variables: Vec<Variable<T>>,
    pub constraints: Vec<Constraint<T>>,
}

impl<T> Model<T> {
    /// An empty model with the given name and objective sense.
    pub fn new(name: &str, sense: ObjectiveSense) -> (m: Self)
        ensures
            m.name@ == name@,
            m.objective_sense == sense,
            m.variables@.len() == 0,
            m.constraints@.len() == 0,
    {
        Model {
            name: name.to_owned(),
            objective_sense: sense,
            variables: Vec::new(),
            constraints: Vec::new(),
        }
    }

    /// Appends a variable and returns its id, which is its position in the model.
    pub fn add_var(
        &mut self,
        name: &str,
        var_type: VarType,
        lower_bound: T,
        higher_bound: T,
        obj_coeff: T,
    ) -> (id: VarId)
        ensures
            id.0 == old(self).variables@.len(),
            final(self).variables@.len() == old(self).variables@.len() + 1,
            final(self).variables@.drop_last() == old(self).variables@,
            final(self).variables@.last().name@ == name@,
            final(self).variables@.last().var_type == var_type,
            final(self).variables@.last().lower_bound == lower_bound,
            final(self).variables@.last().higher_bound == higher_bound,
            final(self).variables@.last().obj_coeff == obj_coeff,
            final(self).constraints@ == old(self).constraints@,
            final(self).name == old(self).name,
            final(self).objective_sense == old(self).objective_sense,
    {
        let id = VarId(self.variables.len());
        self.variables.push(
            Variable { name: name.to_owned(), var_type, lower_bound, higher_bound, obj_coeff },
        );
        proof {
            assert(self.variables@.drop_last() =~= old(self).variables@);
        }
        id
    }

    /// Appends a constraint and returns its id, which is its position in the model.
    pub fn add_constraint(
        &mut self,
        name: &str,
        terms: Vec<(VarId, T)>,
        sense: ConSense,
        rhs: T,
    ) -> (id: ConId)
        ensures
            id.0 == old(self).constraints@.len(),
            final(self).constraints@.len() == old(self).constraints@.len() + 1,
            final(self).constraints@.drop_last() == old(self).constraints@,
            final(self).constraints@.last().name@ == name@,
            final(self).constraints@.last().sense == sense,
            final(self).constraints@.last().rhs == rhs,
            final(self).constraints@.last().terms@ == terms@,
            final(self).variables@ == old(self).variables@,
            final(self).name == old(self).name,
            final(self).objective_sense == old(self).objective_sense,
    {
        let id = ConId(self.constraints.len());
        self.constraints.push(Constraint { name: name.to_owned(), sense, rhs, terms });
        proof {
            assert(self.constraints@.drop_last() =~= old(self).constraints@);
        }
        id
    }
}


/// The coefficient that a list of terms gives to variable `j`: the last term
/// that names `j` wins, as later terms overwrite earlier ones.
pub open spec fn term_coeff<T>(terms: Seq<(VarId, T)>, j: int) -> Option<T>
    decreases terms.len(),
{
    if terms.len() == 0 {
        None
    } else if terms.last().0.0 == j {
        Some(terms.last().1)
    } else {
        term_coeff(terms.drop_last(), j)
    }
}

/// The number of constraints that need an artificial column (those that are not `<=`).
pub open spec fn num_artificial<T>(cons: Seq<Constraint<T>>) -> nat
    decreases cons.len(),
{
    if cons.len() == 0 {
        0
    } else {
        num_artificial(cons.drop_last()) + if cons.last().sense is LessEqual {
            0nat
        } else {
            1nat
        }
    }
}

/// Column of the artificial variable of row `r` in a standard form with `n`
/// variables and `m` constraints.
pub open spec fn artificial_col<T>(n: int, cons: Seq<Constraint<T>>, r: int) -> int {
    n + cons.len() + num_artificial(cons.take(r))
}

/// Column that starts in the basis for row `r`: its slack for a `<=` row,
/// its artificial column otherwise.
pub open spec fn basis_col<T>(n: int, cons: Seq<Constraint<T>>, r: int) -> int {
    if cons[r].sense is LessEqual {
        n + r
    } else {
        artificial_col(n, cons, r)
    }
}

/// Entry `j` of row `r` of the standard form: the constraint's own
/// coefficients; `+1` on the slack of a `<=` row; `+1` on the artificial
/// column of an `=` row, whose slack stays zero so that the row is an
/// equation; `-1` on the slack and `+1` on the artificial column of a `>=`
/// row; and zero elsewhere.
pub open spec fn standard_entry<T>(
    n: int,
    cons: Seq<Constraint<T>>,
    r: int,
    j: int,
    zero: T,
    one: T,
    minus_one: T,
) -> T {
    let con = cons[r];
    if j < n {
        match term_coeff(con.terms@, j) {
            Some(c) => c,
            None => zero,
        }
    } else if j == n + r {
        match con.sense {
            ConSense::LessEqual => one,
            ConSense::Equal => zero,
            ConSense::GreaterEqual => minus_one,
        }
    } else if j == artificial_col(n, cons, r) && con.sense !is LessEqual {
        one
    } else {
        zero
    }
}

impl<T> Model<T> {
    /// Every term of every constraint names a variable of the model.
    pub open spec fn terms_in_range(&self) -> bool {
        forall|r: int, k: int|
            0 <= r < self.constraints@.len() && 0 <= k < self.constraints@[r].terms@.len()
                ==> #[trigger] self.constraints@[r].terms@[k].0.0 < self.variables@.len()
    }

    /// The number of columns of the standard form: variables, slacks, artificials.
    pub open spec fn standard_cols(&self) -> nat {
        self.variables@.len() + self.constraints@.len() + num_artificial(self.constraints@)
    }
}

/// A model in standard form `A x = b` over variables, slacks and artificial
/// variables, with the objective `c` to be maximized. `a_matrix` holds the rows.
#[derive(Debug, Clone)]
pub struct StandardForm<T> {
    pub a_matrix: Vec<Vec<T>>,
    pub b_vector: Vec<T>,
    pub c_vector: Vec<T>,
    pub initial_basis: Vec<usize>,
    pub num_vars: usize,
    pub num_constraints: usize,
}


/// The coefficient that a list of terms gives a variable is the one of the
/// last term that names it.
pub proof fn lemma_term_coeff_last<T>(terms: Seq<(VarId, T)>, k: int)
    requires
        0 <= k < terms.len(),
        forall|q: int| k < q < terms.len() ==> terms[q].0.0 != terms[k].0.0,
    ensures
        term_coeff(terms, terms[k].0.0 as int) == Some(terms[k].1),
    decreases terms.len(),
{
    if k < terms.len() - 1 {
        let d = terms.drop_last();
        assert(d[k] == terms[k]);
        assert forall|q: int| k < q < d.len() implies d[q].0.0 != d[k].0.0 by {
            assert(d[q] == terms[q]);
        }
        lemma_term_coeff_last(d, k);
    }
}

/// A variable that no term names gets no coefficient.
pub proof fn lemma_term_coeff_absent<T>(terms: Seq<(VarId, T)>, j: int)
    requires
        forall|q: int| 0 <= q < terms.len() ==> terms[q].0.0 != j,
    ensures
        term_coeff(terms, j) is None,
    decreases terms.len(),
{
    if terms.len() > 0 {
        let d = terms.drop_last();
        assert forall|q: int| 0 <= q < d.len() implies d[q].0.0 != j by {
            assert(d[q] == terms[q]);
        }
        lemma_term_coeff_absent(d, j);
    }
}

/// The slack of row `r` is column `n + r`: `+1` for a `<=` row (sum + s =
/// rhs), `0` for an `=` row (sum = rhs), `-1` for a `>=` row (sum - s = rhs).
pub proof fn lemma_standard_slack<T>(
    n: int,
    cons: Seq<Constraint<T>>,
    r: int,
    zero: T,
    one: T,
    minus_one: T,
)
    requires
        0 <= n,
        0 <= r < cons.len(),
    ensures
        cons[r].sense is LessEqual ==> standard_entry(n, cons, r, n + r, zero, one, minus_one) == one,
        cons[r].sense is Equal ==> standard_entry(n, cons, r, n + r, zero, one, minus_one) == zero,
        cons[r].sense is GreaterEqual ==> standard_entry(n, cons, r, n + r, zero, one, minus_one)
            == minus_one,
{
}

/// Every artificial column below the `t`-th belongs to a row that is not
/// `<=`: the `t`-th is that of the row with `t` such rows before it.
proof fn lemma_artificial_owner<T>(cons: Seq<Constraint<T>>, q: int, t: int)
    requires
        0 <= q <= cons.len(),
        0 <= t < num_artificial(cons.take(q)),
    ensures
        exists|r: int|
            0 <= r < q && cons[r].sense !is LessEqual && num_artificial(cons.take(r)) == t,
    decreases q,
{
    if q > 0 {
        lemma_num_artificial_step(cons, q - 1);
        if t < num_artificial(cons.take(q - 1)) {
            lemma_artificial_owner(cons, q - 1, t);
        } else {
            assert(cons[q - 1].sense !is LessEqual && num_artificial(cons.take(q - 1)) == t);
        }
    } else {
        assert(cons.take(0) =~= Seq::<Constraint<T>>::empty());
    }
}

/// Counting artificial columns row by row.
proof fn lemma_num_artificial_step<T>(cons: Seq<Constraint<T>>, r: int)
    requires
        0 <= r < cons.len(),
    ensures
        num_artificial(cons.take(r + 1)) == num_artificial(cons.take(r)) + if cons[r].sense is LessEqual {
            0nat
        } else {
            1nat
        },
{
    assert(cons.take(r + 1).drop_last() =~= cons.take(r));
}

/// The artificial columns of the first rows are a part of all of them.
proof fn lemma_num_artificial_prefix<T>(cons: Seq<Constraint<T>>, r: int)
    requires
        0 <= r <= cons.len(),
    ensures
        num_artificial(cons.take(r)) <= num_artificial(cons),
    decreases cons.len() - r,
{
    if r < cons.len() {
        lemma_num_artificial_step(cons, r);
        lemma_num_artificial_prefix(cons, r + 1);
    } else {
        assert(cons.take(r) =~= cons);
    }
}

/// Row `r` of the standard form of a model with `n` variables.
fn standard_row<T: Copy>(
    cons: &Vec<Constraint<T>>,
    n: usize,
    r: usize,
    art: usize,
    total_cols: usize,
    zero: T,
    one: T,
    minus_one: T,
) -> (row: Vec<T>)
    requires
        r < cons@.len(),
        art == artificial_col(n as int, cons@, r as int),
        n + cons@.len() <= art,
        cons@[r as int].sense !is LessEqual ==> art < total_cols,
        n + cons@.len() <= total_cols,
        forall|k: int|
            0 <= k < cons@[r as int].terms@.len() ==> #[trigger] cons@[r as int].terms@[k].0.0 < n,
    ensures
        row@.len() == total_cols,
        forall|j: int|
            0 <= j < total_cols ==> #[trigger] row@[j] == standard_entry(
                n as int,
                cons@,
                r as int,
                j,
                zero,
                one,
                minus_one,
            ),
{
    let con = &cons[r];
    let mut row: Vec<T> = Vec::new();
    let mut j: usize = 0;
    while j < total_cols
        invariant
            j <= total_cols,
            row@.len() == j,
            forall|i: int| 0 <= i < j ==> #[trigger] row@[i] == zero,
        decreases total_cols - j,
    {
        row.push(zero);
        j = j + 1;
    }
    let ghost terms = con.terms@;
    let mut k: usize = 0;
    while k < con.terms.len()
        invariant
            con == &cons@[r as int],
            terms == con.terms@,
            k <= terms.len(),
            row@.len() == total_cols,
            n + cons@.len() <= total_cols,
            forall|t: int| 0 <= t < terms.len() ==> #[trigger] terms[t].0.0 < n,
            forall|i: int|
                0 <= i < total_cols ==> #[trigger] row@[i] == if i < n {
                    match term_coeff(terms.take(k as int), i) {
                        Some(c) => c,
                        None => zero,
                    }
                } else {
                    zero
                },
        decreases terms.len() - k,
    {
        let (var_id, coeff) = con.terms[k];
        row.set(var_id.0, coeff);
        assert(terms.take(k + 1).drop_last() =~= terms.take(k as int));
        assert forall|i: int| 0 <= i < total_cols implies #[trigger] row@[i] == if i < n {
            match term_coeff(terms.take(k + 1), i) {
                Some(c) => c,
                None => zero,
            }
        } else {
            zero
        } by {
            assert(terms.take(k + 1).last() == terms[k as int]);
        }
        k = k + 1;
    }
    assert(terms.take(terms.len() as int) =~= terms);
    let slack = n + r;
    match con.sense {
        ConSense::LessEqual => {
            row.set(slack, one);
        },
        ConSense::Equal => {
            row.set(art, one);
        },
        ConSense::GreaterEqual => {
            row.set(slack, minus_one);
            row.set(art, one);
        },
    }
    row
}

impl<T: Copy> StandardForm<T> {
    /// Lays a model out in standard form.
    ///
    /// The columns are the model's variables, then one slack per constraint,
    /// then one artificial column per constraint that is not `<=`, in the
    /// order of the constraints. `zero`, `one` and `minus_one` are the
    /// coefficient type's values for 0, 1 and -1.
    pub fn from_model(model: &Model<T>, zero: T, one: T, minus_one: T) -> (sf: Self)
        requires
            model.terms_in_range(),
            model.standard_cols() <= usize::MAX,
        ensures
            sf.wf(),
            sf.num_vars == model.variables@.len(),
            sf.num_constraints == model.constraints@.len(),
            sf.a_matrix@.len() == model.constraints@.len(),
            sf.b_vector@.len() == model.constraints@.len(),
            sf.c_vector@.len() == model.standard_cols(),
            sf.initial_basis@.len() == model.constraints@.len(),
            forall|r: int|
                0 <= r < model.constraints@.len() ==> #[trigger] sf.b_vector@[r]
                    == model.constraints@[r].rhs,
            forall|j: int|
                0 <= j < model.standard_cols() ==> #[trigger] sf.c_vector@[j] == if j
                    < model.variables@.len() {
                    model.variables@[j].obj_coeff
                } else {
                    zero
                },
            forall|r: int|
                0 <= r < model.constraints@.len() ==> #[trigger] sf.initial_basis@[r] == basis_col(
                    model.variables@.len() as int,
                    model.constraints@,
                    r,
                ),
            forall|r: int|
                0 <= r < model.constraints@.len() ==> (#[trigger] sf.a_matrix@[r])@.len()
                    == model.standard_cols(),
            forall|r: int, j: int|
                0 <= r < model.constraints@.len() && 0 <= j < model.standard_cols() ==> #[trigger] sf.a_matrix@[r]@[j]
                    == standard_entry(
                    model.variables@.len() as int,
                    model.constraints@,
                    r,
                    j,
                    zero,
                    one,
                    minus_one,
                ),
            // each variable column holds the coefficient the row's terms give it
            forall|r: int, k: int|
                0 <= r < model.constraints@.len() && 0 <= k < model.constraints@[r].terms@.len()
                    && (forall|q: int|
                    k < q < model.constraints@[r].terms@.len()
                        ==> model.constraints@[r].terms@[q].0.0
                        != model.constraints@[r].terms@[k].0.0)
                    ==> #[trigger] sf.a_matrix@[r]@[model.constraints@[r].terms@[k].0.0 as int]
                    == model.constraints@[r].terms@[k].1,
            forall|r: int, j: int|
                0 <= r < model.constraints@.len() && 0 <= j < model.variables@.len() && (forall|
                    q: int,
                |
                    0 <= q < model.constraints@[r].terms@.len()
                        ==> model.constraints@[r].terms@[q].0.0 != j) ==> #[trigger] sf.a_matrix@[r]@[j]
                    == zero,
            // the slack of row r sits in column num_vars + r
            forall|r: int|
                0 <= r < model.constraints@.len() ==> #[trigger] sf.a_matrix@[r]@[model.variables@.len()
                    + r] == match model.constraints@[r].sense {
                    ConSense::LessEqual => one,
                    ConSense::Equal => zero,
                    ConSense::GreaterEqual => minus_one,
                },
            // the starting basis: the slack of a <= row, an artificial column past
            // the slacks otherwise, one per row, increasing with the row
            forall|r: int|
                0 <= r < model.constraints@.len() ==> if model.constraints@[r].sense is LessEqual {
                    #[trigger] sf.initial_basis@[r] == model.variables@.len() + r
                } else {
                    model.variables@.len() + model.constraints@.len() <= sf.initial_basis@[r]
                        < model.standard_cols()
                },
            forall|r: int, r2: int|
                0 <= r < r2 < model.constraints@.len() && model.constraints@[r].sense !is LessEqual
                    && model.constraints@[r2].sense !is LessEqual ==> #[trigger] sf.initial_basis@[r]
                    < #[trigger] sf.initial_basis@[r2],
            forall|j: usize|
                model.variables@.len() + model.constraints@.len() <= j < model.standard_cols()
                    ==> #[trigger] sf.initial_basis@.contains(j),
            // the starting basis matrix is the identity
            forall|r: int, r2: int|
                0 <= r < model.constraints@.len() && 0 <= r2 < model.constraints@.len()
                    ==> #[trigger] sf.a_matrix@[r2]@[sf.initial_basis@[r] as int] == if r2 == r {
                    one
                } else {
                    zero
                },
            // every other column of a row is zero
            forall|r: int, j: int|
                0 <= r < model.constraints@.len() && model.variables@.len() <= j
                    < model.standard_cols() && j != model.variables@.len() + r && j
                    != sf.initial_basis@[r] ==> #[trigger] sf.a_matrix@[r]@[j] == zero,
    {
        let num_vars = model.variables.len();
        let num_constraints = model.constraints.len();
        let ghost cons = model.constraints@;

        let mut num_art: usize = 0;
        let mut i: usize = 0;
        while i < num_constraints
            invariant
                i <= num_constraints,
                num_constraints == cons.len(),
                cons == model.constraints@,
                num_art == num_artificial(cons.take(i as int)),
                num_vars + num_constraints + num_artificial(cons) <= usize::MAX,
            decreases num_constraints - i,
        {
            proof {
                lemma_num_artificial_step(cons, i as int);
                lemma_num_artificial_prefix(cons, i + 1);
            }
            match model.constraints[i].sense {
                ConSense::LessEqual => {},
                _ => {
                    num_art = num_art + 1;
                },
            }
            i = i + 1;
        }
        assert(cons.take(num_constraints as int) =~= cons);
        let total_cols = num_vars + num_constraints + num_art;

        let mut c: Vec<T> = Vec::new();
        let mut j: usize = 0;
        while j < total_cols
            invariant
                j <= total_cols,
                total_cols == model.standard_cols(),
                num_vars == model.variables@.len(),
                c@.len() == j,
                forall|t: int|
                    0 <= t < j ==> #[trigger] c@[t] == if t < num_vars {
                        model.variables@[t].obj_coeff
                    } else {
                        zero
                    },
            decreases total_cols - j,
        {
            if j < num_vars {
                c.push(model.variables[j].obj_coeff);
            } else {
                c.push(zero);
            }
            j = j + 1;
        }

        let mut a: Vec<Vec<T>> = Vec::new();
        let mut b: Vec<T> = Vec::new();
        let mut initial_basis: Vec<usize> = Vec::new();
        let mut current_artificial_col: usize = num_vars + num_constraints;
        let mut row_idx: usize = 0;
        while row_idx < num_constraints
            invariant
                row_idx <= num_constraints,
                num_constraints == cons.len(),
                cons == model.constraints@,
                num_vars == model.variables@.len(),
                total_cols == model.standard_cols(),
                total_cols == num_vars + num_constraints + num_artificial(cons),
                model.terms_in_range(),
                current_artificial_col == artificial_col(num_vars as int, cons, row_idx as int),
                a@.len() == row_idx,
                b@.len() == row_idx,
                initial_basis@.len() == row_idx,
                forall|r: int| 0 <= r < row_idx ==> #[trigger] b@[r] == cons[r].rhs,
                forall|r: int|
                    0 <= r < row_idx ==> #[trigger] initial_basis@[r] == basis_col(
                        num_vars as int,
                        cons,
                        r,
                    ),
                forall|r: int| 0 <= r < row_idx ==> (#[trigger] a@[r])@.len() == total_cols,
                forall|r: int, t: int|
                    0 <= r < row_idx && 0 <= t < total_cols ==> #[trigger] a@[r]@[t]
                        == standard_entry(num_vars as int, cons, r, t, zero, one, minus_one),
            decreases num_constraints - row_idx,
        {
            proof {
                lemma_num_artificial_step(cons, row_idx as int);
                lemma_num_artificial_prefix(cons, row_idx + 1);
                assert forall|k: int|
                    0 <= k < cons[row_idx as int].terms@.len() implies #[trigger] cons[row_idx as int].terms@[k].0.0
                    < num_vars by {
                    assert(model.constraints@[row_idx as int].terms@[k].0.0 < model.variables@.len());
                }
            }
            let row = standard_row(
                &model.constraints,
                num_vars,
                row_idx,
                current_artificial_col,
                total_cols,
                zero,
                one,
                minus_one,
            );
            b.push(model.constraints[row_idx].rhs);
            match model.constraints[row_idx].sense {
                ConSense::LessEqual => {
                    initial_basis.push(num_vars + row_idx);
                },
                _ => {
                    initial_basis.push(current_artificial_col);
                    current_artificial_col = current_artificial_col + 1;
                },
            }
            a.push(row);
            row_idx = row_idx + 1;
        }
        let sf = StandardForm {
            a_matrix: a,
            b_vector: b,
            c_vector: c,
            initial_basis,
            num_vars,
            num_constraints,
        };
        proof {
            let n = num_vars as int;
            let m = num_constraints as int;
            assert forall|r: int, k: int|
                0 <= r < m && 0 <= k < cons[r].terms@.len() && (forall|q: int|
                    k < q < cons[r].terms@.len() ==> cons[r].terms@[q].0.0 != cons[r].terms@[k].0.0)
                    implies #[trigger] sf.a_matrix@[r]@[cons[r].terms@[k].0.0 as int]
                    == cons[r].terms@[k].1 by {
                assert(cons[r].terms@[k].0.0 < n);
                lemma_term_coeff_last(cons[r].terms@, k);
            }
            assert forall|r: int, j: int|
                0 <= r < m && 0 <= j < n && (forall|q: int|
                    0 <= q < cons[r].terms@.len() ==> cons[r].terms@[q].0.0 != j) implies #[trigger] sf.a_matrix@[r]@[j]
                == zero by {
                lemma_term_coeff_absent(cons[r].terms@, j);
            }
            assert forall|r: int, r2: int| 0 <= r < m && 0 <= r2 < m implies #[trigger] sf.a_matrix@[r2]@[sf.initial_basis@[r] as int]
                == if r2 == r {
                one
            } else {
                zero
            } by {
                lemma_initial_basis_is_identity(*model, zero, one, minus_one, r, r2);
            }
            assert forall|r: int| 0 <= r < m implies if cons[r].sense is LessEqual {
                #[trigger] sf.initial_basis@[r] == n + r
            } else {
                n + m <= sf.initial_basis@[r] < model.standard_cols()
            } by {
                lemma_initial_basis_is_identity(*model, zero, one, minus_one, r, r);
                lemma_num_artificial_prefix(cons, r);
            }
            assert forall|r: int, r2: int|
                0 <= r < r2 < m && cons[r].sense !is LessEqual && cons[r2].sense !is LessEqual implies #[trigger] sf.initial_basis@[r]
                < #[trigger] sf.initial_basis@[r2] by {
                lemma_num_artificial_step(cons, r);
                lemma_num_artificial_mono(cons, r + 1, r2);
            }
            assert forall|j: usize| n + m <= j < model.standard_cols() implies #[trigger] sf.initial_basis@.contains(j) by {
                assert(cons.take(m) =~= cons);
                lemma_artificial_owner(cons, m, j - n - m);
                let r = choose|r: int|
                    0 <= r < m && cons[r].sense !is LessEqual && num_artificial(cons.take(r)) == j
                        - n - m;
                assert(sf.initial_basis@[r] == j);
            }
        }
        sf
    }
}


impl<T> StandardForm<T> {
    /// The number of columns of the standard form.
    pub open spec fn num_cols(&self) -> int {
        self.c_vector@.len() as int
    }

    /// The dimensions agree: one row, right-hand side and basis column per
    /// constraint, and every row as long as the objective.
    pub open spec fn wf(&self) -> bool {
        &&& self.a_matrix@.len() == self.num_constraints
        &&& self.b_vector@.len() == self.num_constraints
        &&& self.initial_basis@.len() == self.num_constraints
        &&& self.num_vars + self.num_constraints <= self.num_cols()
        &&& forall|r: int|
            0 <= r < self.num_constraints ==> (#[trigger] self.a_matrix@[r])@.len()
                == self.num_cols()
    }

    /// Column `j` of the constraint matrix.
    pub open spec fn column_of(&self, j: int) -> Seq<T> {
        Seq::new(self.num_constraints as nat, |r: int| self.a_matrix@[r]@[j])
    }

    /// The constraint matrix restricted to the given columns, row by row.
    pub open spec fn submatrix_of(&self, cols: Seq<usize>) -> Seq<Seq<T>> {
        Seq::new(
            self.num_constraints as nat,
            |r: int| Seq::new(cols.len(), |k: int| self.a_matrix@[r]@[cols[k] as int]),
        )
    }
}

impl<T: Copy> StandardForm<T> {
    /// Column `idx` of the constraint matrix.
    pub fn get_column(&self, idx: usize) -> (col: Vec<T>)
        requires
            self.wf(),
            idx < self.num_cols(),
        ensures
            col@ == self.column_of(idx as int),
    {
        let mut col: Vec<T> = Vec::new();
        let mut r: usize = 0;
        while r < self.num_constraints
            invariant
                self.wf(),
                idx < self.num_cols(),
                r <= self.num_constraints,
                col@ == self.column_of(idx as int).take(r as int),
            decreases self.num_constraints - r,
        {
            col.push(self.a_matrix[r][idx]);
            r = r + 1;
            assert(col@ =~= self.column_of(idx as int).take(r as int));
        }
        assert(self.column_of(idx as int).take(r as int) =~= self.column_of(idx as int));
        col
    }

    /// The constraint matrix restricted to the columns `indices`, in that
    /// order, returned row by row.
    pub fn get_submatrix(&self, indices: &[usize]) -> (sub: Vec<Vec<T>>)
        requires
            self.wf(),
            forall|k: int| 0 <= k < indices@.len() ==> #[trigger] indices@[k] < self.num_cols(),
        ensures
            sub@.len() == self.num_constraints,
            forall|r: int|
                0 <= r < self.num_constraints ==> (#[trigger] sub@[r])@ == self.submatrix_of(
                    indices@,
                )[r],
    {
        let mut sub: Vec<Vec<T>> = Vec::new();
        let mut r: usize = 0;
        while r < self.num_constraints
            invariant
                self.wf(),
                forall|k: int| 0 <= k < indices@.len() ==> #[trigger] indices@[k] < self.num_cols(),
                r <= self.num_constraints,
                sub@.len() == r,
                forall|q: int| 0 <= q < r ==> (#[trigger] sub@[q])@ == self.submatrix_of(indices@)[q],
            decreases self.num_constraints - r,
        {
            let mut row: Vec<T> = Vec::new();
            let mut k: usize = 0;
            while k < indices.len()
                invariant
                    self.wf(),
                    forall|t: int| 0 <= t < indices@.len() ==> #[trigger] indices@[t] < self.num_cols(),
                    r < self.num_constraints,
                    k <= indices@.len(),
                    row@ == self.submatrix_of(indices@)[r as int].take(k as int),
                decreases indices@.len() - k,
            {
                row.push(self.a_matrix[r][indices[k]]);
                k = k + 1;
                assert(row@ =~= self.submatrix_of(indices@)[r as int].take(k as int));
            }
            assert(row@ =~= self.submatrix_of(indices@)[r as int]);
            sub.push(row);
            r = r + 1;
        }
        sub
    }
}

/// Selecting columns and then reading a row gives the entries of those
/// columns: entry `(r, k)` of the submatrix is entry `r` of column `cols[k]`.
pub proof fn lemma_submatrix_is_columns<T>(sf: StandardForm<T>, cols: Seq<usize>, r: int, k: int)
    requires
        0 <= r < sf.num_constraints,
        0 <= k < cols.len(),
    ensures
        sf.submatrix_of(cols)[r][k] == sf.column_of(cols[k] as int)[r],
{
}


/// Artificial columns of later rows lie further right.
proof fn lemma_num_artificial_mono<T>(cons: Seq<Constraint<T>>, a: int, b: int)
    requires
        0 <= a <= b <= cons.len(),
    ensures
        num_artificial(cons.take(a)) <= num_artificial(cons.take(b)),
    decreases b - a,
{
    if a < b {
        lemma_num_artificial_step(cons, b - 1);
        lemma_num_artificial_mono(cons, a, b - 1);
    }
}

/// The starting basis of the standard form names a distinct column for
/// every row, and that column is a unit column: 1 in its own row and 0 in
/// every other row. So the starting basis matrix is the identity.
pub proof fn lemma_initial_basis_is_identity<T>(
    model: Model<T>,
    zero: T,
    one: T,
    minus_one: T,
    r: int,
    r2: int,
)
    requires
        0 <= r < model.constraints@.len(),
        0 <= r2 < model.constraints@.len(),
    ensures
        model.variables@.len() + model.constraints@.len() <= model.standard_cols(),
        0 <= basis_col(model.variables@.len() as int, model.constraints@, r)
            < model.standard_cols(),
        r != r2 ==> basis_col(model.variables@.len() as int, model.constraints@, r) != basis_col(
            model.variables@.len() as int,
            model.constraints@,
            r2,
        ),
        standard_entry(
            model.variables@.len() as int,
            model.constraints@,
            r2,
            basis_col(model.variables@.len() as int, model.constraints@, r),
            zero,
            one,
            minus_one,
        ) == if r2 == r {
            one
        } else {
            zero
        },
{
    let cons = model.constraints@;
    let m = cons.len() as int;
    lemma_num_artificial_step(cons, r);
    lemma_num_artificial_prefix(cons, r + 1);
    lemma_num_artificial_step(cons, r2);
    lemma_num_artificial_prefix(cons, r2 + 1);
    if r < r2 {
        lemma_num_artificial_mono(cons, r + 1, r2);
    }
    if r2 < r {
        lemma_num_artificial_mono(cons, r2 + 1, r);
    }
    lemma_num_artificial_prefix(cons, 0);
}

} // verus!
