//! The index bookkeeping of the revised simplex method and the shape of its result.

use vstd::prelude::*;

verus! {

/// How an optimization ended.
#[derive(Debug, Clone, Copy, PartialEq, Eq, Structural)]
pub enum OptimizationStatus {
    Optimal,
    Unbounded,
    Infeasible,
}

/// The result of an optimization: its status, the objective value reached
/// and a value for every variable of the model.
#[derive(Debug, Clone)]
pub struct Solution<T> {
    pub status: OptimizationStatus,
    pub objective_value: T,
    pub variables: Vec<T>,
}

/// Which columns of a standard form are basic, one per row, and which are not.
#[derive(Debug, Clone)]
pub struct SimplexBasis {
    pub basis: Vec<usize>,
    pub non_basis: Vec<usize>,
}

/// The sequence `lo, lo + 1, ..., hi - 1`.
pub open spec fn index_range(lo: int, hi: int) -> Seq<usize> {
    Seq::new((hi - lo) as nat, |i: int| (lo + i) as usize)
}

/// Each of the columns `0..num_cols` appears exactly once, either among the
/// basic columns or among the non-basic ones.
pub open spec fn partitions(basis: Seq<usize>, non_basis: Seq<usize>, num_cols: nat) -> bool {
    &&& basis.no_duplicates()
    &&& non_basis.no_duplicates()
    &&& basis.disjoint(non_basis)
    &&& forall|i: int| 0 <= i < basis.len() ==> #[trigger] basis[i] < num_cols
    &&& forall|i: int| 0 <= i < non_basis.len() ==> #[trigger] non_basis[i] < num_cols
    &&& forall|j: usize| j < num_cols ==> #[trigger] basis.contains(j) || non_basis.contains(j)
}

/// The basic and non-basic columns after column `enter` replaces the basic
/// column of row `leave_row`: the leaving column takes the place of the
/// first occurrence of `enter` in the non-basic list, which stays as it is
/// when it does not hold `enter`.
pub open spec fn pivot_seqs(basis: Seq<usize>, non_basis: Seq<usize>, leave_row: int, enter: usize) -> (
    Seq<usize>,
    Seq<usize>,
) {
    (
        basis.update(leave_row, enter),
        match non_basis.index_of_first(enter) {
            Some(p) => non_basis.update(p, basis[leave_row]),
            None => non_basis,
        },
    )
}

/// The columns `0..num_cols` that are not in `basis`, in increasing order.
pub open spec fn complement(basis: Seq<usize>, num_cols: nat) -> Seq<usize>
    decreases num_cols,
{
    if num_cols == 0 {
        Seq::empty()
    } else {
        let prev = complement(basis, (num_cols - 1) as nat);
        if basis.contains((num_cols - 1) as usize) {
            prev
        } else {
            prev.push((num_cols - 1) as usize)
        }
    }
}

/// The complement holds, in increasing order, exactly the columns below
/// `num_cols` that are not in `basis`.
proof fn lemma_complement(basis: Seq<usize>, num_cols: nat)
    requires
        num_cols <= usize::MAX + 1,
    ensures
        forall|i: int|
            0 <= i < complement(basis, num_cols).len() ==> #[trigger] complement(
                basis,
                num_cols,
            )[i] < num_cols && !basis.contains(complement(basis, num_cols)[i]),
        forall|i: int, k: int|
            0 <= i < k < complement(basis, num_cols).len() ==> #[trigger] complement(
                basis,
                num_cols,
            )[i] < #[trigger] complement(basis, num_cols)[k],
        forall|j: usize|
            j < num_cols && !basis.contains(j) ==> #[trigger] complement(basis, num_cols).contains(
                j,
            ),
    decreases num_cols,
{
    if num_cols > 0 {
        let n1 = (num_cols - 1) as nat;
        lemma_complement(basis, n1);
        let prev = complement(basis, n1);
        let cur = complement(basis, num_cols);
        assert forall|j: usize| j < num_cols && !basis.contains(j) implies #[trigger] cur.contains(j) by {
            if j < n1 {
                assert(prev.contains(j));
                let q = choose|q: int| 0 <= q < prev.len() && prev[q] == j;
                assert(cur[q] == j);
            } else {
                assert(cur[cur.len() - 1] == j);
            }
        }
    }
}

/// The first position of `x` in `s`.
fn find_position(s: &Vec<usize>, x: usize) -> (p: Option<usize>)
    ensures
        match p {
            Some(i) => i < s@.len() && s@.index_of_first(x) == Some(i as int),
            None => s@.index_of_first(x) is None,
        },
{
    let mut i: usize = 0;
    while i < s.len()
        invariant
            i <= s@.len(),
            forall|q: int| 0 <= q < i ==> s@[q] != x,
        decreases s@.len() - i,
    {
        if s[i] == x {
            proof {
                assert(s@.contains(x));
                s@.index_of_first_ensures(x);
            }
            return Some(i);
        }
        i = i + 1;
    }
    proof {
        s@.index_of_first_ensures(x);
    }
    None
}

impl SimplexBasis {
    /// The basic and non-basic columns partition the columns `0..num_cols`:
    /// each column appears exactly once in exactly one of the two lists.
    pub open spec fn wf(&self, num_cols: nat) -> bool {
        partitions(self.basis@, self.non_basis@, num_cols)
    }

    /// The basis whose basic column of row `r` is `basis[r]`, with the other
    /// columns below `num_cols` non-basic in increasing order; `None` when
    /// `basis` names a column twice or a column outside the standard form.
    pub fn from_basis(basis: &Vec<usize>, num_cols: usize) -> (r: Option<SimplexBasis>)
        ensures
            r is Some <==> (basis@.no_duplicates() && forall|i: int|
                0 <= i < basis@.len() ==> #[trigger] basis@[i] < num_cols),
            r matches Some(b) ==> {
                &&& b.basis@ == basis@
                &&& b.non_basis@ == complement(basis@, num_cols as nat)
                &&& b.wf(num_cols as nat)
            },
    {
        let mut in_basis: Vec<bool> = Vec::new();
        let mut j: usize = 0;
        while j < num_cols
            invariant
                j <= num_cols,
                in_basis@.len() == j,
                forall|q: int| 0 <= q < j ==> !#[trigger] in_basis@[q],
            decreases num_cols - j,
        {
            in_basis.push(false);
            j = j + 1;
        }
        let mut k: usize = 0;
        while k < basis.len()
            invariant
                k <= basis@.len(),
                in_basis@.len() == num_cols,
                basis@.take(k as int).no_duplicates(),
                forall|i: int| 0 <= i < k ==> #[trigger] basis@[i] < num_cols,
                forall|q: int|
                    0 <= q < num_cols ==> #[trigger] in_basis@[q] == basis@.take(
                        k as int,
                    ).contains(q as usize),
            decreases basis@.len() - k,
        {
            let col = basis[k];
            if col >= num_cols {
                return None;
            }
            if in_basis[col] {
                proof {
                    let t = choose|t: int| 0 <= t < k && basis@.take(k as int)[t] == col;
                    assert(basis@[t] == basis@[k as int]);
                }
                return None;
            }
            in_basis.set(col, true);
            proof {
                let tk = basis@.take(k as int);
                let tk1 = basis@.take(k + 1);
                assert(tk1 =~= tk.push(col));
                assert forall|q: int| 0 <= q < num_cols implies #[trigger] in_basis@[q]
                    == tk1.contains(q as usize) by {
                    if q == col {
                        assert(tk1[k as int] == col);
                    } else if tk1.contains(q as usize) {
                        let t = choose|t: int| 0 <= t < k + 1 && tk1[t] == q as usize;
                        assert(tk[t] == q as usize);
                    }
                }
            }
            k = k + 1;
        }
        assert(basis@.take(basis@.len() as int) =~= basis@);
        let mut non_basis: Vec<usize> = Vec::new();
        let mut j: usize = 0;
        while j < num_cols
            invariant
                j <= num_cols,
                in_basis@.len() == num_cols,
                forall|q: int| 0 <= q < num_cols ==> #[trigger] in_basis@[q] == basis@.contains(q as usize),
                non_basis@ == complement(basis@, j as nat),
            decreases num_cols - j,
        {
            if !in_basis[j] {
                non_basis.push(j);
            }
            j = j + 1;
        }
        let b = SimplexBasis { basis: basis.clone(), non_basis };
        proof {
            lemma_complement(basis@, num_cols as nat);
            let nb = b.non_basis@;
            assert(b.basis@ == basis@);
            assert forall|i: int, q: int|
                0 <= i < nb.len() && 0 <= q < nb.len() && i != q implies nb[i] != nb[q] by {
                if i < q {
                    assert(nb[i] < nb[q]);
                } else {
                    assert(nb[q] < nb[i]);
                }
            }
            assert forall|i: int, q: int|
                0 <= i < basis@.len() && 0 <= q < nb.len() implies basis@[i] != nb[q] by {
                if basis@[i] == nb[q] {
                    assert(basis@.contains(nb[q]));
                }
            }
        }
        Some(b)
    }

    /// Column `enter` replaces the basic column of row `leave_row`, which is
    /// returned and takes the place of `enter` among the non-basic columns.
    pub fn pivot(&mut self, leave_row: usize, enter: usize) -> (leave: usize)
        requires
            leave_row < old(self).basis@.len(),
        ensures
            leave == old(self).basis@[leave_row as int],
            (final(self).basis@, final(self).non_basis@) == pivot_seqs(
                old(self).basis@,
                old(self).non_basis@,
                leave_row as int,
                enter,
            ),
            final(self).basis@.len() == old(self).basis@.len(),
            final(self).basis@[leave_row as int] == enter,
            forall|i: int|
                0 <= i < old(self).basis@.len() && i != leave_row ==> #[trigger] final(self).basis@[i]
                    == old(self).basis@[i],
            final(self).non_basis@.len() == old(self).non_basis@.len(),
            forall|i: int|
                0 <= i < old(self).non_basis@.len() ==> #[trigger] final(self).non_basis@[i]
                    == if old(self).non_basis@[i] == enter && !old(self).non_basis@.subrange(
                    0,
                    i,
                ).contains(enter) {
                    leave
                } else {
                    old(self).non_basis@[i]
                },
    {
        let leave = self.basis[leave_row];
        self.basis.set(leave_row, enter);
        let ghost nb = self.non_basis@;
        proof {
            nb.index_of_first_ensures(enter);
        }
        match find_position(&self.non_basis, enter) {
            Some(pos) => {
                self.non_basis.set(pos, leave);
                assert forall|i: int| 0 <= i < nb.len() implies #[trigger] self.non_basis@[i] == if nb[i]
                    == enter && !nb.subrange(0, i).contains(enter) {
                    leave
                } else {
                    nb[i]
                } by {
                    if i < pos {
                        assert(nb[i] != enter);
                    } else if i > pos {
                        assert(nb.subrange(0, i)[pos as int] == enter);
                    }
                }
            },
            None => {
                assert forall|i: int| 0 <= i < nb.len() implies nb[i] != enter by {
                    if nb[i] == enter {
                        assert(nb.contains(enter));
                    }
                }
            },
        }
        leave
    }

    /// The starting basis of a standard form with `num_cols` columns and
    /// `num_constraints` rows: its last `num_constraints` columns are basic,
    /// the others are not.
    pub fn initial(num_cols: usize, num_constraints: usize) -> (b: SimplexBasis)
        requires
            num_constraints <= num_cols,
        ensures
            b.basis@ == index_range(num_cols - num_constraints, num_cols as int),
            b.non_basis@ == index_range(0, num_cols - num_constraints),
            b.wf(num_cols as nat),
            b.basis@.len() == num_constraints,
            forall|r: int|
                0 <= r < num_constraints ==> #[trigger] b.basis@[r] == num_cols - num_constraints + r,
            b.non_basis@.len() == num_cols - num_constraints,
            forall|i: int| 0 <= i < num_cols - num_constraints ==> #[trigger] b.non_basis@[i] == i,
    {
        let num_vars = num_cols - num_constraints;
        let mut basis: Vec<usize> = Vec::new();
        let mut j: usize = num_vars;
        while j < num_cols
            invariant
                num_vars <= j <= num_cols,
                basis@ == index_range(num_vars as int, j as int),
            decreases num_cols - j,
        {
            basis.push(j);
            j = j + 1;
            assert(basis@ =~= index_range(num_vars as int, j as int));
        }
        let mut non_basis: Vec<usize> = Vec::new();
        let mut j: usize = 0;
        while j < num_vars
            invariant
                j <= num_vars,
                non_basis@ == index_range(0, j as int),
            decreases num_vars - j,
        {
            non_basis.push(j);
            j = j + 1;
            assert(non_basis@ =~= index_range(0, j as int));
        }
        let b = SimplexBasis { basis, non_basis };
        assert forall|c: usize| c < num_cols implies #[trigger] b.basis@.contains(c)
            || b.non_basis@.contains(c) by {
            if c < num_vars {
                assert(b.non_basis@[c as int] == c);
            } else {
                assert(b.basis@[c - num_vars] == c);
            }
        }
        b
    }
}


/// The sequence `index_range(lo, hi)` counts up from `lo`: entry `i` is
/// `lo + i`, and there are `hi - lo` entries.
pub proof fn lemma_index_range_counts(lo: int, hi: int, i: int)
    requires
        0 <= lo <= hi <= usize::MAX + 1,
        0 <= i < hi - lo,
    ensures
        index_range(lo, hi).len() == hi - lo,
        index_range(lo, hi)[i] == lo + i,
{
}

/// A pivot on row `leave_row` changes only that row of the basis, which
/// then holds `enter`; among the non-basic columns it changes only the
/// first place that holds `enter`, which then holds the leaving column.
pub proof fn lemma_pivot_changes_one_row(
    basis: Seq<usize>,
    non_basis: Seq<usize>,
    leave_row: int,
    enter: usize,
    i: int,
)
    requires
        0 <= leave_row < basis.len(),
    ensures
        pivot_seqs(basis, non_basis, leave_row, enter).0.len() == basis.len(),
        pivot_seqs(basis, non_basis, leave_row, enter).0[leave_row] == enter,
        0 <= i < basis.len() && i != leave_row ==> pivot_seqs(basis, non_basis, leave_row, enter).0[i]
            == basis[i],
        pivot_seqs(basis, non_basis, leave_row, enter).1.len() == non_basis.len(),
        0 <= i < non_basis.len() ==> pivot_seqs(basis, non_basis, leave_row, enter).1[i] == if non_basis[i]
            == enter && !non_basis.subrange(0, i).contains(enter) {
            basis[leave_row]
        } else {
            non_basis[i]
        },
{
    non_basis.index_of_first_ensures(enter);
    if 0 <= i < non_basis.len() {
        match non_basis.index_of_first(enter) {
            Some(p) => {
                if i > p {
                    assert(non_basis.subrange(0, i)[p] == enter);
                }
            },
            None => {
                if non_basis[i] == enter {
                    assert(non_basis.contains(enter));
                }
            },
        }
    }
}

/// A pivot on a column that is not basic keeps the basic and non-basic
/// columns a partition of all columns.
pub proof fn lemma_pivot_keeps_partition(
    basis: Seq<usize>,
    non_basis: Seq<usize>,
    num_cols: nat,
    leave_row: int,
    enter: usize,
)
    requires
        partitions(basis, non_basis, num_cols),
        0 <= leave_row < basis.len(),
        non_basis.contains(enter),
    ensures
        partitions(
            pivot_seqs(basis, non_basis, leave_row, enter).0,
            pivot_seqs(basis, non_basis, leave_row, enter).1,
            num_cols,
        ),
{
    non_basis.index_of_first_ensures(enter);
    let p = non_basis.index_of_first(enter).unwrap();
    let leave = basis[leave_row];
    let b2 = basis.update(leave_row, enter);
    let n2 = non_basis.update(p, leave);
    assert(pivot_seqs(basis, non_basis, leave_row, enter) == (b2, n2));
    assert forall|j: usize| j < num_cols implies #[trigger] b2.contains(j) || n2.contains(j) by {
        if j == leave {
            assert(n2[p] == j);
        } else if j == enter {
            assert(b2[leave_row] == j);
        } else if basis.contains(j) {
            let i = choose|i: int| 0 <= i < basis.len() && basis[i] == j;
            assert(b2[i] == j);
        } else {
            assert(non_basis.contains(j));
            let q = choose|q: int| 0 <= q < non_basis.len() && non_basis[q] == j;
            assert(n2[q] == j);
        }
    }
    assert forall|i: int, k: int| 0 <= i < b2.len() && 0 <= k < n2.len() implies b2[i] != n2[k] by {
        if i == leave_row && k != p {
            assert(non_basis[k] != non_basis[p]);
        }
        if i != leave_row && k == p {
            assert(basis[i] != basis[leave_row]);
        }
        if i == leave_row && k == p {
            assert(basis[leave_row] != non_basis[p]);
        }
    }
    assert forall|i: int, k: int| 0 <= i < b2.len() && 0 <= k < b2.len() && i != k implies b2[i] != b2[k] by {
        if i == leave_row {
            assert(basis[k] != non_basis[p]);
        }
        if k == leave_row {
            assert(basis[i] != non_basis[p]);
        }
    }
    assert forall|i: int, k: int| 0 <= i < n2.len() && 0 <= k < n2.len() && i != k implies n2[i] != n2[k] by {
        if i == p {
            assert(basis[leave_row] != non_basis[k]);
        }
        if k == p {
            assert(basis[leave_row] != non_basis[i]);
        }
    }
}

/// Pivoting the leaving column straight back in undoes a pivot.
pub proof fn lemma_pivot_undo(
    basis: Seq<usize>,
    non_basis: Seq<usize>,
    num_cols: nat,
    leave_row: int,
    enter: usize,
)
    requires
        partitions(basis, non_basis, num_cols),
        0 <= leave_row < basis.len(),
        non_basis.contains(enter),
    ensures
        pivot_seqs(
            pivot_seqs(basis, non_basis, leave_row, enter).0,
            pivot_seqs(basis, non_basis, leave_row, enter).1,
            leave_row,
            basis[leave_row],
        ) == (basis, non_basis),
{
    non_basis.index_of_first_ensures(enter);
    let p = non_basis.index_of_first(enter).unwrap();
    let leave = basis[leave_row];
    let b2 = basis.update(leave_row, enter);
    let n2 = non_basis.update(p, leave);
    assert(pivot_seqs(basis, non_basis, leave_row, enter) == (b2, n2));
    n2.index_of_first_ensures(leave);
    assert(n2[p] == leave);
    assert(n2.contains(leave));
    let p2 = n2.index_of_first(leave).unwrap();
    assert forall|q: int| 0 <= q < n2.len() && q != p implies n2[q] != leave by {
        assert(non_basis[q] != basis[leave_row]);
    }
    assert(p2 == p);
    assert(b2.update(leave_row, leave) =~= basis);
    assert(n2.update(p, enter) =~= non_basis);
}


/// The value that a basic solution gives column `j`: the entry of `x_b` for
/// the last row whose basic column is `j`, and `zero` when no row has it.
pub open spec fn basic_value<T>(basis: Seq<usize>, x_b: Seq<T>, j: int, zero: T) -> T
    decreases basis.len(),
{
    if basis.len() == 0 {
        zero
    } else if basis.last() == j {
        x_b[basis.len() - 1]
    } else {
        basic_value(basis.drop_last(), x_b, j, zero)
    }
}

/// The values of the first `num_vars` columns in the basic solution whose
/// basic columns are `basis` and whose basic values are `x_b`, row by row.
pub fn basic_values<T: Copy>(basis: &Vec<usize>, x_b: &Vec<T>, num_vars: usize, zero: T) -> (values:
    Vec<T>)
    requires
        basis@.len() <= x_b@.len(),
    ensures
        values@.len() == num_vars,
        forall|j: int|
            0 <= j < num_vars ==> #[trigger] values@[j] == basic_value(basis@, x_b@, j, zero),
{
    let mut values: Vec<T> = Vec::new();
    let mut j: usize = 0;
    while j < num_vars
        invariant
            j <= num_vars,
            values@.len() == j,
            forall|q: int| 0 <= q < j ==> #[trigger] values@[q] == zero,
        decreases num_vars - j,
    {
        values.push(zero);
        j = j + 1;
    }
    let mut row: usize = 0;
    while row < basis.len()
        invariant
            row <= basis@.len(),
            basis@.len() <= x_b@.len(),
            values@.len() == num_vars,
            forall|q: int|
                0 <= q < num_vars ==> #[trigger] values@[q] == basic_value(
                    basis@.take(row as int),
                    x_b@,
                    q,
                    zero,
                ),
        decreases basis@.len() - row,
    {
        let var_idx = basis[row];
        if var_idx < num_vars {
            values.set(var_idx, x_b[row]);
        }
        proof {
            assert(basis@.take(row + 1).drop_last() =~= basis@.take(row as int));
            assert(basis@.take(row + 1).last() == var_idx);
        }
        row = row + 1;
    }
    assert(basis@.take(basis@.len() as int) =~= basis@);
    values
}

/// When no column is basic in two rows, a column that is basic in row `r`
/// takes the value of row `r`.
pub proof fn lemma_basic_value_of_row<T>(basis: Seq<usize>, x_b: Seq<T>, r: int, zero: T)
    requires
        basis.no_duplicates(),
        0 <= r < basis.len(),
    ensures
        basic_value(basis, x_b, basis[r] as int, zero) == x_b[r],
    decreases basis.len(),
{
    if r < basis.len() - 1 {
        let d = basis.drop_last();
        assert(d[r] == basis[r]);
        assert(basis.last() != basis[r]);
        lemma_basic_value_of_row(d, x_b, r, zero);
    }
}


/// A column that is basic in no row takes the value `zero`.
pub proof fn lemma_basic_value_of_nonbasic<T>(basis: Seq<usize>, x_b: Seq<T>, j: int, zero: T)
    requires
        forall|r: int| 0 <= r < basis.len() ==> basis[r] != j,
    ensures
        basic_value(basis, x_b, j, zero) == zero,
    decreases basis.len(),
{
    if basis.len() > 0 {
        lemma_basic_value_of_nonbasic(basis.drop_last(), x_b, j, zero);
    }
}

} // verus!
