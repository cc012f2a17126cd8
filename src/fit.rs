//! Layout of the least-squares problem handed to the polynomial solver, and
//! selection of the fitted terms that are genuine force constants.

use vstd::prelude::*;

verus! {

/// Views of the rows of a table.
pub open spec fn rows_view<T>(rows: Seq<Vec<T>>) -> Seq<Seq<T>> {
    rows.map_values(|r: Vec<T>| r@)
}

/// Concatenates the rows of `rows` in order.
pub fn flatten_rows<T: Copy>(rows: &Vec<Vec<T>>) -> (r: Vec<T>)
    ensures
        r@ == rows_view(rows@).flatten(),
{
    let mut out: Vec<T> = Vec::new();
    let mut i: usize = 0;
    while i < rows.len()
        invariant
            i <= rows.len(),
            out@ == rows_view(rows@).take(i as int).flatten_alt(),
        decreases rows.len() - i,
    {
        let row = &rows[i];
        let ghost base = out@;
        let mut j: usize = 0;
        while j < row.len()
            invariant
                j <= row.len(),
                out@ == base + row@.take(j as int),
            decreases row.len() - j,
        {
            out.push(row[j]);
            assert(row@.take(j + 1) == row@.take(j as int).push(row@[j as int]));
            j += 1;
        }
        proof {
            let v = rows_view(rows@);
            assert(row@.take(row.len() as int) == row@);
            assert(v.take(i + 1).drop_last() == v.take(i as int));
            assert(v.take(i + 1).last() == row@);
        }
        i += 1;
    }
    proof {
        let v = rows_view(rows@);
        assert(v.take(rows.len() as int) == v);
        v.lemma_flatten_and_flatten_alt_are_equivalent();
    }
    out
}

/// Concatenating rows that all have width `w` lays out a matrix row by row:
/// the result has `rows.len() * w` entries, and entry `(i, j)` sits at
/// `i * w + j`.
pub proof fn lemma_flatten_row_major<T>(rows: Seq<Seq<T>>, w: nat)
    requires
        forall|i: int| 0 <= i < rows.len() ==> (#[trigger] rows[i]).len() == w,
    ensures
        rows.flatten().len() == rows.len() * w,
        forall|i: int, j: int|
            0 <= i < rows.len() && 0 <= j < w ==> rows.flatten()[i * w + j] == #[trigger] rows[i][j],
    decreases rows.len(),
{
    if rows.len() > 0 {
        let rest = rows.drop_first();
        assert forall|i: int| 0 <= i < rest.len() implies (#[trigger] rest[i]).len() == w by {
            assert(rest[i] == rows[i + 1]);
        }
        lemma_flatten_row_major(rest, w);
        let f = rows.flatten();
        assert(f == rows[0] + rest.flatten());
        assert(rows.len() * w == w + rest.len() * w) by (nonlinear_arith)
            requires
                rest.len() == rows.len() - 1,
        ;
        assert forall|i: int, j: int| 0 <= i < rows.len() && 0 <= j < w implies rows.flatten()[i
            * w + j] == #[trigger] rows[i][j] by {
            if i == 0 {
                assert(i * w + j == j) by (nonlinear_arith)
                    requires
                        i == 0,
                ;
                assert(f[j] == rows[0][j]);
            } else {
                assert(i * w + j == w + ((i - 1) * w + j)) by (nonlinear_arith);
                assert((i - 1) * w + j < rest.len() * w) by (nonlinear_arith)
                    requires
                        0 <= i - 1 < rest.len(),
                        0 <= j < w,
                ;
                assert(0 <= (i - 1) * w) by (nonlinear_arith)
                    requires
                        i >= 1,
                ;
                assert(rest[i - 1] == rows[i]);
                assert(rest.flatten()[(i - 1) * w + j] == rest[i - 1][j]);
                assert(f[w + ((i - 1) * w + j)] == rest.flatten()[(i - 1) * w + j]);
            }
        }
    }
}

/// Why the regression problem cannot be set up.
#[derive(Clone, Copy, Debug, PartialEq, Eq, Structural)]
pub enum FittingError {
    /// There are no displacements.
    NoSamples,
    /// The displacements have no coordinates.
    NoCoordinates,
    /// There are no polynomial terms.
    NoTerms,
    /// Some displacement has another number of coordinates than the first.
    RaggedDisplacements,
    /// Some term's exponent row does not have one entry per coordinate.
    RaggedTerms,
    /// The energies do not pair one for one with the displacements.
    EnergyCount { samples: usize, energies: usize },
    /// Fewer samples than terms: the coefficients are not determined.
    Underdetermined { samples: usize, terms: usize },
}

/// The regression problem in integer form. `steps` is the design matrix
/// row by row (one row per sample, one column per coordinate, in step
/// counts); `exponents` is the exponent matrix column by column (one column
/// per term, one row per coordinate).
pub struct RegressionLayout {
    pub n_samples: usize,
    pub n_coords: usize,
    pub n_terms: usize,
    pub steps: Vec<isize>,
    pub exponents: Vec<usize>,
}

/// The error, if any, that rules out a regression over displacements `d`,
/// term exponent rows `t` and `n_energies` energies; checked in this order.
pub open spec fn fit_error(d: Seq<Seq<isize>>, t: Seq<Seq<usize>>, n_energies: nat) -> Option<
    FittingError,
> {
    if d.len() == 0 {
        Some(FittingError::NoSamples)
    } else if d[0].len() == 0 {
        Some(FittingError::NoCoordinates)
    } else if t.len() == 0 {
        Some(FittingError::NoTerms)
    } else if exists|k: int| 0 <= k < d.len() && (#[trigger] d[k]).len() != d[0].len() {
        Some(FittingError::RaggedDisplacements)
    } else if exists|k: int| 0 <= k < t.len() && (#[trigger] t[k]).len() != d[0].len() {
        Some(FittingError::RaggedTerms)
    } else if n_energies != d.len() {
        Some(
            FittingError::EnergyCount { samples: d.len() as usize, energies: n_energies as usize },
        )
    } else if d.len() < t.len() {
        Some(FittingError::Underdetermined { samples: d.len() as usize, terms: t.len() as usize })
    } else {
        None
    }
}

/// Checks that the displacements `disps` (in step counts), the term
/// exponent rows `terms` and `n_energies` energies form a determined
/// regression problem, and lays it out for the solver.
pub fn regression_layout(disps: &Vec<Vec<isize>>, terms: &Vec<Vec<usize>>, n_energies: usize) -> (r:
    Result<RegressionLayout, FittingError>)
    ensures
        fit_error(rows_view(disps@), rows_view(terms@), n_energies as nat) is Some ==> r == Err::<
            RegressionLayout,
            FittingError,
        >(fit_error(rows_view(disps@), rows_view(terms@), n_energies as nat)->Some_0),
        fit_error(rows_view(disps@), rows_view(terms@), n_energies as nat) is None ==> (r matches Ok(
            l,
        ) && l.n_samples == disps.len() && l.n_coords == disps@[0].len() && l.n_terms
            == terms.len() && l.steps@ == rows_view(disps@).flatten() && l.exponents@ == rows_view(
            terms@,
        ).flatten() && l.steps@.len() == l.n_samples * l.n_coords && l.exponents@.len() == l.n_terms
            * l.n_coords && (forall|i: int, j: int|
            0 <= i < l.n_samples && 0 <= j < l.n_coords ==> l.steps@[i * l.n_coords + j]
                == #[trigger] disps@[i]@[j]) && (forall|t: int, c: int|
            0 <= t < l.n_terms && 0 <= c < l.n_coords ==> l.exponents@[t * l.n_coords + c]
                == #[trigger] terms@[t]@[c])),
{
    let ghost d = rows_view(disps@);
    let ghost t = rows_view(terms@);
    if disps.len() == 0 {
        return Err(FittingError::NoSamples);
    }
    let width = disps[0].len();
    assert(d[0] == disps@[0]@);
    if width == 0 {
        return Err(FittingError::NoCoordinates);
    }
    if terms.len() == 0 {
        return Err(FittingError::NoTerms);
    }
    let mut k: usize = 0;
    while k < disps.len()
        invariant
            k <= disps.len(),
            d == rows_view(disps@),
            width == d[0].len(),
            width > 0,
            terms.len() > 0,
            forall|j: int| 0 <= j < k ==> (#[trigger] d[j]).len() == width,
        decreases disps.len() - k,
    {
        assert(d[k as int] == disps@[k as int]@);
        if disps[k].len() != width {
            return Err(FittingError::RaggedDisplacements);
        }
        k += 1;
    }
    k = 0;
    while k < terms.len()
        invariant
            k <= terms.len(),
            t == rows_view(terms@),
            d == rows_view(disps@),
            disps.len() > 0,
            width == d[0].len(),
            width > 0,
            forall|j: int| 0 <= j < disps.len() ==> (#[trigger] d[j]).len() == width,
            forall|j: int| 0 <= j < k ==> (#[trigger] t[j]).len() == width,
        decreases terms.len() - k,
    {
        assert(t[k as int] == terms@[k as int]@);
        if terms[k].len() != width {
            return Err(FittingError::RaggedTerms);
        }
        k += 1;
    }
    if n_energies != disps.len() {
        return Err(FittingError::EnergyCount { samples: disps.len(), energies: n_energies });
    }
    if disps.len() < terms.len() {
        return Err(FittingError::Underdetermined { samples: disps.len(), terms: terms.len() });
    }
    let steps = flatten_rows(disps);
    let exponents = flatten_rows(terms);
    proof {
        lemma_flatten_row_major(d, width as nat);
        lemma_flatten_row_major(t, width as nat);
        assert forall|i: int, j: int| 0 <= i < disps.len() && 0 <= j < width implies steps@[i
            * width + j] == #[trigger] disps@[i]@[j] by {
            assert(d[i] == disps@[i]@);
            assert(d[i][j] == disps@[i]@[j]);
        }
        assert forall|i: int, j: int| 0 <= i < terms.len() && 0 <= j < width implies exponents@[i
            * width + j] == #[trigger] terms@[i]@[j] by {
            assert(t[i] == terms@[i]@);
            assert(t[i][j] == terms@[i]@[j]);
        }
    }
    Ok(
        RegressionLayout {
            n_samples: disps.len(),
            n_coords: width,
            n_terms: terms.len(),
            steps,
            exponents,
        },
    )
}

/// A fitted term `(i, j, k, l, value)` is a force constant unless its last
/// three indices are all zero (the constant and first-derivative terms).
pub open spec fn is_force_constant<T>(f: (usize, usize, usize, usize, T)) -> bool {
    !(f.1 == 0 && f.2 == 0 && f.3 == 0)
}

/// The force constants among the fitted terms `s`, in order.
pub open spec fn force_constants<T>(s: Seq<(usize, usize, usize, usize, T)>) -> Seq<
    (usize, usize, usize, usize, T),
>
    decreases s.len(),
{
    if s.len() == 0 {
        seq![]
    } else if is_force_constant(s.last()) {
        force_constants(s.drop_last()).push(s.last())
    } else {
        force_constants(s.drop_last())
    }
}

/// Keeps the fitted terms that are force constants, in order.
pub fn derivative_terms<T: Copy>(fcs: &Vec<(usize, usize, usize, usize, T)>) -> (r: Vec<
    (usize, usize, usize, usize, T),
>)
    ensures
        r@ == force_constants(fcs@),
{
    let mut out: Vec<(usize, usize, usize, usize, T)> = Vec::new();
    let mut i: usize = 0;
    while i < fcs.len()
        invariant
            i <= fcs.len(),
            out@ == force_constants(fcs@.take(i as int)),
        decreases fcs.len() - i,
    {
        let f = fcs[i];
        assert(fcs@.take(i + 1).drop_last() == fcs@.take(i as int));
        if !(f.1 == 0 && f.2 == 0 && f.3 == 0) {
            out.push(f);
        }
        i += 1;
    }
    assert(fcs@.take(fcs.len() as int) == fcs@);
    out
}

} // verus!
