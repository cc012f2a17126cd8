use qff::fit::{derivative_terms, flatten_rows, regression_layout, FittingError};

#[test]
fn flatten_concatenates_rows() {
    let rows: Vec<Vec<isize>> = vec![vec![1, -2], vec![], vec![3]];
    assert_eq!(flatten_rows(&rows), vec![1, -2, 3]);
}

#[test]
fn layout_of_a_determined_problem() {
    let disps = vec![vec![0, 0], vec![1, 0], vec![0, -1], vec![2, 1]];
    let terms = vec![vec![0, 0], vec![2, 0], vec![0, 2]];
    let l = regression_layout(&disps, &terms, 4).unwrap();
    assert_eq!((l.n_samples, l.n_coords, l.n_terms), (4, 2, 3));
    assert_eq!(l.steps, vec![0, 0, 1, 0, 0, -1, 2, 1]);
    assert_eq!(l.exponents, vec![0, 0, 2, 0, 0, 2]);
}

#[test]
fn layout_errors() {
    let disps = vec![vec![0, 0], vec![1, 0]];
    let terms = vec![vec![0, 0], vec![2, 0]];
    assert_eq!(regression_layout(&vec![], &terms, 0).err(), Some(FittingError::NoSamples));
    assert_eq!(
        regression_layout(&vec![vec![], vec![]], &terms, 2).err(),
        Some(FittingError::NoCoordinates)
    );
    assert_eq!(regression_layout(&disps, &vec![], 2).err(), Some(FittingError::NoTerms));
    assert_eq!(
        regression_layout(&vec![vec![0, 0], vec![1]], &terms, 2).err(),
        Some(FittingError::RaggedDisplacements)
    );
    assert_eq!(
        regression_layout(&disps, &vec![vec![0, 0], vec![2]], 2).err(),
        Some(FittingError::RaggedTerms)
    );
    assert_eq!(
        regression_layout(&disps, &terms, 3).err(),
        Some(FittingError::EnergyCount { samples: 2, energies: 3 })
    );
    let three = vec![vec![0, 0], vec![2, 0], vec![0, 2]];
    assert_eq!(
        regression_layout(&disps, &three, 2).err(),
        Some(FittingError::Underdetermined { samples: 2, terms: 3 })
    );
}

#[test]
fn derivative_terms_drop_constant_and_first_order() {
    let fcs = vec![
        (0, 0, 0, 0, 1.5),
        (1, 0, 0, 0, 0.25),
        (1, 1, 0, 0, 0.5),
        (2, 1, 1, 0, -0.75),
        (1, 0, 0, 0, 3.0),
        (3, 2, 1, 1, 0.125),
    ];
    assert_eq!(
        derivative_terms(&fcs),
        vec![(1, 1, 0, 0, 0.5), (2, 1, 1, 0, -0.75), (3, 2, 1, 1, 0.125)]
    );
}

#[test]
fn derivative_terms_empty() {
    let fcs: Vec<(usize, usize, usize, usize, f64)> = vec![];
    assert!(derivative_terms(&fcs).is_empty());
}
