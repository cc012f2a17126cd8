use qff::checks::{irrep_in_group, make_taylor_checks, symmetry_checks, Checks, ClassRange, ClassificationError};
use qff::irrep::{irrep_rank, sort_by_irrep, unit_steps, Irrep, PointGroup};

fn range(first: usize, last: usize) -> ClassRange {
    ClassRange { first, last }
}

#[test]
fn unit_steps_one_per_coordinate() {
    let d = unit_steps(3);
    assert_eq!(d, vec![vec![1, 0, 0], vec![0, 1, 0], vec![0, 0, 1]]);
}

#[test]
fn unit_steps_empty() {
    assert!(unit_steps(0).is_empty());
}

#[test]
fn ranks_follow_declaration_order() {
    assert_eq!(irrep_rank(Irrep::A), 0);
    assert_eq!(irrep_rank(Irrep::A1), 4);
    assert_eq!(irrep_rank(Irrep::A2), 7);
}

#[test]
fn sort_groups_by_irrep_and_keeps_index_order() {
    let irreps = vec![Irrep::B2, Irrep::A1, Irrep::B1, Irrep::A1, Irrep::B2];
    let sorted = sort_by_irrep(&irreps);
    assert_eq!(
        sorted,
        vec![
            (1, Irrep::A1),
            (3, Irrep::A1),
            (2, Irrep::B1),
            (0, Irrep::B2),
            (4, Irrep::B2),
        ]
    );
}

#[test]
fn sort_is_a_permutation_of_the_coordinates() {
    let irreps = vec![Irrep::A2, Irrep::B1, Irrep::A1, Irrep::B2, Irrep::B1, Irrep::A1];
    let sorted = sort_by_irrep(&irreps);
    assert_eq!(sorted.len(), irreps.len());
    let mut seen: Vec<usize> = sorted.iter().map(|p| p.0).collect();
    seen.sort();
    assert_eq!(seen, vec![0, 1, 2, 3, 4, 5]);
    for (i, x) in &sorted {
        assert_eq!(irreps[*i], *x);
    }
}

#[test]
fn sort_empty() {
    assert!(sort_by_irrep(&vec![]).is_empty());
}

#[test]
fn c2v_checks_record_first_and_last_index() {
    let pairs = vec![
        (1, Irrep::A1),
        (3, Irrep::A1),
        (2, Irrep::B1),
        (0, Irrep::B2),
        (4, Irrep::B2),
    ];
    let want = Checks { b1: range(3, 3), b2: range(1, 5), a2: range(0, 0) };
    assert_eq!(make_taylor_checks(&pairs, PointGroup::C2v), Ok((Some(want), Some(want))));
}

#[test]
fn c2v_checks_ranges_are_ordered() {
    let irreps = vec![Irrep::A1, Irrep::B2, Irrep::A2, Irrep::B2, Irrep::B1, Irrep::A2, Irrep::B2];
    let (a, b) = symmetry_checks(&irreps, PointGroup::C2v).unwrap();
    let a = a.unwrap();
    assert_eq!(Some(a), b);
    assert_eq!(a.b1, range(5, 5));
    assert_eq!(a.b2, range(2, 7));
    assert_eq!(a.a2, range(3, 6));
    for r in [a.b1, a.b2, a.a2] {
        assert!(r.first <= r.last);
    }
}

#[test]
fn c1_has_no_checks() {
    let pairs = vec![(0, Irrep::A), (1, Irrep::A)];
    assert_eq!(make_taylor_checks(&pairs, PointGroup::C1), Ok((None, None)));
}

#[test]
fn unsupported_point_groups_fail() {
    let pairs = vec![(0, Irrep::Ap)];
    assert_eq!(
        make_taylor_checks(&pairs, PointGroup::Cs),
        Err(ClassificationError::UnsupportedPointGroup(PointGroup::Cs))
    );
    assert_eq!(
        make_taylor_checks(&pairs, PointGroup::C2),
        Err(ClassificationError::UnsupportedPointGroup(PointGroup::C2))
    );
}

#[test]
fn foreign_irrep_in_c2v_fails() {
    let pairs = vec![(0, Irrep::A1), (2, Irrep::Ap), (1, Irrep::App)];
    assert_eq!(
        make_taylor_checks(&pairs, PointGroup::C2v),
        Err(ClassificationError::ForeignIrrep { index: 2, irrep: Irrep::Ap })
    );
}

#[test]
fn c2v_all_symmetric_gives_empty_ranges() {
    let irreps = vec![Irrep::A1, Irrep::A1, Irrep::A1];
    let zero = range(0, 0);
    let want = Checks { b1: zero, b2: zero, a2: zero };
    assert_eq!(symmetry_checks(&irreps, PointGroup::C2v), Ok((Some(want), Some(want))));
}

#[test]
fn foreign_irrep_in_c1_fails() {
    let irreps = vec![Irrep::A, Irrep::B1, Irrep::A];
    assert_eq!(
        symmetry_checks(&irreps, PointGroup::C1),
        Err(ClassificationError::ForeignIrrep { index: 1, irrep: Irrep::B1 })
    );
    let pairs = vec![(0, Irrep::A), (2, Irrep::Ap), (1, Irrep::A)];
    assert_eq!(
        make_taylor_checks(&pairs, PointGroup::C1),
        Err(ClassificationError::ForeignIrrep { index: 2, irrep: Irrep::Ap })
    );
}

#[test]
fn other_point_groups_are_unsupported() {
    let pairs = vec![(0, Irrep::A1)];
    assert_eq!(
        make_taylor_checks(&pairs, PointGroup::Other),
        Err(ClassificationError::UnsupportedPointGroup(PointGroup::Other))
    );
}

#[test]
fn group_membership() {
    assert!(irrep_in_group(PointGroup::C1, Irrep::A));
    assert!(!irrep_in_group(PointGroup::C1, Irrep::B1));
    assert!(irrep_in_group(PointGroup::C2v, Irrep::A2));
    assert!(!irrep_in_group(PointGroup::C2v, Irrep::Ap));
    assert!(irrep_in_group(PointGroup::Cs, Irrep::App));
    assert!(!irrep_in_group(PointGroup::Other, Irrep::A));
}
