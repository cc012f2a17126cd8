//! The symmetry checks table that tells the Taylor term generator which
//! coordinate blocks are equivalent.

use vstd::prelude::*;
use crate::irrep::{Irrep, PointGroup, key_lt, sort_by_irrep, sorted_by_irrep};

verus! {

/// First and last 1-based coordinate index recorded for one irrep class;
/// `(0, 0)` while the class has not been seen.
#[derive(Clone, Copy, Debug, PartialEq, Eq, Structural)]
pub struct ClassRange {
    pub first: usize,
    pub last: usize,
}

/// Index ranges of the three non-symmetric irrep classes of C2v, in the row
/// order that the Taylor term generator expects: B1, B2, A2.
#[derive(Clone, Copy, Debug, PartialEq, Eq, Structural)]
pub struct Checks {
    pub b1: ClassRange,
    pub b2: ClassRange,
    pub a2: ClassRange,
}

/// Why a displaced geometry's symmetry cannot be turned into checks.
#[derive(Clone, Copy, Debug, PartialEq, Eq, Structural)]
pub enum ClassificationError {
    /// The point group has no checks builder.
    UnsupportedPointGroup(PointGroup),
    /// The coordinate `index` was classified as an irrep outside the group.
    ForeignIrrep { index: usize, irrep: Irrep },
}

/// The irreps of C2v.
pub open spec fn is_c2v_irrep(x: Irrep) -> bool {
    x == Irrep::A1 || x == Irrep::B1 || x == Irrep::B2 || x == Irrep::A2
}

/// The range recorded for class `c` after scanning `s` in order: the first
/// occurrence sets both ends to its 1-based index, later ones extend the
/// last end when they lie beyond it.
pub open spec fn class_range(s: Seq<(usize, Irrep)>, c: Irrep) -> ClassRange
    decreases s.len(),
{
    if s.len() == 0 {
        ClassRange { first: 0, last: 0 }
    } else {
        let prev = class_range(s.drop_last(), c);
        let i = s.last().0;
        if s.last().1 != c {
            prev
        } else if prev.first == 0 {
            ClassRange { first: (i + 1) as usize, last: (i + 1) as usize }
        } else if i + 1 > prev.last {
            ClassRange { first: prev.first, last: (i + 1) as usize }
        } else {
            prev
        }
    }
}

/// The checks table of a scan over `s`.
pub open spec fn checks_of(s: Seq<(usize, Irrep)>) -> Checks {
    Checks {
        b1: class_range(s, Irrep::B1),
        b2: class_range(s, Irrep::B2),
        a2: class_range(s, Irrep::A2),
    }
}

/// Every coordinate index in `s` leaves room for its 1-based form.
pub open spec fn indices_fit(s: Seq<(usize, Irrep)>) -> bool {
    forall|k: int| 0 <= k < s.len() ==> (#[trigger] s[k]).0 < usize::MAX
}

/// The irreps of point group `pg`.
pub open spec fn in_group(pg: PointGroup, x: Irrep) -> bool {
    match pg {
        PointGroup::C1 => x == Irrep::A,
        PointGroup::C2 => x == Irrep::A || x == Irrep::B,
        PointGroup::Cs => x == Irrep::Ap || x == Irrep::App,
        PointGroup::C2v => is_c2v_irrep(x),
        PointGroup::Other => false,
    }
}

/// Position of the first pair of `s` whose irrep lies outside `pg`.
pub open spec fn first_foreign(s: Seq<(usize, Irrep)>, pg: PointGroup, k: int) -> bool {
    &&& 0 <= k < s.len()
    &&& !in_group(pg, s[k].1)
    &&& forall|j: int| 0 <= j < k ==> in_group(pg, #[trigger] s[j].1)
}

/// The outcome of building checks for `pg` from the pairs `s`.
pub open spec fn checks_outcome(s: Seq<(usize, Irrep)>, pg: PointGroup) -> Result<
    (Option<Checks>, Option<Checks>),
    ClassificationError,
> {
    match pg {
        PointGroup::C1 | PointGroup::C2v => if exists|k: int| first_foreign(s, pg, k) {
            let k = choose|k: int| first_foreign(s, pg, k);
            Err(ClassificationError::ForeignIrrep { index: s[k].0, irrep: s[k].1 })
        } else if pg == PointGroup::C1 {
            Ok((None, None))
        } else {
            Ok((Some(checks_of(s)), Some(checks_of(s))))
        },
        _ => Err(ClassificationError::UnsupportedPointGroup(pg)),
    }
}

proof fn lemma_first_foreign_unique(s: Seq<(usize, Irrep)>, pg: PointGroup, k1: int, k2: int)
    requires
        first_foreign(s, pg, k1),
        first_foreign(s, pg, k2),
    ensures
        k1 == k2,
{
}

/// Number of pairs of `s` in class `c`.
pub open spec fn class_count(s: Seq<(usize, Irrep)>, c: Irrep) -> nat
    decreases s.len(),
{
    if s.len() == 0 {
        0
    } else {
        class_count(s.drop_last(), c) + if s.last().1 == c { 1nat } else { 0nat }
    }
}

/// For every irrep class, the recorded range is ordered (`first <= last`);
/// a class that never occurs stays `(0, 0)`; one seen at least once has a
/// positive first end, every occurrence lies at or below the last end, and a
/// class with a single occurrence has `first == last`.
pub proof fn lemma_class_range_ordered(s: Seq<(usize, Irrep)>, c: Irrep)
    requires
        indices_fit(s),
    ensures
        class_range(s, c).first <= class_range(s, c).last,
        class_count(s, c) == 0 <==> class_range(s, c) == (ClassRange { first: 0, last: 0 }),
        class_count(s, c) > 0 ==> class_range(s, c).first > 0,
        forall|k: int|
            0 <= k < s.len() && (#[trigger] s[k]).1 == c ==> s[k].0 + 1 <= class_range(s, c).last,
        class_count(s, c) == 1 ==> class_range(s, c).first == class_range(s, c).last,
    decreases s.len(),
{
    if s.len() > 0 {
        let t = s.drop_last();
        assert forall|k: int| 0 <= k < t.len() implies (#[trigger] t[k]).0 < usize::MAX by {
            assert(t[k] == s[k]);
        }
        lemma_class_range_ordered(t, c);
        assert forall|k: int|
            0 <= k < s.len() && (#[trigger] s[k]).1 == c implies s[k].0 + 1 <= class_range(
            s,
            c,
        ).last by {
            if k < t.len() {
                assert(t[k] == s[k]);
            }
        }
    }
}

/// Over pairs ordered by index within class `c` (as [`sort_by_irrep`] leaves
/// them), the range recorded for a class that occurs is exactly its least
/// and greatest 1-based coordinate index.
pub proof fn lemma_class_range_is_min_max(s: Seq<(usize, Irrep)>, c: Irrep)
    requires
        indices_fit(s),
        forall|k1: int, k2: int|
            0 <= k1 < k2 < s.len() && s[k1].1 == c && s[k2].1 == c ==> (#[trigger] s[k1]).0
                < (#[trigger] s[k2]).0,
    ensures
        class_count(s, c) > 0 ==> exists|k: int|
            0 <= k < s.len() && (#[trigger] s[k]).1 == c && s[k].0 + 1 == class_range(s, c).first,
        class_count(s, c) > 0 ==> exists|k: int|
            0 <= k < s.len() && (#[trigger] s[k]).1 == c && s[k].0 + 1 == class_range(s, c).last,
        forall|k: int|
            0 <= k < s.len() && (#[trigger] s[k]).1 == c ==> class_range(s, c).first <= s[k].0 + 1
                <= class_range(s, c).last,
    decreases s.len(),
{
    lemma_class_range_ordered(s, c);
    if s.len() > 0 {
        let t = s.drop_last();
        let n = s.len() - 1;
        assert forall|k: int| 0 <= k < t.len() implies (#[trigger] t[k]).0 < usize::MAX by {
            assert(t[k] == s[k]);
        }
        assert forall|k1: int, k2: int|
            0 <= k1 < k2 < t.len() && t[k1].1 == c && t[k2].1 == c implies (#[trigger] t[k1]).0
            < (#[trigger] t[k2]).0 by {
            assert(t[k1] == s[k1] && t[k2] == s[k2]);
        }
        lemma_class_range_is_min_max(t, c);
        lemma_class_range_ordered(t, c);
        if class_count(t, c) > 0 {
            let kf = choose|k: int|
                0 <= k < t.len() && (#[trigger] t[k]).1 == c && t[k].0 + 1 == class_range(t, c).first;
            let kl = choose|k: int|
                0 <= k < t.len() && (#[trigger] t[k]).1 == c && t[k].0 + 1 == class_range(t, c).last;
            assert(t[kf] == s[kf] && t[kl] == s[kl]);
            if s[n].1 == c {
                assert(s[kl].0 < s[n].0);
                assert(s[n].0 + 1 == class_range(s, c).last);
            }
        }
        assert forall|k: int| 0 <= k < s.len() && (#[trigger] s[k]).1 == c implies class_range(
            s,
            c,
        ).first <= s[k].0 + 1 <= class_range(s, c).last by {
            if k < n {
                assert(t[k] == s[k]);
            }
        }
    }
}

/// Over coordinates classified one irrep each and sorted by irrep, the range
/// recorded for class `c` is `(0, 0)` when no coordinate has irrep `c`, and
/// otherwise the least and greatest 1-based index of the coordinates that
/// have it.
pub proof fn lemma_checks_span_each_class(irreps: Seq<Irrep>, c: Irrep)
    requires
        irreps.len() <= usize::MAX,
    ensures
        forall|i: int|
            0 <= i < irreps.len() && irreps[i] == c ==> class_range(sorted_by_irrep(irreps), c).first
                <= i + 1 <= class_range(sorted_by_irrep(irreps), c).last,
        (exists|i: int| 0 <= i < irreps.len() && irreps[i] == c) ==> {
            &&& exists|i: int|
                0 <= i < irreps.len() && irreps[i] == c && i + 1 == class_range(
                    sorted_by_irrep(irreps),
                    c,
                ).first
            &&& exists|i: int|
                0 <= i < irreps.len() && irreps[i] == c && i + 1 == class_range(
                    sorted_by_irrep(irreps),
                    c,
                ).last
        },
        (forall|i: int| 0 <= i < irreps.len() ==> irreps[i] != c) ==> class_range(
            sorted_by_irrep(irreps),
            c,
        ) == (ClassRange { first: 0, last: 0 }),
{
    let p = sorted_by_irrep(irreps);
    crate::irrep::lemma_sorted_by_irrep_is_permutation(irreps);
    assert forall|k: int| 0 <= k < p.len() implies (#[trigger] p[k]).0 < usize::MAX by {}
    assert forall|k1: int, k2: int|
        0 <= k1 < k2 < p.len() && p[k1].1 == c && p[k2].1 == c implies (#[trigger] p[k1]).0 < (
        #[trigger] p[k2]).0 by {
        assert(key_lt(p[k1], p[k2]));
    }
    lemma_class_range_ordered(p, c);
    lemma_class_range_is_min_max(p, c);
    let r = class_range(p, c);
    assert forall|i: int| 0 <= i < irreps.len() && irreps[i] == c implies r.first <= i + 1
        <= r.last by {
        assert(crate::irrep::has_index(p, i));
        let k = choose|k: int| 0 <= k < p.len() && p[k].0 == i;
        assert(p[k].1 == c);
    }
    if exists|i: int| 0 <= i < irreps.len() && irreps[i] == c {
        let i = choose|i: int| 0 <= i < irreps.len() && irreps[i] == c;
        assert(crate::irrep::has_index(p, i));
        let k = choose|k: int| 0 <= k < p.len() && p[k].0 == i;
        assert(p[k].1 == c);
        assert(class_count(p, c) > 0);
        let kf = choose|k: int| 0 <= k < p.len() && (#[trigger] p[k]).1 == c && p[k].0 + 1 == r.first;
        let kl = choose|k: int| 0 <= k < p.len() && (#[trigger] p[k]).1 == c && p[k].0 + 1 == r.last;
        assert(irreps[p[kf].0 as int] == c && irreps[p[kl].0 as int] == c);
    }
    if forall|i: int| 0 <= i < irreps.len() ==> irreps[i] != c {
        if class_count(p, c) > 0 {
            let k = choose|k: int| 0 <= k < p.len() && (#[trigger] p[k]).1 == c && p[k].0 + 1 == r.first;
            assert(irreps[p[k].0 as int] == c);
        }
    }
}

/// Whether `x` is an irrep of `pg`.
pub fn irrep_in_group(pg: PointGroup, x: Irrep) -> (r: bool)
    ensures
        r == in_group(pg, x),
{
    match pg {
        PointGroup::C1 => x == Irrep::A,
        PointGroup::C2 => x == Irrep::A || x == Irrep::B,
        PointGroup::Cs => x == Irrep::Ap || x == Irrep::App,
        PointGroup::C2v => x == Irrep::A1 || x == Irrep::B1 || x == Irrep::B2 || x == Irrep::A2,
        PointGroup::Other => false,
    }
}

/// Position of the first pair whose irrep lies outside `pg`, if any.
fn find_foreign(irreps: &Vec<(usize, Irrep)>, pg: PointGroup) -> (r: Option<usize>)
    ensures
        r matches Some(k) ==> first_foreign(irreps@, pg, k as int),
        r is None ==> forall|j: int| 0 <= j < irreps.len() ==> in_group(pg, #[trigger] irreps@[j].1),
{
    let mut k: usize = 0;
    while k < irreps.len()
        invariant
            k <= irreps.len(),
            forall|j: int| 0 <= j < k ==> in_group(pg, #[trigger] irreps@[j].1),
        decreases irreps.len() - k,
    {
        if !irrep_in_group(pg, irreps[k].1) {
            return Some(k);
        }
        k += 1;
    }
    None
}

/// Builds the checks tables for point group `pg` from coordinate indices
/// sorted by irrep. The first irrep outside the group, in the given order,
/// is an error. C1 has no constraints; C2v records, for each of B1, B2 and
/// A2, the first and last 1-based index of the class. Any other group is an
/// error.
pub fn make_taylor_checks(irreps: &Vec<(usize, Irrep)>, pg: PointGroup) -> (r: Result<
    (Option<Checks>, Option<Checks>),
    ClassificationError,
>)
    requires
        indices_fit(irreps@),
    ensures
        r == checks_outcome(irreps@, pg),
{
    match pg {
        PointGroup::C1 | PointGroup::C2v => {},
        _ => {
            return Err(ClassificationError::UnsupportedPointGroup(pg));
        },
    }
    match find_foreign(irreps, pg) {
        Some(k) => {
            let r = Err(ClassificationError::ForeignIrrep { index: irreps[k].0, irrep: irreps[k].1 });
            proof {
                let c = choose|c: int| first_foreign(irreps@, pg, c);
                lemma_first_foreign_unique(irreps@, pg, c, k as int);
            }
            return r;
        },
        None => {},
    }
    assert(!exists|k: int| first_foreign(irreps@, pg, k));
    if pg == PointGroup::C1 {
        return Ok((None, None));
    }
    let zero = ClassRange { first: 0, last: 0 };
    let mut checks = Checks { b1: zero, b2: zero, a2: zero };
    let mut k: usize = 0;
    while k < irreps.len()
        invariant
            k <= irreps.len(),
            indices_fit(irreps@),
            checks == checks_of(irreps@.take(k as int)),
            forall|j: int| 0 <= j < irreps.len() ==> is_c2v_irrep(#[trigger] irreps@[j].1),
        decreases irreps.len() - k,
    {
        let (i, x) = irreps[k];
        assert(irreps@.take(k + 1).drop_last() == irreps@.take(k as int));
        assert(irreps@[k as int].0 < usize::MAX);
        assert(is_c2v_irrep(irreps@[k as int].1));
        match x {
            Irrep::B1 => {
                checks.b1 = extend(checks.b1, i);
            },
            Irrep::B2 => {
                checks.b2 = extend(checks.b2, i);
            },
            Irrep::A2 => {
                checks.a2 = extend(checks.a2, i);
            },
            _ => {},
        }
        k += 1;
    }
    assert(irreps@.take(irreps.len() as int) == irreps@);
    Ok((Some(checks), Some(checks)))
}

/// Records the 0-based index `i` in `range`.
fn extend(range: ClassRange, i: usize) -> (r: ClassRange)
    requires
        i < usize::MAX,
    ensures
        r == (if range.first == 0 {
            ClassRange { first: (i + 1) as usize, last: (i + 1) as usize }
        } else if i + 1 > range.last {
            ClassRange { first: range.first, last: (i + 1) as usize }
        } else {
            range
        }),
{
    if range.first == 0 {
        ClassRange { first: i + 1, last: i + 1 }
    } else if i + 1 > range.last {
        ClassRange { first: range.first, last: i + 1 }
    } else {
        range
    }
}

/// Sorts the coordinates, classified one irrep each, by irrep and builds the
/// checks tables of `pg` from them.
pub fn symmetry_checks(irreps: &Vec<Irrep>, pg: PointGroup) -> (r: Result<
    (Option<Checks>, Option<Checks>),
    ClassificationError,
>)
    ensures
        r == checks_outcome(sorted_by_irrep(irreps@), pg),
{
    let pairs = sort_by_irrep(irreps);
    proof {
        assert(irreps@.len() == irreps.len());
        crate::irrep::lemma_sorted_by_irrep_is_permutation(irreps@);
        assert forall|k: int| 0 <= k < pairs@.len() implies (#[trigger] pairs@[k]).0 < usize::MAX by {
        }
    }
    make_taylor_checks(&pairs, pg)
}

} // verus!
