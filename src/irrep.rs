//! Irreducible representations, point groups and the ordering of
//! irrep-tagged coordinate indices.

use vstd::prelude::*;

verus! {

/// Number of irreps in [`Irrep`]; ranks run from zero up to this bound.
pub const N_IRREPS: u8 = 8;

/// Irreducible representation of a displacement under the molecule's point
/// group. The declaration order is the fixed total order used for sorting.
#[derive(Clone, Copy, Debug, PartialEq, Eq, Structural)]
pub enum Irrep {
    /// C1
    A,
    /// C2
    B,
    /// Cs, symmetric in the plane
    Ap,
    /// Cs, antisymmetric in the plane
    App,
    /// C2v, totally symmetric
    A1,
    /// C2v
    B1,
    /// C2v
    B2,
    /// C2v
    A2,
}

/// Point groups the pipeline can meet.
#[derive(Clone, Copy, Debug, PartialEq, Eq, Structural)]
pub enum PointGroup {
    /// No symmetry.
    C1,
    /// One two-fold axis.
    C2,
    /// One mirror plane.
    Cs,
    /// A two-fold axis and two mirror planes.
    C2v,
    /// Any other point group; none of its irreps is modelled.
    Other,
}

/// Position of an irrep in the fixed total order.
pub open spec fn rank(x: Irrep) -> nat {
    match x {
        Irrep::A => 0,
        Irrep::B => 1,
        Irrep::Ap => 2,
        Irrep::App => 3,
        Irrep::A1 => 4,
        Irrep::B1 => 5,
        Irrep::B2 => 6,
        Irrep::A2 => 7,
    }
}

/// The rank of `x`.
pub fn irrep_rank(x: Irrep) -> (r: u8)
    ensures
        r as nat == rank(x),
        r < N_IRREPS,
{
    match x {
        Irrep::A => 0,
        Irrep::B => 1,
        Irrep::Ap => 2,
        Irrep::App => 3,
        Irrep::A1 => 4,
        Irrep::B1 => 5,
        Irrep::B2 => 6,
        Irrep::A2 => 7,
    }
}

/// Strict order on irrep-tagged indices: by irrep rank, then by index.
pub open spec fn key_lt(a: (usize, Irrep), b: (usize, Irrep)) -> bool {
    rank(a.1) < rank(b.1) || (rank(a.1) == rank(b.1) && a.0 < b.0)
}

/// The pairs `(i, s[i])` whose irrep has rank `r`, in index order.
pub open spec fn pairs_of_rank(s: Seq<Irrep>, r: nat) -> Seq<(usize, Irrep)>
    decreases s.len(),
{
    if s.len() == 0 {
        seq![]
    } else {
        let prev = pairs_of_rank(s.drop_last(), r);
        if rank(s.last()) == r {
            prev.push(((s.len() - 1) as usize, s.last()))
        } else {
            prev
        }
    }
}

/// The pairs `(i, s[i])` whose irrep has rank below `r`, grouped by rank.
pub open spec fn pairs_below(s: Seq<Irrep>, r: nat) -> Seq<(usize, Irrep)>
    decreases r,
{
    if r == 0 {
        seq![]
    } else {
        pairs_below(s, (r - 1) as nat) + pairs_of_rank(s, (r - 1) as nat)
    }
}

/// Every coordinate index of `s` tagged with its irrep, sorted by irrep and,
/// within one irrep, by index.
pub open spec fn sorted_by_irrep(s: Seq<Irrep>) -> Seq<(usize, Irrep)> {
    pairs_below(s, N_IRREPS as nat)
}

/// Some pair of `p` carries coordinate index `i`.
pub open spec fn has_index(p: Seq<(usize, Irrep)>, i: int) -> bool {
    exists|k: int| 0 <= k < p.len() && p[k].0 == i
}

/// Number of entries of `s` with rank `r`.
pub open spec fn count_rank(s: Seq<Irrep>, r: nat) -> nat
    decreases s.len(),
{
    if s.len() == 0 {
        0
    } else {
        count_rank(s.drop_last(), r) + if rank(s.last()) == r { 1nat } else { 0nat }
    }
}

/// Number of entries of `s` with rank below `r`.
pub open spec fn count_below(s: Seq<Irrep>, r: nat) -> nat
    decreases r,
{
    if r == 0 {
        0
    } else {
        count_below(s, (r - 1) as nat) + count_rank(s, (r - 1) as nat)
    }
}

proof fn lemma_pairs_of_rank(s: Seq<Irrep>, r: nat)
    requires
        s.len() <= usize::MAX,
    ensures
        pairs_of_rank(s, r).len() == count_rank(s, r),
        forall|k: int|
            0 <= k < pairs_of_rank(s, r).len() ==> {
                let p = #[trigger] pairs_of_rank(s, r)[k];
                &&& p.0 < s.len()
                &&& s[p.0 as int] == p.1
                &&& rank(p.1) == r
            },
        forall|i: int|
            0 <= i < s.len() && rank(#[trigger] s[i]) == r ==> exists|k: int|
                0 <= k < pairs_of_rank(s, r).len() && #[trigger] pairs_of_rank(s, r)[k].0 == i,
        forall|k1: int, k2: int|
            0 <= k1 < k2 < pairs_of_rank(s, r).len() ==> #[trigger] pairs_of_rank(s, r)[k1].0
                < #[trigger] pairs_of_rank(s, r)[k2].0,
    decreases s.len(),
{
    if s.len() > 0 {
        let t = s.drop_last();
        lemma_pairs_of_rank(t, r);
        let p = pairs_of_rank(s, r);
        let q = pairs_of_rank(t, r);
        assert forall|i: int| 0 <= i < s.len() && rank(#[trigger] s[i]) == r implies exists|k: int|
            0 <= k < p.len() && #[trigger] p[k].0 == i by {
            if i < t.len() {
                assert(t[i] == s[i]);
                let k = choose|k: int| 0 <= k < q.len() && #[trigger] q[k].0 == i;
                assert(p[k] == q[k]);
            } else {
                assert(p[p.len() - 1].0 == i);
            }
        }
    }
}

proof fn lemma_count_below_step(s: Seq<Irrep>, r: nat)
    requires
        s.len() > 0,
    ensures
        count_below(s, r) == count_below(s.drop_last(), r) + if rank(s.last()) < r {
            1nat
        } else {
            0nat
        },
    decreases r,
{
    if r > 0 {
        lemma_count_below_step(s, (r - 1) as nat);
    }
}

proof fn lemma_count_below_empty(s: Seq<Irrep>, r: nat)
    requires
        s.len() == 0,
    ensures
        count_below(s, r) == 0,
    decreases r,
{
    if r > 0 {
        lemma_count_below_empty(s, (r - 1) as nat);
    }
}

proof fn lemma_count_below_all(s: Seq<Irrep>)
    ensures
        count_below(s, N_IRREPS as nat) == s.len(),
    decreases s.len(),
{
    if s.len() > 0 {
        lemma_count_below_all(s.drop_last());
        lemma_count_below_step(s, N_IRREPS as nat);
    } else {
        lemma_count_below_empty(s, N_IRREPS as nat);
    }
}

proof fn lemma_pairs_below(s: Seq<Irrep>, r: nat)
    requires
        s.len() <= usize::MAX,
    ensures
        pairs_below(s, r).len() == count_below(s, r),
        forall|k: int|
            0 <= k < pairs_below(s, r).len() ==> {
                let p = #[trigger] pairs_below(s, r)[k];
                &&& p.0 < s.len()
                &&& s[p.0 as int] == p.1
                &&& rank(p.1) < r
            },
        forall|i: int|
            0 <= i < s.len() && rank(#[trigger] s[i]) < r ==> exists|k: int|
                0 <= k < pairs_below(s, r).len() && #[trigger] pairs_below(s, r)[k].0 == i,
        forall|k1: int, k2: int|
            0 <= k1 < k2 < pairs_below(s, r).len() ==> key_lt(
                #[trigger] pairs_below(s, r)[k1],
                #[trigger] pairs_below(s, r)[k2],
            ),
    decreases r,
{
    if r > 0 {
        let r0 = (r - 1) as nat;
        lemma_pairs_below(s, r0);
        lemma_pairs_of_rank(s, r0);
        let a = pairs_below(s, r0);
        let b = pairs_of_rank(s, r0);
        let p = pairs_below(s, r);
        assert(p == a + b);
        assert forall|k: int| 0 <= k < p.len() implies {
            let x = #[trigger] p[k];
            &&& x.0 < s.len()
            &&& s[x.0 as int] == x.1
            &&& rank(x.1) < r
        } by {
            if k < a.len() {
                assert(p[k] == a[k]);
            } else {
                assert(p[k] == b[k - a.len()]);
            }
        }
        assert forall|i: int| 0 <= i < s.len() && rank(#[trigger] s[i]) < r implies exists|k: int|
            0 <= k < p.len() && #[trigger] p[k].0 == i by {
            if rank(s[i]) < r0 {
                let k = choose|k: int| 0 <= k < a.len() && #[trigger] a[k].0 == i;
                assert(p[k] == a[k]);
            } else {
                let k = choose|k: int| 0 <= k < b.len() && #[trigger] b[k].0 == i;
                assert(p[k + a.len()] == b[k]);
            }
        }
        assert forall|k1: int, k2: int| 0 <= k1 < k2 < p.len() implies key_lt(
            #[trigger] p[k1],
            #[trigger] p[k2],
        ) by {
            if k2 < a.len() {
                assert(p[k1] == a[k1] && p[k2] == a[k2]);
            } else if k1 < a.len() {
                assert(p[k1] == a[k1] && p[k2] == b[k2 - a.len()]);
            } else {
                assert(p[k1] == b[k1 - a.len()] && p[k2] == b[k2 - a.len()]);
            }
        }
    }
}

/// Sorting the coordinate indices by irrep yields exactly one pair per
/// coordinate: every index below `s.len()` appears, each tagged with its own
/// irrep, and the pairs are strictly ordered by irrep and then by index, so
/// that the indices form a permutation of the coordinates.
pub proof fn lemma_sorted_by_irrep_is_permutation(s: Seq<Irrep>)
    requires
        s.len() <= usize::MAX,
    ensures
        sorted_by_irrep(s).len() == s.len(),
        forall|k: int|
            0 <= k < s.len() ==> {
                let p = #[trigger] sorted_by_irrep(s)[k];
                p.0 < s.len() && s[p.0 as int] == p.1
            },
        forall|i: int| 0 <= i < s.len() ==> #[trigger] has_index(sorted_by_irrep(s), i),
        forall|k1: int, k2: int|
            0 <= k1 < k2 < s.len() ==> key_lt(
                #[trigger] sorted_by_irrep(s)[k1],
                #[trigger] sorted_by_irrep(s)[k2],
            ),
{
    lemma_pairs_below(s, N_IRREPS as nat);
    lemma_count_below_all(s);
    assert forall|i: int| 0 <= i < s.len() implies #[trigger] has_index(sorted_by_irrep(s), i) by {
        assert(rank(s[i]) < N_IRREPS as nat);
    }
}

/// Tags each coordinate index with its irrep and sorts the pairs by irrep;
/// within one irrep the indices keep their order.
pub fn sort_by_irrep(irreps: &Vec<Irrep>) -> (r: Vec<(usize, Irrep)>)
    ensures
        r@ == sorted_by_irrep(irreps@),
{
    let n = irreps.len();
    let mut out: Vec<(usize, Irrep)> = Vec::new();
    let mut r: u8 = 0;
    while r < N_IRREPS
        invariant
            r <= N_IRREPS,
            n == irreps.len(),
            out@ == pairs_below(irreps@, r as nat),
        decreases N_IRREPS - r,
    {
        let mut i: usize = 0;
        while i < n
            invariant
                i <= n,
                r < N_IRREPS,
                n == irreps.len(),
                out@ == pairs_below(irreps@, r as nat) + pairs_of_rank(irreps@.take(i as int), r as nat),
            decreases n - i,
        {
            let x = irreps[i];
            let ghost before = irreps@.take(i as int);
            let ghost after = irreps@.take(i + 1);
            assert(after.drop_last() == before);
            if irrep_rank(x) == r {
                let ghost a = pairs_below(irreps@, r as nat);
                let ghost b = pairs_of_rank(before, r as nat);
                out.push((i, x));
                assert(out@ == a + b.push((i, x)));
            }
            i += 1;
        }
        assert(irreps@.take(n as int) == irreps@);
        r += 1;
    }
    out
}

/// One unit step along each of `n` coordinates, in step-count form: row `i`
/// is one step on coordinate `i` and zero elsewhere.
pub fn unit_steps(n: usize) -> (r: Vec<Vec<isize>>)
    ensures
        r.len() == n,
        forall|i: int| 0 <= i < n ==> (#[trigger] r[i]).len() == n,
        forall|i: int, j: int|
            0 <= i < n && 0 <= j < n ==> #[trigger] r[i][j] == if i == j {
                1isize
            } else {
                0isize
            },
{
    let mut out: Vec<Vec<isize>> = Vec::new();
    let mut i: usize = 0;
    while i < n
        invariant
            i <= n,
            out.len() == i,
            forall|a: int| 0 <= a < i ==> (#[trigger] out[a]).len() == n,
            forall|a: int, b: int|
                0 <= a < i && 0 <= b < n ==> #[trigger] out[a][b] == if a == b {
                    1isize
                } else {
                    0isize
                },
        decreases n - i,
    {
        let mut row: Vec<isize> = Vec::new();
        let mut j: usize = 0;
        while j < n
            invariant
                j <= n,
                i < n,
                row.len() == j,
                forall|b: int| 0 <= b < j ==> #[trigger] row[b] == if i == b {
                    1isize
                } else {
                    0isize
                },
            decreases n - j,
        {
            if j == i {
                row.push(1);
            } else {
                row.push(0);
            }
            j += 1;
        }
        out.push(row);
        i += 1;
    }
    out
}

} // verus!
