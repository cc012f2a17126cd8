//! Collecting the energies of a batch of independent jobs back into the
//! order in which their geometries were submitted.

use vstd::prelude::*;

verus! {

/// What the executor reports for one job: the position of its geometry in
/// the submitted batch, and its energy, or `None` if the job failed.
#[derive(Clone, Copy, Debug)]
pub struct JobOutcome<T> {
    pub index: usize,
    pub value: Option<T>,
}

/// Why a batch did not yield one energy per submitted geometry.
#[derive(Clone, Copy, Debug, PartialEq, Eq, Structural)]
pub enum BatchExecutionError {
    /// The job of geometry `index` failed.
    JobFailed { index: usize },
    /// An outcome names a geometry that was never submitted.
    UnknownJob { index: usize },
    /// Two outcomes name the same geometry.
    DuplicateJob { index: usize },
    /// No outcome names geometry `index`.
    MissingJob { index: usize },
}

/// Some outcome of `s` belongs to geometry `j`.
pub open spec fn covers<T>(s: Seq<JobOutcome<T>>, j: int) -> bool {
    exists|k: int| 0 <= k < s.len() && s[k].index == j
}

/// The outcomes `s` of a batch of `n` geometries are complete: every job
/// succeeded, and the indices are exactly `0..n`, each once.
pub open spec fn batch_complete<T>(n: nat, s: Seq<JobOutcome<T>>) -> bool {
    &&& forall|k: int| 0 <= k < s.len() ==> (#[trigger] s[k]).index < n && s[k].value is Some
    &&& forall|k1: int, k2: int|
        0 <= k1 < k2 < s.len() ==> (#[trigger] s[k1]).index != (#[trigger] s[k2]).index
    &&& forall|j: int| 0 <= j < n ==> #[trigger] covers(s, j)
}

/// The energy of geometry `j` as reported in `s`.
pub open spec fn energy_of<T>(s: Seq<JobOutcome<T>>, j: int) -> T {
    s[choose|k: int| 0 <= k < s.len() && s[k].index == j].value->Some_0
}

/// The energies of `n` geometries in submission order.
pub open spec fn ordered_energies<T>(n: nat, s: Seq<JobOutcome<T>>) -> Seq<T> {
    Seq::new(n, |j: int| energy_of(s, j))
}

/// The outcome at position `k` of `s` cannot be taken: it names a geometry
/// outside the batch, its job failed, or an earlier outcome named the same
/// geometry.
pub open spec fn bad_at<T>(n: nat, s: Seq<JobOutcome<T>>, k: int) -> bool {
    s[k].index >= n || s[k].value is None || exists|m: int| 0 <= m < k && s[m].index == s[k].index
}

/// `k` is the first position of `s` whose outcome cannot be taken.
pub open spec fn first_bad<T>(n: nat, s: Seq<JobOutcome<T>>, k: int) -> bool {
    &&& 0 <= k < s.len()
    &&& bad_at(n, s, k)
    &&& forall|m: int| 0 <= m < k ==> !#[trigger] bad_at(n, s, m)
}

/// `j` is the first geometry of the batch that no outcome names.
pub open spec fn first_missing<T>(n: nat, s: Seq<JobOutcome<T>>, j: int) -> bool {
    &&& 0 <= j < n
    &&& !covers(s, j)
    &&& forall|i: int| 0 <= i < j ==> #[trigger] covers(s, i)
}

/// The error that the outcomes `s` of `n` geometries give, if any: the
/// first outcome that cannot be taken, in report order, or else the first
/// geometry left without an outcome.
pub open spec fn batch_error<T>(n: nat, s: Seq<JobOutcome<T>>) -> Option<BatchExecutionError> {
    if exists|k: int| first_bad(n, s, k) {
        let k = choose|k: int| first_bad(n, s, k);
        let index = s[k].index;
        if index >= n {
            Some(BatchExecutionError::UnknownJob { index })
        } else if s[k].value is None {
            Some(BatchExecutionError::JobFailed { index })
        } else {
            Some(BatchExecutionError::DuplicateJob { index })
        }
    } else if exists|j: int| first_missing(n, s, j) {
        let j = choose|j: int| first_missing(n, s, j);
        Some(BatchExecutionError::MissingJob { index: j as usize })
    } else {
        None
    }
}

proof fn lemma_first_bad_unique<T>(n: nat, s: Seq<JobOutcome<T>>, k1: int, k2: int)
    requires
        first_bad(n, s, k1),
        first_bad(n, s, k2),
    ensures
        k1 == k2,
{
}

proof fn lemma_first_missing_unique<T>(n: nat, s: Seq<JobOutcome<T>>, j1: int, j2: int)
    requires
        first_missing(n, s, j1),
        first_missing(n, s, j2),
    ensures
        j1 == j2,
{
}

proof fn lemma_energy_of<T>(n: nat, s: Seq<JobOutcome<T>>, k: int)
    requires
        batch_complete(n, s),
        0 <= k < s.len(),
    ensures
        energy_of(s, s[k].index as int) == s[k].value->Some_0,
{
    let j = s[k].index as int;
    assert(s[k].index == j);
    let c = choose|c: int| 0 <= c < s.len() && s[c].index == j;
    if c != k {
        if c < k {
            assert(s[c].index != s[k].index);
        } else {
            assert(s[k].index != s[c].index);
        }
    }
}

/// Puts the energies reported for a batch of `n` geometries back into
/// submission order. Succeeds exactly when every job succeeded and each
/// geometry has one outcome; then entry `j` is the energy of geometry `j`,
/// whatever order the outcomes came in.
pub fn collect_energies<T: Copy>(n: usize, outcomes: &Vec<JobOutcome<T>>) -> (r: Result<
    Vec<T>,
    BatchExecutionError,
>)
    ensures
        r is Ok <==> batch_complete(n as nat, outcomes@),
        r matches Ok(v) ==> v@ == ordered_energies(n as nat, outcomes@),
        r matches Ok(v) ==> forall|k: int|
            0 <= k < outcomes.len() ==> v@[(#[trigger] outcomes@[k]).index as int]
                == outcomes@[k].value->Some_0,
        r matches Err(e) ==> batch_error(n as nat, outcomes@) == Some(e),
        r is Ok ==> batch_error(n as nat, outcomes@) is None,
{
    let ghost s = outcomes@;
    let mut slots: Vec<Option<T>> = Vec::new();
    let mut j: usize = 0;
    while j < n
        invariant
            j <= n,
            slots.len() == j,
            forall|a: int| 0 <= a < j ==> (#[trigger] slots@[a]) is None,
        decreases n - j,
    {
        slots.push(None);
        j += 1;
    }
    let mut k: usize = 0;
    while k < outcomes.len()
        invariant
            k <= outcomes.len(),
            s == outcomes@,
            slots.len() == n,
            forall|a: int|
                0 <= a < n ==> ((#[trigger] slots@[a]) is Some <==> covers(s.take(k as int), a)),
            forall|m: int|
                0 <= m < k ==> (#[trigger] s[m]).index < n && s[m].value is Some && slots@[s[m].index as int]
                    == s[m].value,
            forall|m1: int, m2: int|
                0 <= m1 < m2 < k ==> (#[trigger] s[m1]).index != (#[trigger] s[m2]).index,
            forall|m: int| 0 <= m < k ==> !#[trigger] bad_at(n as nat, s, m),
        decreases outcomes.len() - k,
    {
        let o = outcomes[k];
        let idx = o.index;
        if idx >= n {
            proof {
                assert(first_bad(n as nat, s, k as int));
                let c = choose|c: int| first_bad(n as nat, s, c);
                lemma_first_bad_unique(n as nat, s, c, k as int);
            }
            return Err(BatchExecutionError::UnknownJob { index: idx });
        }
        match o.value {
            None => {
                proof {
                    assert(first_bad(n as nat, s, k as int));
                    let c = choose|c: int| first_bad(n as nat, s, c);
                    lemma_first_bad_unique(n as nat, s, c, k as int);
                }
                return Err(BatchExecutionError::JobFailed { index: idx });
            },
            Some(e) => {
                if slots[idx].is_some() {
                    proof {
                        let m = choose|m: int| 0 <= m < k && s.take(k as int)[m].index == idx;
                        assert(s.take(k as int)[m] == s[m]);
                        assert(s[m].index == idx && s[k as int].index == idx);
                        assert(bad_at(n as nat, s, k as int));
                        assert(first_bad(n as nat, s, k as int));
                        let c = choose|c: int| first_bad(n as nat, s, c);
                        lemma_first_bad_unique(n as nat, s, c, k as int);
                    }
                    return Err(BatchExecutionError::DuplicateJob { index: idx });
                }
                slots.set(idx, Some(e));
                proof {
                    let t0 = s.take(k as int);
                    let t1 = s.take(k + 1);
                    assert forall|a: int| 0 <= a < n implies ((#[trigger] slots@[a]) is Some
                        <==> covers(t1, a)) by {
                        if covers(t1, a) && a != idx {
                            let m = choose|m: int| 0 <= m < t1.len() && t1[m].index == a;
                            assert(t0[m] == t1[m]);
                        }
                        if covers(t0, a) {
                            let m = choose|m: int| 0 <= m < t0.len() && t0[m].index == a;
                            assert(t0[m] == t1[m]);
                        }
                        if a == idx {
                            assert(t1[k as int].index == a);
                        }
                    }
                    assert(!bad_at(n as nat, s, k as int)) by {
                        if exists|m: int| 0 <= m < k && s[m].index == s[k as int].index {
                            let m = choose|m: int| 0 <= m < k && s[m].index == s[k as int].index;
                            assert(t0[m] == s[m]);
                            assert(covers(t0, idx as int));
                        }
                    }
                    assert forall|m1: int, m2: int| 0 <= m1 < m2 < k + 1 implies (#[trigger] s[m1]).index
                        != (#[trigger] s[m2]).index by {
                        if m2 == k {
                            assert(slots@[s[m1].index as int] is Some);
                            assert(covers(t0, s[m1].index as int)) by {
                                assert(t0[m1] == s[m1]);
                            }
                        }
                    }
                }
            },
        }
        k += 1;
    }
    assert(s.take(outcomes.len() as int) == s);
    let mut out: Vec<T> = Vec::new();
    j = 0;
    while j < n
        invariant
            j <= n,
            s == outcomes@,
            slots.len() == n,
            out.len() == j,
            forall|a: int| 0 <= a < n ==> ((#[trigger] slots@[a]) is Some <==> covers(s, a)),
            forall|a: int| 0 <= a < j ==> slots@[a] == Some(#[trigger] out@[a]),
            forall|m: int|
                0 <= m < s.len() ==> (#[trigger] s[m]).index < n && s[m].value is Some && slots@[s[m].index as int]
                    == s[m].value,
            forall|m1: int, m2: int|
                0 <= m1 < m2 < s.len() ==> (#[trigger] s[m1]).index != (#[trigger] s[m2]).index,
            forall|m: int| 0 <= m < s.len() ==> !#[trigger] bad_at(n as nat, s, m),
        decreases n - j,
    {
        match slots[j] {
            None => {
                proof {
                    assert forall|i: int| 0 <= i < j implies #[trigger] covers(s, i) by {
                        assert(slots@[i] == Some(out@[i]));
                    }
                    assert(first_missing(n as nat, s, j as int));
                    let c = choose|c: int| first_missing(n as nat, s, c);
                    lemma_first_missing_unique(n as nat, s, c, j as int);
                    assert(!exists|k: int| first_bad(n as nat, s, k));
                }
                return Err(BatchExecutionError::MissingJob { index: j });
            },
            Some(e) => {
                out.push(e);
            },
        }
        j += 1;
    }
    proof {
        assert forall|a: int| 0 <= a < n implies #[trigger] covers(s, a) by {
            assert(slots@[a] == Some(out@[a]));
        }
        assert(batch_complete(n as nat, s));
        assert forall|k: int| 0 <= k < s.len() implies out@[(#[trigger] s[k]).index as int]
            == s[k].value->Some_0 by {}
        assert forall|a: int| 0 <= a < n implies out@[a] == #[trigger] energy_of(s, a) by {
            assert(covers(s, a));
            let c = choose|c: int| 0 <= c < s.len() && s[c].index == a;
            lemma_energy_of(n as nat, s, c);
        }
        assert(out@ == ordered_energies(n as nat, s));
        assert(!exists|k: int| first_bad(n as nat, s, k));
        assert(!exists|i: int| first_missing(n as nat, s, i));
    }
    Ok(out)
}

/// The order in which the executor reports its outcomes does not matter:
/// two complete reports of the same outcomes give the same energies in
/// submission order.
pub proof fn lemma_order_of_outcomes_is_irrelevant<T>(
    n: nat,
    s1: Seq<JobOutcome<T>>,
    s2: Seq<JobOutcome<T>>,
)
    requires
        batch_complete(n, s1),
        batch_complete(n, s2),
        forall|k: int| 0 <= k < s2.len() ==> s1.contains(#[trigger] s2[k]),
    ensures
        ordered_energies(n, s1) == ordered_energies(n, s2),
{
    assert forall|j: int| 0 <= j < n implies #[trigger] energy_of(s1, j) == energy_of(s2, j) by {
        assert(covers(s2, j));
        let k2 = choose|k: int| 0 <= k < s2.len() && s2[k].index == j;
        lemma_energy_of(n, s2, k2);
        let k1 = choose|k: int| 0 <= k < s1.len() && s1[k] == s2[k2];
        assert(s1.contains(s2[k2]));
        lemma_energy_of(n, s1, k1);
    }
    assert(ordered_energies(n, s1) =~= ordered_energies(n, s2));
}

} // verus!
