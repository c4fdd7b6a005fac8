//! Coordinate partitioning: splitting the DOFs of a constrained system into
//! independent and dependent sets.

use vstd::prelude::*;

verus! {

/// Coordinate partitioning: split DOFs into independent and dependent sets.
#[derive(Clone, Debug, PartialEq, Eq)]
pub struct CoordinatePartitioning {
    pub independent: Vec<usize>,
    pub dependent: Vec<usize>,
}

/// `s` lists, in increasing order, exactly the indices below `total` that
/// do not occur in `dependent`.
pub open spec fn lists_free_dofs(s: Seq<usize>, total: nat, dependent: Seq<usize>) -> bool {
    &&& forall|k: int| 0 <= k < s.len() ==> #[trigger] s[k] < total && !dependent.contains(s[k])
    &&& forall|a: int, b: int| 0 <= a < b < s.len() ==> #[trigger] s[a] < #[trigger] s[b]
    &&& forall|i: usize| i < total && !dependent.contains(i) ==> #[trigger] s.contains(i)
}

impl CoordinatePartitioning {
    /// Partition `0 .. total_dofs`: the given dependent DOFs, and every other
    /// DOF, in increasing order, as independent.
    pub fn new(total_dofs: usize, dependent: Vec<usize>) -> (p: Self)
        ensures
            p.dependent@ == dependent@,
            lists_free_dofs(p.independent@, total_dofs as nat, dependent@),
    {
        let mut independent: Vec<usize> = Vec::new();
        let mut i: usize = 0;
        while i < total_dofs
            invariant
                i <= total_dofs,
                forall|k: int| 0 <= k < independent@.len() ==> #[trigger] independent@[k] < i
                    && !dependent@.contains(independent@[k]),
                forall|a: int, b: int| 0 <= a < b < independent@.len() ==> #[trigger] independent@[a]
                    < #[trigger] independent@[b],
                forall|j: usize| j < i && !dependent@.contains(j) ==> #[trigger] independent@.contains(j),
            decreases total_dofs - i,
        {
            let mut found = false;
            let mut t: usize = 0;
            while t < dependent.len()
                invariant
                    t <= dependent@.len(),
                    found <==> (exists|q: int| 0 <= q < t && dependent@[q] == i),
                decreases dependent@.len() - t,
            {
                if dependent[t] == i {
                    found = true;
                }
                t = t + 1;
            }
            let ghost before = independent@;
            if !found {
                independent.push(i);
                proof {
                    assert forall|j: usize| j < i + 1 && !dependent@.contains(j) implies #[trigger] independent@.contains(j) by {
                        if j < i {
                            assert(before.contains(j));
                            let q = choose|q: int| 0 <= q < before.len() && before[q] == j;
                            assert(independent@[q] == j);
                        } else {
                            assert(independent@[before.len() as int] == j);
                        }
                    }
                }
            } else {
                proof {
                    assert forall|j: usize| j < i + 1 && !dependent@.contains(j) implies #[trigger] independent@.contains(j) by {
                        if j == i {
                            let q = choose|q: int| 0 <= q < dependent@.len() && dependent@[q] == i;
                            assert(dependent@.contains(i));
                        }
                    }
                }
            }
            i = i + 1;
        }
        Self { independent, dependent }
    }

    /// Number of independent DOFs.
    pub fn num_independent(&self) -> (n: usize)
        ensures
            n == self.independent@.len(),
    {
        self.independent.len()
    }

    /// Number of dependent DOFs.
    pub fn num_dependent(&self) -> (n: usize)
        ensures
            n == self.dependent@.len(),
    {
        self.dependent.len()
    }

    /// Total number of DOFs in the partition.
    pub fn total(&self) -> (n: usize)
        requires
            self.independent@.len() + self.dependent@.len() <= usize::MAX,
        ensures
            n == self.independent@.len() + self.dependent@.len(),
    {
        self.independent.len() + self.dependent.len()
    }
}

/// The DOF indices `0 .. n` in order.
pub open spec fn dof_range(n: nat) -> Seq<usize> {
    Seq::new(n, |i: int| i as usize)
}

/// Partitioning is exhaustive and exclusive: when the dependent DOFs are
/// distinct DOFs below `total`, every DOF below `total` lands in exactly one
/// of the two sets, and the two sets together count `total` DOFs.
pub proof fn lemma_partition_counts(p: CoordinatePartitioning, total: usize)
    requires
        lists_free_dofs(p.independent@, total as nat, p.dependent@),
        p.dependent@.no_duplicates(),
        forall|k: int| 0 <= k < p.dependent@.len() ==> #[trigger] p.dependent@[k] < total,
    ensures
        forall|i: usize| i < total ==> (#[trigger] p.independent@.contains(i) <==> !p.dependent@.contains(i)),
        p.independent@.len() + p.dependent@.len() == total,
{
    let ind = p.independent@;
    let dep = p.dependent@;
    let both = ind + dep;
    let r = dof_range(total as nat);
    assert forall|i: usize| i < total implies (#[trigger] ind.contains(i) <==> !dep.contains(i)) by {
        if ind.contains(i) {
            let k = choose|k: int| 0 <= k < ind.len() && ind[k] == i;
            assert(!dep.contains(ind[k]));
        }
    }
    assert(ind.no_duplicates()) by {
        assert forall|a: int, b: int| 0 <= a < ind.len() && 0 <= b < ind.len() && a != b implies ind[a] != ind[b] by {
            if a < b {
                assert(ind[a] < ind[b]);
            } else {
                assert(ind[b] < ind[a]);
            }
        }
    }
    assert forall|a: int, b: int| 0 <= a < ind.len() && 0 <= b < dep.len() implies ind[a] != dep[b] by {
        assert(!dep.contains(ind[a]));
    }
    vstd::seq_lib::lemma_no_dup_in_concat(ind, dep);
    assert forall|x: usize| #[trigger] both.to_set().contains(x) == r.to_set().contains(x) by {
        if both.contains(x) {
            let k = choose|k: int| 0 <= k < both.len() && both[k] == x;
            if k < ind.len() {
                assert(ind[k] == x);
            } else {
                assert(dep[k - ind.len()] == x);
            }
            assert(r[x as int] == x);
        }
        if r.contains(x) {
            let k = choose|k: int| 0 <= k < r.len() && r[k] == x;
            assert(x < total);
            if dep.contains(x) {
                let q = choose|q: int| 0 <= q < dep.len() && dep[q] == x;
                assert(both[q + ind.len()] == x);
            } else {
                assert(ind.contains(x));
                let q = choose|q: int| 0 <= q < ind.len() && ind[q] == x;
                assert(both[q] == x);
            }
        }
    }
    assert(both.to_set() =~= r.to_set());
    assert(r.no_duplicates());
    both.unique_seq_to_set();
    r.unique_seq_to_set();
}

} // verus!
