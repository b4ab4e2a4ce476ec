use vstd::prelude::*;

use crate::state::{QState, StateVector};

verus! {

/// Outcome `i` is listed before outcome `j`: the more probable first, the
/// lower index first among equally probable ones.
pub open spec fn ranks_before(w: Seq<int>, i: int, j: int) -> bool {
    w[i] > w[j] || (w[i] == w[j] && i < j)
}

/// `i` is one of the entries of `r`.
pub open spec fn listed(r: Seq<usize>, i: int) -> bool {
    exists|k: int| 0 <= k < r.len() && r[k] == i
}

impl StateVector {
    /// Every basis state, the most probable first and, among equally probable
    /// ones, the lower index first: the lines of a Grover result.
    pub fn ranked_outcomes(&self) -> (r: Vec<usize>)
        requires
            self.wf(),
        ensures
            r@.len() == self@.amps.len(),
            forall|k: int| 0 <= k < r@.len() ==> #[trigger] r@[k] < self@.amps.len(),
            forall|j: int, k: int|
                0 <= j < k < r@.len() ==> ranks_before(
                    self@.weights(),
                    #[trigger] r@[j] as int,
                    #[trigger] r@[k] as int,
                ),
            forall|i: int| 0 <= i < self@.amps.len() ==> #[trigger] listed(r@, i),
    {
        let ghost w = self@.weights();
        let p = self.probabilities();
        let mut r: Vec<usize> = Vec::new();
        let mut i: usize = 0;
        while i < p.len()
            invariant
                w == self@.weights(),
                p@.len() == self@.amps.len(),
                w.len() == p@.len(),
                forall|k: int| 0 <= k < p@.len() ==> #[trigger] p@[k] as int == w[k],
                i <= p@.len(),
                r@.len() == i,
                forall|k: int| 0 <= k < r@.len() ==> #[trigger] r@[k] < i,
                forall|j: int, k: int|
                    0 <= j < k < r@.len() ==> ranks_before(
                        w,
                        #[trigger] r@[j] as int,
                        #[trigger] r@[k] as int,
                    ),
                forall|m: int| 0 <= m < i ==> #[trigger] listed(r@, m),
            decreases p@.len() - i,
        {
            {
                let wi = p[i];
                let mut pos: usize = 0;
                while pos < r.len() && !(p[r[pos]] < wi)
                    invariant
                        pos <= r@.len(),
                        forall|k: int| 0 <= k < r@.len() ==> #[trigger] r@[k] < i,
                        i < p@.len(),
                        wi == p@[i as int],
                        forall|k: int| 0 <= k < pos ==> p@[#[trigger] r@[k] as int] >= wi,
                    decreases r@.len() - pos,
                {
                    pos = pos + 1;
                }
                let ghost before = r@;
                r.insert(pos, i);
                proof {
                    assert forall|j: int, k: int| 0 <= j < k < r@.len() implies ranks_before(
                        w,
                        #[trigger] r@[j] as int,
                        #[trigger] r@[k] as int,
                    ) by {
                        if k < pos {
                            assert(r@[j] == before[j] && r@[k] == before[k]);
                        } else if k == pos {
                            assert(r@[j] == before[j]);
                            assert(p@[before[j] as int] >= wi);
                        } else if j < pos {
                            assert(r@[j] == before[j] && r@[k] == before[k - 1]);
                        } else if j == pos {
                            assert(r@[k] == before[k - 1]);
                            assert(p@[before[pos as int] as int] < wi);
                            if k - 1 > pos {
                                assert(ranks_before(w, before[pos as int] as int, before[k - 1] as int));
                            }
                        } else {
                            assert(r@[j] == before[j - 1] && r@[k] == before[k - 1]);
                        }
                    }
                    assert forall|m: int| 0 <= m < i + 1 implies #[trigger] listed(r@, m) by {
                        if m == i {
                            assert(r@[pos as int] == i);
                        } else {
                            assert(listed(before, m));
                            let k0 = choose|k: int| 0 <= k < before.len() && before[k] == m;
                            if k0 < pos {
                                assert(r@[k0] == m);
                            } else {
                                assert(r@[k0 + 1] == m);
                            }
                        }
                    }
                    assert forall|k: int| 0 <= k < r@.len() implies #[trigger] r@[k] < i + 1 by {
                        if k < pos {
                            assert(r@[k] == before[k]);
                        } else if k > pos {
                            assert(r@[k] == before[k - 1]);
                        }
                    }
                }
            }
            i = i + 1;
        }
        r
    }
}

} // verus!
