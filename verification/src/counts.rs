use vstd::prelude::*;

use crate::state::{dim, lemma_dim, sum, sum_prefix};
use crate::text::{binary, binary_string, lemma_binary_digits, lemma_binary_injective};
use vstd::arithmetic::power2::pow2;

verus! {

/// Measurement tallies of a circuit: `tallies[i]` is how often basis state `i`
/// was observed.  Looked up by the outcome's bit string (e.g. "01"), like a map
/// whose keys are the outcomes seen at least once.
pub struct Counts {
    pub num_qubits: usize,
    pub tallies: Vec<usize>,
}

pub open spec fn as_ints(s: Seq<usize>) -> Seq<int> {
    s.map_values(|x: usize| x as int)
}

impl Counts {
    pub open spec fn wf(&self) -> bool {
        &&& self.num_qubits < usize::BITS
        &&& self.tallies@.len() == dim(self.num_qubits as nat)
    }

    /// `key` is the bit string of an outcome observed at least once.
    pub open spec fn has_key(&self, key: Seq<char>) -> bool {
        exists|i: int|
            0 <= i < self.tallies@.len() && self.tallies@[i] > 0 && #[trigger] binary(
                i as nat,
                self.num_qubits as nat,
            ) == key
    }

    /// The total number of observations.
    pub open spec fn total(&self) -> int {
        sum(as_ints(self.tallies@))
    }

    /// Whether the outcome written `key` was observed.
    pub fn contains_key(&self, key: &str) -> (b: bool)
        requires
            self.wf(),
        ensures
            b == self.has_key(key@),
    {
        match parse_binary(key, self.num_qubits) {
            Some(v) => {
                proof {
                    lemma_dim(self.num_qubits as nat);
                    if self.has_key(key@) {
                        let i = choose|i: int|
                            0 <= i < self.tallies@.len() && self.tallies@[i] > 0 && #[trigger] binary(
                                i as nat,
                                self.num_qubits as nat,
                            ) == key@;
                        lemma_binary_injective(i as nat, v as nat, self.num_qubits as nat);
                    }
                    let vi: int = v as int;
                    assert(vi as nat == v as nat);
                    assert(binary(vi as nat, self.num_qubits as nat) == key@);
                }
                self.tallies[v] > 0
            },
            None => {
                proof {
                    lemma_dim(self.num_qubits as nat);
                }
                false
            },
        }
    }

    /// How often the outcome written `key` was observed; `None` when never.
    pub fn get(&self, key: &str) -> (r: Option<&usize>)
        requires
            self.wf(),
        ensures
            match r {
                Some(c) => exists|i: int|
                    0 <= i < self.tallies@.len() && self.tallies@[i] > 0 && *c == self.tallies@[i]
                        && #[trigger] binary(i as nat, self.num_qubits as nat) == key@,
                None => !self.has_key(key@),
            },
    {
        match parse_binary(key, self.num_qubits) {
            Some(v) => {
                proof {
                    lemma_dim(self.num_qubits as nat);
                    if self.has_key(key@) {
                        let i = choose|i: int|
                            0 <= i < self.tallies@.len() && self.tallies@[i] > 0 && #[trigger] binary(
                                i as nat,
                                self.num_qubits as nat,
                            ) == key@;
                        lemma_binary_injective(i as nat, v as nat, self.num_qubits as nat);
                    }
                    let vi: int = v as int;
                    assert(vi as nat == v as nat);
                    assert(binary(vi as nat, self.num_qubits as nat) == key@);
                }
                if self.tallies[v] > 0 {
                    Some(&self.tallies[v])
                } else {
                    None
                }
            },
            None => None,
        }
    }

    /// `e` is an observed outcome's bit string with its tally.
    pub open spec fn is_entry(&self, e: (String, usize)) -> bool {
        exists|k: int|
            0 <= k < self.tallies@.len() && self.tallies@[k] > 0 && self.tallies@[k] == e.1
                && #[trigger] binary(k as nat, self.num_qubits as nat) == e.0@
    }

    /// The observed outcomes with their tallies, in increasing order of the
    /// basis-state index.
    pub fn entries(&self) -> (r: Vec<(String, usize)>)
        requires
            self.wf(),
        ensures
            r@.len() == observed(self.tallies@, self.tallies@.len() as int).len(),
            forall|j: int|
                0 <= j < r@.len() ==> {
                    let k = #[trigger] observed(self.tallies@, self.tallies@.len() as int)[j];
                    &&& r@[j].0@ == binary(k as nat, self.num_qubits as nat)
                    &&& r@[j].1 == self.tallies@[k]
                },
            forall|i: int, j: int|
                0 <= i < j < r@.len() ==> #[trigger] observed(self.tallies@, self.tallies@.len() as int)[i]
                    < #[trigger] observed(self.tallies@, self.tallies@.len() as int)[j],
            forall|j: int| 0 <= j < r@.len() ==> self.is_entry(#[trigger] r@[j]),
            forall|k: int|
                0 <= k < self.tallies@.len() && #[trigger] self.tallies@[k] > 0 ==> has_key_entry(
                    r@,
                    binary(k as nat, self.num_qubits as nat),
                ),
    {
        let mut r: Vec<(String, usize)> = Vec::new();
        let mut k: usize = 0;
        while k < self.tallies.len()
            invariant
                k <= self.tallies@.len(),
                r@.len() == observed(self.tallies@, k as int).len(),
                forall|j: int|
                    0 <= j < r@.len() ==> {
                        let i = #[trigger] observed(self.tallies@, k as int)[j];
                        &&& r@[j].0@ == binary(i as nat, self.num_qubits as nat)
                        &&& r@[j].1 == self.tallies@[i]
                    },
                forall|j: int| 0 <= j < r@.len() ==> self.is_entry(#[trigger] r@[j]),
                forall|kk: int|
                    0 <= kk < k && #[trigger] self.tallies@[kk] > 0 ==> has_key_entry(
                        r@,
                        binary(kk as nat, self.num_qubits as nat),
                    ),
            decreases self.tallies@.len() - k,
        {
            if self.tallies[k] > 0 {
                let key = binary_string(k, self.num_qubits);
                let ghost before = r@;
                let e = (key, self.tallies[k]);
                assert(self.is_entry(e)) by {
                    let ki: int = k as int;
                    assert(ki as nat == k as nat);
                    assert(binary(ki as nat, self.num_qubits as nat) == e.0@);
                    assert(0 <= ki < self.tallies@.len() && self.tallies@[ki] > 0 && self.tallies@[ki] == e.1);
                }
                r.push(e);
                let ghost ob = observed(self.tallies@, k as int);
                assert(observed(self.tallies@, k + 1) == ob.push(k as int));
                assert forall|j: int| 0 <= j < r@.len() implies {
                    let i = #[trigger] observed(self.tallies@, k + 1)[j];
                    &&& r@[j].0@ == binary(i as nat, self.num_qubits as nat)
                    &&& r@[j].1 == self.tallies@[i]
                } by {
                    if j < before.len() {
                        assert(r@[j] == before[j]);
                        assert(observed(self.tallies@, k + 1)[j] == ob[j]);
                    } else {
                        let ki: int = k as int;
                        assert(ki as nat == k as nat);
                    }
                }
                assert forall|j: int| 0 <= j < r@.len() implies self.is_entry(#[trigger] r@[j]) by {
                    if j < before.len() {
                        assert(r@[j] == before[j]);
                    }
                }
                assert forall|kk: int|
                    0 <= kk < k + 1 && #[trigger] self.tallies@[kk] > 0 implies has_key_entry(
                    r@,
                    binary(kk as nat, self.num_qubits as nat),
                ) by {
                    if kk < k {
                        assert(has_key_entry(before, binary(kk as nat, self.num_qubits as nat)));
                        let j = choose|j: int|
                            0 <= j < before.len() && #[trigger] before[j].0@ == binary(
                                kk as nat,
                                self.num_qubits as nat,
                            );
                        assert(r@[j] == before[j]);
                    } else {
                        assert(r@[r@.len() - 1].0@ == binary(kk as nat, self.num_qubits as nat));
                    }
                }
            }
            else {
                assert(observed(self.tallies@, k + 1) == observed(self.tallies@, k as int));
            }
            k = k + 1;
        }
        proof {
            lemma_observed(self.tallies@, self.tallies@.len() as int);
        }
        r
    }
}

/// The indices `i < k` with a positive tally, in increasing order.
pub open spec fn observed(t: Seq<usize>, k: int) -> Seq<int>
    decreases k,
{
    if k <= 0 {
        Seq::empty()
    } else if t[k - 1] > 0 {
        observed(t, k - 1).push(k - 1)
    } else {
        observed(t, k - 1)
    }
}

/// The observed indices are distinct, increasing, below `k` and have positive
/// tallies.
pub proof fn lemma_observed(t: Seq<usize>, k: int)
    requires
        0 <= k <= t.len(),
    ensures
        forall|j: int|
            0 <= j < observed(t, k).len() ==> 0 <= #[trigger] observed(t, k)[j] < k && t[observed(
                t,
                k,
            )[j]] > 0,
        forall|i: int, j: int|
            0 <= i < j < observed(t, k).len() ==> #[trigger] observed(t, k)[i] < #[trigger] observed(
                t,
                k,
            )[j],
    decreases k,
{
    if k > 0 {
        lemma_observed(t, k - 1);
        let o = observed(t, k - 1);
        let ok = observed(t, k);
        if t[k - 1] > 0 {
            assert(ok == o.push(k - 1));
            assert forall|j: int| 0 <= j < ok.len() implies 0 <= #[trigger] ok[j] < k && t[ok[j]]
                > 0 by {
                if j < o.len() {
                    assert(ok[j] == o[j]);
                }
            }
            assert forall|i: int, j: int| 0 <= i < j < ok.len() implies #[trigger] ok[i]
                < #[trigger] ok[j] by {
                assert(ok[i] == o[i]);
                if j < o.len() {
                    assert(ok[j] == o[j]);
                }
            }
        } else {
            assert(ok == o);
        }
    }
}

/// Some entry of `r` has the bit string `key`.
pub open spec fn has_key_entry(r: Seq<(String, usize)>, key: Seq<char>) -> bool {
    exists|j: int| 0 <= j < r.len() && #[trigger] r[j].0@ == key
}

/// Reads a bit string of `width` characters as a number.
fn parse_binary(key: &str, width: usize) -> (r: Option<usize>)
    requires
        width < usize::BITS,
    ensures
        match r {
            Some(v) => v < pow2(width as nat) && binary(v as nat, width as nat) == key@,
            None => forall|x: nat| #[trigger] binary(x, width as nat) != key@,
        },
{
    let len = key.unicode_len();
    if len != width {
        proof {
            assert forall|x: nat| #[trigger] binary(x, width as nat) != key@ by {
                lemma_binary_digits(x, width as nat);
            }
        }
        return None;
    }
    proof {
        lemma_dim(width as nat);
        vstd::arithmetic::power2::lemma2_to64();
    }
    let mut v: usize = 0;
    let mut i: usize = 0;
    while i < len
        invariant
            len == key@.len(),
            len == width,
            width < usize::BITS,
            pow2(width as nat) <= usize::MAX,
            i <= len,
            v < pow2(i as nat),
            binary(v as nat, i as nat) == key@.take(i as int),
        decreases len - i,
    {
        let c = key.get_char(i);
        proof {
            vstd::arithmetic::power2::lemma_pow2_unfold((i + 1) as nat);
            if i + 1 < width {
                vstd::arithmetic::power2::lemma_pow2_strictly_increases((i + 1) as nat, width as nat);
            }
        }
        if c == '0' {
            v = 2 * v;
        } else if c == '1' {
            v = 2 * v + 1;
        } else {
            proof {
                assert forall|x: nat| #[trigger] binary(x, width as nat) != key@ by {
                    lemma_binary_digits(x, width as nat);
                    if binary(x, width as nat) == key@ {
                        assert(key@[i as int] == c);
                    }
                }
            }
            return None;
        }
        assert(key@.take(i + 1) =~= key@.take(i as int).push(c));
        i = i + 1;
    }
    assert(key@.take(len as int) =~= key@);
    Some(v)
}

} // verus!
