use vstd::prelude::*;

use crate::complex::{cx, Complex, Cx};

verus! {

/// Largest magnitude of a part of a gate entry: `2^32`.  A unitary gate
/// `matrix / sqrt(2)^e` has entries of magnitude at most `sqrt(2)^e`, so with
/// `e <= GATE_MAX_SQRT2_EXP` every unitary gate can be written within it.
pub const GATE_ENTRY_LIMIT: i64 = 0x1_0000_0000;

/// Largest power of `sqrt(2)` a gate may be scaled by.  Entry times amplitude
/// is computed in 128 bits: with entries up to `2^32` and amplitude parts up to
/// `2^63`, each product and the sum of a row stay below `2^127`.
pub const GATE_MAX_SQRT2_EXP: u32 = 64;

/// A single-qubit gate: the 2x2 complex matrix `matrix / sqrt(2)^sqrt2_exp`.
/// Applied as: [new_0]   [m00 m01] [amp_0]
///             [new_1] = [m10 m11] [amp_1]
///
/// The entries of `matrix` are Gaussian integers; the common factor
/// `1/sqrt(2)^sqrt2_exp` lets the Hadamard gate be written exactly.
pub struct Gate {
    pub matrix: [[Complex; 2]; 2],
    pub sqrt2_exp: u32,
}

pub open spec fn entry_small(z: Complex) -> bool {
    -GATE_ENTRY_LIMIT <= z.re <= GATE_ENTRY_LIMIT && -GATE_ENTRY_LIMIT <= z.im <= GATE_ENTRY_LIMIT
}

pub open spec fn matrix_small(m: [[Complex; 2]; 2]) -> bool {
    &&& entry_small(m[0][0])
    &&& entry_small(m[0][1])
    &&& entry_small(m[1][0])
    &&& entry_small(m[1][1])
}


pub open spec fn cplx(re: i64, im: i64) -> Complex {
    Complex { re, im }
}

/// The matrices of the standard gates.
pub open spec fn gate_x() -> Gate {
    Gate { matrix: [[cplx(0, 0), cplx(1, 0)], [cplx(1, 0), cplx(0, 0)]], sqrt2_exp: 0 }
}

pub open spec fn gate_y() -> Gate {
    Gate { matrix: [[cplx(0, 0), cplx(0, -1i64)], [cplx(0, 1), cplx(0, 0)]], sqrt2_exp: 0 }
}

pub open spec fn gate_z() -> Gate {
    Gate { matrix: [[cplx(1, 0), cplx(0, 0)], [cplx(0, 0), cplx(-1i64, 0)]], sqrt2_exp: 0 }
}

pub open spec fn gate_h() -> Gate {
    Gate { matrix: [[cplx(1, 0), cplx(1, 0)], [cplx(1, 0), cplx(-1i64, 0)]], sqrt2_exp: 1 }
}

pub open spec fn gate_s() -> Gate {
    Gate { matrix: [[cplx(1, 0), cplx(0, 0)], [cplx(0, 0), cplx(0, 1)]], sqrt2_exp: 0 }
}

impl Gate {
    /// Entry `(r, c)` of the integer matrix.
    pub open spec fn entry(&self, r: int, c: int) -> Cx {
        cx(self.matrix[r][c])
    }

    /// The entries are small enough for exact arithmetic on amplitudes.
    pub open spec fn wf(&self) -> bool {
        matrix_small(self.matrix) && self.sqrt2_exp <= GATE_MAX_SQRT2_EXP
    }

    /// A gate given by an integer matrix alone.
    pub fn new(matrix: [[Complex; 2]; 2]) -> (g: Gate)
        requires
            matrix_small(matrix),
        ensures
            g.matrix == matrix,
            g.sqrt2_exp == 0,
            g.wf(),
    {
        Gate { matrix, sqrt2_exp: 0 }
    }

    /// A gate given by an integer matrix times 1/sqrt(2)^sqrt2_exp.
    pub fn scaled(matrix: [[Complex; 2]; 2], sqrt2_exp: u32) -> (g: Gate)
        requires
            matrix_small(matrix),
            sqrt2_exp <= GATE_MAX_SQRT2_EXP,
        ensures
            g.matrix == matrix,
            g.sqrt2_exp == sqrt2_exp,
            g.wf(),
    {
        Gate { matrix, sqrt2_exp }
    }

    /// Pauli-X: flips |0> and |1> (quantum NOT gate)
    pub fn x() -> (g: Gate)
        ensures
            g == gate_x(),
            g.wf(),
            g.sqrt2_exp == 0,
            g.entry(0, 0) == (0int, 0int),
            g.entry(0, 1) == (1int, 0int),
            g.entry(1, 0) == (1int, 0int),
            g.entry(1, 1) == (0int, 0int),
    {
        let o = Complex::one();
        let z = Complex::zero();
        Gate { matrix: [[z, o], [o, z]], sqrt2_exp: 0 }
    }

    /// Pauli-Z: leaves |0> alone, flips the phase of |1> to -|1>
    pub fn z() -> (g: Gate)
        ensures
            g == gate_z(),
            g.wf(),
            g.sqrt2_exp == 0,
            g.entry(0, 0) == (1int, 0int),
            g.entry(0, 1) == (0int, 0int),
            g.entry(1, 0) == (0int, 0int),
            g.entry(1, 1) == (-1int, 0int),
    {
        let o = Complex::one();
        let z = Complex::zero();
        let m = Complex::new(-1, 0);
        Gate { matrix: [[o, z], [z, m]], sqrt2_exp: 0 }
    }

    /// Pauli-Y: [[0, -i], [i, 0]]
    pub fn y() -> (g: Gate)
        ensures
            g == gate_y(),
            g.wf(),
            g.sqrt2_exp == 0,
            g.entry(0, 0) == (0int, 0int),
            g.entry(0, 1) == (0int, -1int),
            g.entry(1, 0) == (0int, 1int),
            g.entry(1, 1) == (0int, 0int),
    {
        let z = Complex::zero();
        let i = Complex::new(0, 1);
        let mi = Complex::new(0, -1);
        Gate { matrix: [[z, mi], [i, z]], sqrt2_exp: 0 }
    }

    /// Hadamard: [[1, 1], [1, -1]] / sqrt(2)
    /// H|0> = (|0> + |1>)/sqrt(2),  H|1> = (|0> - |1>)/sqrt(2)
    pub fn h() -> (g: Gate)
        ensures
            g == gate_h(),
            g.wf(),
            g.sqrt2_exp == 1,
            g.entry(0, 0) == (1int, 0int),
            g.entry(0, 1) == (1int, 0int),
            g.entry(1, 0) == (1int, 0int),
            g.entry(1, 1) == (-1int, 0int),
    {
        let s = Complex::one();
        let ms = Complex::new(-1, 0);
        Gate { matrix: [[s, s], [s, ms]], sqrt2_exp: 1 }
    }

    /// S (phase gate): leaves |0> alone, multiplies |1> by i
    pub fn s() -> (g: Gate)
        ensures
            g == gate_s(),
            g.wf(),
            g.sqrt2_exp == 0,
            g.entry(0, 0) == (1int, 0int),
            g.entry(0, 1) == (0int, 0int),
            g.entry(1, 0) == (0int, 0int),
            g.entry(1, 1) == (0int, 1int),
    {
        let o = Complex::one();
        let z = Complex::zero();
        let i = Complex::new(0, 1);
        Gate { matrix: [[o, z], [z, i]], sqrt2_exp: 0 }
    }
}

} // verus!
