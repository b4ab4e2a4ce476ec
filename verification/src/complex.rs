use vstd::prelude::*;

verus! {

/// A Gaussian integer `re + i*im`.
///
/// Amplitudes of a state and entries of a gate are Gaussian integers; the
/// real-valued scale factors (`1/sqrt(norm)` for a state, `1/sqrt(2)^k` for a
/// gate) are carried beside them, so every computation of the simulator is exact.
#[derive(Clone, Copy, Debug, PartialEq, Eq, Structural)]
pub struct Complex {
    pub re: i64,
    pub im: i64,
}

/// A complex number with unbounded integer parts, used in specifications.
pub type Cx = (int, int);

pub open spec fn cx(z: Complex) -> Cx {
    (z.re as int, z.im as int)
}

pub open spec fn cx_zero() -> Cx {
    (0, 0)
}

pub open spec fn cx_add(a: Cx, b: Cx) -> Cx {
    (a.0 + b.0, a.1 + b.1)
}

pub open spec fn cx_mul(a: Cx, b: Cx) -> Cx {
    (a.0 * b.0 - a.1 * b.1, a.0 * b.1 + a.1 * b.0)
}

pub open spec fn cx_scale(k: int, a: Cx) -> Cx {
    (k * a.0, k * a.1)
}

pub open spec fn cx_neg(a: Cx) -> Cx {
    (-a.0, -a.1)
}

/// `|z|^2 = re^2 + im^2`
pub open spec fn cx_norm_sq(a: Cx) -> int {
    a.0 * a.0 + a.1 * a.1
}

pub open spec fn fits_i64(x: int) -> bool {
    i64::MIN <= x <= i64::MAX
}

/// Both parts of `a` can be stored in a `Complex`.
pub open spec fn cx_fits(a: Cx) -> bool {
    fits_i64(a.0) && fits_i64(a.1)
}

pub proof fn lemma_i64_product_bound(a: i64, b: i64)
    ensures
        -0x4000_0000_0000_0000_0000_0000_0000_0000 <= (a as int) * (b as int)
            <= 0x4000_0000_0000_0000_0000_0000_0000_0000,
{
    let x = a as int;
    let y = b as int;
    assert(-0x8000_0000_0000_0000 <= x <= 0x8000_0000_0000_0000);
    assert(-0x8000_0000_0000_0000 <= y <= 0x8000_0000_0000_0000);
    assert(-0x4000_0000_0000_0000_0000_0000_0000_0000 <= x * y
        <= 0x4000_0000_0000_0000_0000_0000_0000_0000) by (nonlinear_arith)
        requires
            -0x8000_0000_0000_0000 <= x <= 0x8000_0000_0000_0000,
            -0x8000_0000_0000_0000 <= y <= 0x8000_0000_0000_0000,
    ;
}

pub proof fn lemma_square_nonneg(x: int)
    ensures
        x * x >= 0,
{
    assert(x * x >= 0) by (nonlinear_arith);
}

/// The product `g * a` computed in `i128`, where `g` is small (a gate entry).
pub fn mul_wide(g: Complex, a: Complex) -> (r: (i128, i128))
    requires
        -0x1_0000_0000 <= g.re <= 0x1_0000_0000,
        -0x1_0000_0000 <= g.im <= 0x1_0000_0000,
    ensures
        r.0 as int == cx_mul(cx(g), cx(a)).0,
        r.1 as int == cx_mul(cx(g), cx(a)).1,
        -0x1_0000_0000_0000_0000_0000_0000 <= r.0 <= 0x1_0000_0000_0000_0000_0000_0000,
        -0x1_0000_0000_0000_0000_0000_0000 <= r.1 <= 0x1_0000_0000_0000_0000_0000_0000,
{
    let gr = g.re as i128;
    let gi = g.im as i128;
    let ar = a.re as i128;
    let ai = a.im as i128;
    proof {
        assert(-0x8000_0000_0000_0000_0000_0000 <= gr * ar <= 0x8000_0000_0000_0000_0000_0000)
            by (nonlinear_arith)
            requires
                -0x1_0000_0000 <= gr <= 0x1_0000_0000,
                -0x8000_0000_0000_0000 <= ar <= 0x8000_0000_0000_0000,
        ;
        assert(-0x8000_0000_0000_0000_0000_0000 <= gi * ai <= 0x8000_0000_0000_0000_0000_0000)
            by (nonlinear_arith)
            requires
                -0x1_0000_0000 <= gi <= 0x1_0000_0000,
                -0x8000_0000_0000_0000 <= ai <= 0x8000_0000_0000_0000,
        ;
        assert(-0x8000_0000_0000_0000_0000_0000 <= gr * ai <= 0x8000_0000_0000_0000_0000_0000)
            by (nonlinear_arith)
            requires
                -0x1_0000_0000 <= gr <= 0x1_0000_0000,
                -0x8000_0000_0000_0000 <= ai <= 0x8000_0000_0000_0000,
        ;
        assert(-0x8000_0000_0000_0000_0000_0000 <= gi * ar <= 0x8000_0000_0000_0000_0000_0000)
            by (nonlinear_arith)
            requires
                -0x1_0000_0000 <= gi <= 0x1_0000_0000,
                -0x8000_0000_0000_0000 <= ar <= 0x8000_0000_0000_0000,
        ;
    }
    (gr * ar - gi * ai, gr * ai + gi * ar)
}

impl Complex {
    pub fn new(re: i64, im: i64) -> (r: Complex)
        ensures
            r.re == re,
            r.im == im,
    {
        Complex { re, im }
    }

    pub fn zero() -> (r: Complex)
        ensures
            cx(r) == cx_zero(),
    {
        Complex { re: 0, im: 0 }
    }

    pub fn one() -> (r: Complex)
        ensures
            cx(r) == (1int, 0int),
    {
        Complex { re: 1, im: 0 }
    }

    /// |z|^2 = a^2 + b^2
    pub fn norm_sq(&self) -> (r: u128)
        ensures
            r as int == cx_norm_sq(cx(*self)),
    {
        let x = self.re as i128;
        let y = self.im as i128;
        proof {
            lemma_i64_product_bound(self.re, self.re);
            lemma_i64_product_bound(self.im, self.im);
            lemma_square_nonneg(x as int);
            lemma_square_nonneg(y as int);
        }
        let xx = (x * x) as u128;
        let yy = (y * y) as u128;
        xx + yy
    }

    pub fn conjugate(&self) -> (r: Complex)
        requires
            self.im != i64::MIN,
        ensures
            r.re == self.re,
            r.im == -self.im,
    {
        Complex { re: self.re, im: -self.im }
    }

    /// `-z`
    pub fn neg(&self) -> (r: Complex)
        requires
            self.re != i64::MIN,
            self.im != i64::MIN,
        ensures
            cx(r) == cx_neg(cx(*self)),
    {
        Complex { re: -self.re, im: -self.im }
    }

    pub fn add(self, rhs: Complex) -> (r: Complex)
        requires
            cx_fits(cx_add(cx(self), cx(rhs))),
        ensures
            cx(r) == cx_add(cx(self), cx(rhs)),
    {
        Complex { re: self.re + rhs.re, im: self.im + rhs.im }
    }

    pub fn mul(self, rhs: Complex) -> (r: Complex)
        requires
            cx_fits(cx_mul(cx(self), cx(rhs))),
        ensures
            cx(r) == cx_mul(cx(self), cx(rhs)),
    {
        let ar = self.re as i128;
        let ai = self.im as i128;
        let br = rhs.re as i128;
        let bi = rhs.im as i128;
        proof {
            lemma_i64_product_bound(self.re, rhs.re);
            lemma_i64_product_bound(self.im, rhs.im);
            lemma_i64_product_bound(self.re, rhs.im);
            lemma_i64_product_bound(self.im, rhs.re);
        }
        let re = ar * br - ai * bi;
        let im = ar * bi + ai * br;
        Complex { re: re as i64, im: im as i64 }
    }
}

} // verus!
