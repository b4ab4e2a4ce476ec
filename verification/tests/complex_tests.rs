use eigenflow::complex::Complex;

#[test]
fn test_norm_sq() {
    let z = Complex::new(3, 4);
    assert_eq!(z.norm_sq(), 25);
    assert_eq!((z.norm_sq() as f64).sqrt(), 5.0);
}

#[test]
fn test_conjugate() {
    let z = Complex::new(1, -2);
    assert_eq!(z.conjugate(), Complex::new(1, 2));
}

#[test]
fn test_multiply() {
    // (1+i)(1-i) = 1 - i^2 = 2
    let a = Complex::new(1, 1);
    let b = Complex::new(1, -1);
    let result = a.mul(b);
    assert!(((result.re as f64) - 2.0).abs() < 1e-10);
    assert!((result.im as f64).abs() < 1e-10);
}

#[test]
fn complex_add_and_neg() {
    let a = Complex::new(2, -3);
    let b = Complex::new(-5, 7);
    assert_eq!(a.add(b), Complex::new(-3, 4));
    assert_eq!(a.neg(), Complex::new(-2, 3));
    assert_eq!(Complex::zero(), Complex::new(0, 0));
    assert_eq!(Complex::one(), Complex::new(1, 0));
}

#[test]
fn complex_mul_i_squared() {
    // i * i = -1
    let i = Complex::new(0, 1);
    assert_eq!(i.mul(i), Complex::new(-1, 0));
    assert_eq!(Complex::new(3, -4).norm_sq(), 25);
}
