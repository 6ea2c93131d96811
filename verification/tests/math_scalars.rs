use forcelayout::fixed::{isqrt, isqrt_ceil};
use forcelayout::params::Parameters;

#[test]
fn integer_square_roots_are_exact() {
    assert_eq!(isqrt(0), 0);
    assert_eq!(isqrt(1), 1);
    assert_eq!(isqrt(15), 3);
    assert_eq!(isqrt(16), 4);
    assert_eq!(isqrt(17), 4);
    assert_eq!(isqrt(100_000_000_000_000_000_000), 10_000_000_000);
    assert_eq!(isqrt_ceil(0), 0);
    assert_eq!(isqrt_ceil(15), 4);
    assert_eq!(isqrt_ceil(16), 4);
    assert_eq!(isqrt_ceil(17), 5);
}

#[test]
fn parameters_expose_get_and_set() {
    let mut p = Parameters::new();
    assert_eq!(p.get_repulsion(), 300_000_000);
    assert_eq!(p.get_attraction(), 10_000);
    assert_eq!(p.get_center(), 10);
    assert_eq!(p.get_k(), 198_164_000);
    assert_eq!(p.get_max_step(), 10_000_000);
    assert_eq!(p.get_max_diameter(), 30_000_000_000);
    p.set_repulsion(90_000_000);
    p.set_attraction(5_000_000);
    p.set_center(1_000);
    p.set_k(10_000_000);
    p.set_max_step(100_000_000);
    p.set_max_diameter(500_000_000_000);
    assert_eq!(p.get_repulsion(), 90_000_000);
    assert_eq!(p.get_attraction(), 5_000_000);
    assert_eq!(p.get_center(), 1_000);
    assert_eq!(p.get_k(), 10_000_000);
    assert_eq!(p.get_max_step(), 100_000_000);
    assert_eq!(p.get_max_diameter(), 500_000_000_000);
    let d = Parameters::default();
    assert_eq!(d, Parameters::new());
}
