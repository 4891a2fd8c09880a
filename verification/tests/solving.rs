use modpoly::modint::ModInt;
use modpoly::polynomial::Polynomial;
use modpoly::render::Render;
use modpoly::solution_set::SolutionSet;
use modpoly::solver::{is_prime, solve_equation};

type M5 = ModInt<5>;

fn m5(n: u64) -> M5 {
    ModInt::new(n)
}

#[test]
fn solver_finds_square_pairs() {
    // f(x) = x against g(y) = y^2 over Z/5Z
    let f: Polynomial<M5> = Polynomial::new(&vec![m5(0), m5(1)]);
    let g: Polynomial<M5> = Polynomial::new(&vec![m5(0), m5(0), m5(1)]);
    let s = solve_equation(&f, &g);
    assert_eq!(s.size(), 5);
    let pairs = s.unwrap();
    for (i, j) in [(0u64, 0u64), (1, 1), (1, 4), (4, 2), (4, 3)] {
        assert!(pairs.contains(&(m5(i), m5(j))));
    }
    // completeness: nothing else got in
    for i in 0..5u64 {
        for j in 0..5u64 {
            assert_eq!(pairs.contains(&(m5(i), m5(j))), i == (j * j) % 5);
        }
    }
}

#[test]
fn solver_empty_solution_set() {
    // the constants 1 and 2 are never equal mod 5
    let f: Polynomial<M5> = Polynomial::new_constant(m5(1));
    let g: Polynomial<M5> = Polynomial::new_constant(m5(2));
    let s = solve_equation(&f, &g);
    assert_eq!(s.size(), 0);
    assert_eq!(s.render(), "{ }");
}

#[test]
fn solver_constant_equation() {
    // f(x) = 3 and g(y) = 3 agree everywhere: all 25 pairs
    let f: Polynomial<M5> = Polynomial::new_constant(m5(3));
    let g: Polynomial<M5> = Polynomial::new_constant(m5(3));
    let s = solve_equation(&f, &g);
    assert_eq!(s.size(), 25);
}

#[test]
fn display_omits_zero_terms_and_unit_coefficients() {
    let p: Polynomial<M5> = Polynomial::new(&vec![m5(0), m5(1), m5(0), m5(3)]);
    assert_eq!(p.print_f_of_x(), "x + 3x^3");
    assert_eq!(p.print_f_of_y(), "y + 3y^3");
}

#[test]
fn display_of_constants() {
    let z: Polynomial<M5> = Polynomial::zero();
    assert_eq!(z.print_f_of_x(), "0");
    let c: Polynomial<M5> = Polynomial::new_constant(m5(7));
    assert_eq!(c.print_f_of_x(), "2");
}

#[test]
fn display_general_shapes() {
    let p: Polynomial<M5> = Polynomial::new(&vec![m5(2), m5(3), m5(1)]);
    assert_eq!(p.print_f_of_x(), "2 + 3x + x^2");
    let q: Polynomial<M5> = Polynomial::new(&vec![m5(1), m5(1)]);
    assert_eq!(q.print_f_of_x(), "1 + x");
    let r: Polynomial<M5> = Polynomial::new(&vec![m5(0), m5(0), m5(2)]);
    assert_eq!(r.print_f_of_x(), "2x^2");
    let s: Polynomial<M5> = Polynomial::new(&vec![m5(0), m5(2)]);
    assert_eq!(s.print_f_of_y(), "2y");
}

#[test]
fn modint_renders_decimal_digits() {
    let chars = ModInt::<101>::new(135).render();
    let text: String = chars.into_iter().collect();
    assert_eq!(text, "34");
}

#[test]
fn solution_set_insert_deduplicates() {
    let mut s: SolutionSet<(M5, M5)> = SolutionSet::new(Vec::new());
    s.insert((m5(1), m5(2)));
    s.insert((m5(1), m5(2)));
    s.insert((m5(2), m5(1)));
    assert_eq!(s.size(), 2);
    let items = s.unwrap();
    assert!(items.contains(&(m5(1), m5(2))));
    assert!(items.contains(&(m5(2), m5(1))));
}

#[test]
fn solution_set_renders_pairs() {
    let mut s: SolutionSet<(M5, M5)> = SolutionSet::new(Vec::new());
    s.insert((m5(0), m5(3)));
    s.insert((m5(4), m5(1)));
    assert_eq!(s.render(), "{(0, 3), (4, 1)}");
}

#[test]
fn primality_of_small_numbers() {
    assert!(is_prime(2));
    assert!(is_prime(3));
    assert!(is_prime(5));
    assert!(is_prime(7));
    assert!(is_prime(101));
    assert!(!is_prime(0));
    assert!(!is_prime(1));
    assert!(!is_prime(4));
    assert!(!is_prime(6));
    assert!(!is_prime(9));
    assert!(!is_prime(100));
}
