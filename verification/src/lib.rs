//! A small algebraic toolkit: a modular-integer ring `ModInt<MOD>`, a generic
//! single-variable polynomial ring over any coefficient type satisfying the
//! ring-trait contracts, and a brute-force solver that finds every pair
//! `(x, y)` with `f(x) = g(y)` over `Z / MOD Z`.

pub mod fermat;
pub mod gcd;
pub mod identities;
pub mod inverse;
pub mod modint;
pub mod polynomial;
pub mod render;
pub mod ring;
pub mod solution_set;
pub mod solver;
