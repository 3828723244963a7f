//! Exact rational arithmetic: fractions and mixed numbers over `i32`
//! numerator/denominator pairs, together with the integer-theory utilities
//! (primality testing, next-prime search, least common multiples by prime
//! factorization, divisor enumeration) that the fraction operations rest on.

pub mod divisibility;
pub mod fraction;
pub mod prime;
