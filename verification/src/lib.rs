//! Polynomial arithmetic over the prime field Z/998244353: modular scalar
//! arithmetic, convolution, and formal power series operations (derivative,
//! integral, inverse, logarithm, exponential).

pub mod convolution;
pub mod divisibility;
pub mod fps;
pub mod modint;
pub mod poly;
