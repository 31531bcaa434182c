//! The mathematics that the contracts of this crate are stated in, and the
//! lemmas that connect it to the executable code.

pub mod binomial;
pub mod fermat;
pub mod modular;
pub mod primes;
pub mod strong;
