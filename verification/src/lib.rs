//! Random generation of big integers and Montgomery modular exponentiation,
//! built on an external arbitrary-precision arithmetic type.
pub mod bigrand;
pub mod digits;
pub mod ibig;
pub mod monty;
pub mod ubig;
