//! Static checking of parameterized circuit designs: the exact Int/Length
//! expression evaluator, the expansion budget meter, and declaration-time
//! validation of function, subdesign and design bodies.
pub mod text;
pub mod strmap;
pub mod ast;
pub mod diag;
pub mod eval;
pub mod meter;
pub mod world;
pub mod refs;
pub mod definition;
pub mod bodies;
