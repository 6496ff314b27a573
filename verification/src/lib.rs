//! Runtime core of a dynamically-typed JSON query/transformation evaluator:
//! an arena of reference-counted value nodes, a re-entrant function
//! invocation context, and the standard built-in functions `lookup`,
//! `append`, `boolean`, `filter`, `string` and `count`, each with a verified
//! contract over a mathematical value model.

pub mod model;
pub mod pool;
pub mod context;
pub mod functions;
pub mod serialize;
pub mod laws;
