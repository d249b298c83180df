//! An engine for API test documents: it reads a plan of request steps from
//! text, resolves `${name}` placeholders against captured variables, judges
//! responses against the declared expectations and folds the step verdicts
//! into one verdict per document.
//!
//! The engine never performs I/O. A caller dispatches each resolved request
//! and hands the outcome back.

pub mod body;
pub mod discover;
pub mod evaluator;
pub mod json;
pub mod laws;
pub mod logging;
pub mod model;
pub mod parser;
pub mod resolver;
pub mod run;
pub mod session;
pub mod text;
pub mod vars;
pub mod wire;
