pub mod execute;
pub mod expand;
pub mod laws;
pub mod lexer;
pub mod outcome;
pub mod parser;
pub mod text;
pub mod token;

pub use execute::{child_finished, run_builtin, run_command, Action};
pub use outcome::ParseRes;
pub use parser::{parse_command, parse_quoted_expr, parse_single_quoted_expr, ParseOp, Parsed};
