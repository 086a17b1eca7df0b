//! reqrun: run `.http` request files with assertions.
//!
//! `parser` reads the `.http` grammar, `vars` resolves variables and
//! environments, `http` frames requests and responses, `script` interprets
//! response handlers, `runner` decides what runs and judges it, `report`
//! renders the results, and `cli` maps arguments to runs and runs to exit
//! codes.

pub mod big;
pub mod calendar;
pub mod calendar_laws;
pub mod cli;
pub mod cli_laws;
pub mod duration;
pub mod files;
pub mod grammar_laws;
pub mod http;
pub mod http_laws;
pub mod json;
pub mod json_laws;
pub mod lexer;
pub mod lexer_laws;
pub mod number;
pub mod number_laws;
pub mod parser;
pub mod parser_laws;
pub mod random;
pub mod report;
pub mod report_laws;
pub mod runner;
pub mod runner_laws;
pub mod script;
pub mod script_join;
pub mod script_laws;
pub mod text;
pub mod text_laws;
pub mod url;
pub mod url_laws;
pub mod value_laws;
pub mod vars;
pub mod vars_laws;
pub mod verdict_laws;
