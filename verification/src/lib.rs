//! Diagnostics-grade JSON engine: a recovering lexer and parser that report
//! every problem of a document in one pass, with stable codes, byte spans and hints.
pub mod diag;
pub mod line_index;
pub mod text;
pub mod lex_spec;
pub mod wide;
pub mod precision;
pub mod lexer;
pub mod parse_spec;
pub mod parser;
pub mod report;
pub mod laws;
pub mod events_law;
pub mod grammar;
pub mod conformance;
pub mod acceptance;
pub mod completeness;
pub mod validity;
pub mod tree;
pub mod tree_law;
pub mod keep_lex;
pub mod keep_parse;
pub mod depth_law;
pub mod policy_law;
pub mod report_law;
pub mod report_accept;
pub mod codes_law;
pub mod token_law;
pub mod esc_law;
pub mod lines_law;
pub mod lexer_law;
pub mod keys_law;
pub mod scan_law;
pub mod sync_parse;

pub use diag::{Diagnostic, Severity, Span, MAX_DIAGNOSTICS};
pub use lex_spec::Mode;
pub use lexer::{Lexer, Tok, Token};
pub use line_index::LineIndex;
pub use parse_spec::{DupKeys, ParseOptions};
pub use parser::{parse_events, validate, Event, ParseResult};
pub use report::{esc, frame_report, report_json};
pub use tree::{NullSink, TreeSink, Value};
