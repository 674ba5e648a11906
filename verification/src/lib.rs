//! Strict, self-contained prompt files with explicit token budgets.
//!
//! A `.htmlp` file holds one `htmlp` root whose sections carry token limits,
//! each with a nonblank reason and a budget signature. The library parses the
//! markup into a typed tree, checks it against an injected [`TokenCounter`],
//! substitutes string bindings and returns checked text with provenance.
//! The [`runtime`] module attributes model requests and accounts for tokens.
pub mod assoc;
pub mod check;
pub mod check_laws;
pub mod files;
pub mod format;
pub mod limit;
pub mod locations;
pub mod model;
pub mod parse_laws;
pub mod parser;
pub mod rendered;
pub mod runtime;
pub mod signing;
pub mod text;
pub mod tokenizer;
pub mod xml;

pub use check::{lint, render, TokenCounter};
pub use files::{check_source, is_htmlp_file, skipped_directory, summarize, CheckSummary};
pub use limit::parse_limit;
pub use model::{
    Bindings, Diagnostic, DiagnosticModel, Document, DocumentModel, ElementModel, ElementRef,
    Limits, LimitsModel, Measurement, MeasurementModel, Node, NodeModel, Position, Report,
    ReportModel, Section, SectionModel, Variable, VariableModel,
};
pub use parser::{parse, parse_template, parse_tokens};
pub use rendered::{
    render_checked, PromptModel, RenderedPrompt, RenderedSpan, SectionOrigin, SpanModel,
    TextMeasurement,
};
pub use signing::{budget_signature, sign_source, sign_tokens};
pub use tokenizer::{runs_fit, Cl100k, MAX_WHITESPACE_RUN};
pub use xml::XmlToken;
