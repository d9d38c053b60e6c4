//! A syntax-tree-based LaTeX formatter.
//!
//! `tree-sitter-latex` constructs the concrete syntax tree, read into plain
//! values ([`SyntaxTree`]). The writer remains source-backed: it walks every
//! child, including anonymous tokens, and copies the gaps between nodes, so
//! unsupported syntax is retained. The formatting passes then rewrite the text,
//! each with a contract over the text it receives; between passes the text is
//! parsed again ([`FormatJob`]).

mod chars;
mod options;
mod text;
mod names;
mod lines;
mod skip;
mod commands;
mod sentences;
mod prose;
mod metadata;
mod layout;
mod align;
mod syntax;
mod tree;
mod edits;
mod mathfmt;
mod items;
mod display;
mod environments;
mod parser;
mod writer;

pub use options::{
    DisplayMathDelimiters, DisplayMathLayout, InlineMathDelimiters, LineEnding, WriterOptions,
};
pub use parser::{LatexParser, ParseError};
pub use syntax::{SyntaxNode, SyntaxTree};
pub use writer::{FormatJob, LatexWriter, Stage, StepView, WriteError, WriteStep};

use vstd::prelude::*;

use crate::options::preserve_options;
use crate::parser::latex_parse;
use crate::writer::write_spec;

verus! {

/// The result of one formatting pass.
#[derive(Debug, Clone, PartialEq, Eq)]
pub struct FormatOutput {
    /// The rendered LaTeX document.
    pub text: String,
    /// Whether Tree-sitter recovered from malformed or unsupported input.
    pub had_parse_errors: bool,
}

/// An error raised while parsing or writing a document.
#[derive(Debug)]
pub enum FormatError {
    Parse(ParseError),
    Write(WriteError),
}

impl From<ParseError> for FormatError {
    fn from(error: ParseError) -> (r: Self) {
        FormatError::Parse(error)
    }
}

impl vstd::std_specs::convert::FromSpecImpl<ParseError> for FormatError {
    open spec fn obeys_from_spec() -> bool {
        true
    }

    open spec fn from_spec(error: ParseError) -> FormatError {
        FormatError::Parse(error)
    }
}

impl From<WriteError> for FormatError {
    fn from(error: WriteError) -> (r: Self) {
        FormatError::Write(error)
    }
}

impl vstd::std_specs::convert::FromSpecImpl<WriteError> for FormatError {
    open spec fn obeys_from_spec() -> bool {
        true
    }

    open spec fn from_spec(error: WriteError) -> FormatError {
        FormatError::Write(error)
    }
}

/// Parse and format one LaTeX document.
pub fn format(source: &str, options: &WriterOptions) -> (r: Result<FormatOutput, FormatError>)
    ensures
        match r {
            Ok(out) => write_spec(source@, *options, latex_parse(source@).root) == Ok::<Seq<char>, WriteError>(out.text@)
                && out.had_parse_errors == latex_parse(source@).has_error,
            Err(FormatError::Write(e)) => write_spec(source@, *options, latex_parse(source@).root) == Err::<Seq<char>, WriteError>(e),
            Err(FormatError::Parse(_)) => false,
        },
        *options == preserve_options() ==> (r matches Ok(out) ==> out.text@ == source@),
{
    let mut parser = match LatexParser::new() {
        Ok(p) => p,
        Err(e) => {
            return Err(FormatError::from(e));
        },
    };
    let tree = match parser.parse(source) {
        Ok(t) => t,
        Err(e) => {
            return Err(FormatError::from(e));
        },
    };
    let had_parse_errors = tree.has_error;
    let writer = LatexWriter::new(source, options);
    proof {
        writer::preserve_mode_is_lossless(source@, tree.root);
    }
    match writer.write(&tree) {
        Ok(text) => Ok(FormatOutput { text, had_parse_errors }),
        Err(e) => Err(FormatError::from(e)),
    }
}

} // verus!
