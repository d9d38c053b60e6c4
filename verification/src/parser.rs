//! Parsing with tree-sitter's LaTeX grammar.

use vstd::prelude::*;

use crate::syntax::{SyntaxNode, SyntaxTree};

verus! {

#[verifier::external_type_specification]
#[verifier::external_body]
pub struct ExParser(tree_sitter::Parser);

#[verifier::external_type_specification]
#[verifier::external_body]
pub struct ExLanguageError(tree_sitter::LanguageError);

#[verifier::external_type_specification]
#[verifier::external_body]
pub struct ExNode<'tree>(tree_sitter::Node<'tree>);

/// A reusable `tree-sitter-latex` parser.
pub struct LatexParser {
    parser: tree_sitter::Parser,
}

/// An error raised before Tree-sitter can return a syntax tree.
#[derive(Debug)]
pub enum ParseError {
    Language(tree_sitter::LanguageError),
    Cancelled,
}

/// The syntax tree, as plain values, that `tree-sitter-latex` gives for a text.
pub uninterp spec fn latex_parse(text: Seq<char>) -> SyntaxTree;

/// `tree_sitter::Parser::new`: a parser that has no language yet.
#[verifier::external_body]
fn new_parser() -> tree_sitter::Parser {
    tree_sitter::Parser::new()
}

/// `tree_sitter::Parser::set_language` with `tree_sitter_latex::LANGUAGE`.
/// `set_language` fails only for a grammar whose ABI version lies outside
/// `MIN_COMPATIBLE_LANGUAGE_VERSION..=LANGUAGE_VERSION` (13 to 15 here), for one
/// without a lexer (`ts_language_is_parseable`), or, with the `wasm` feature, on a
/// wasm store error. The LaTeX grammar is ABI 15 with a lexer and the `wasm`
/// feature is off, so the contract claims success.
#[verifier::external_body]
fn install_latex(parser: &mut tree_sitter::Parser) -> (r: Result<(), tree_sitter::LanguageError>)
    ensures
        r is Ok,
{
    parser.set_language(&tree_sitter::Language::from(tree_sitter_latex::LANGUAGE))
}

/// Reads a tree-sitter node and, through `Node::children` and
/// `Node::field_name_for_child`, its children in order into plain values: kind,
/// field name, whether it is named, and its byte range.
#[verifier::external_body]
fn syntax_node_from(node: tree_sitter::Node, field: Option<&str>) -> SyntaxNode {
    let mut cursor = node.walk();
    let children: Vec<SyntaxNode> = node
        .children(&mut cursor)
        .enumerate()
        .map(|(k, child)| syntax_node_from(child, node.field_name_for_child(k as u32)))
        .collect();
    SyntaxNode {
        kind: node.kind().to_string(),
        field: field.map(str::to_string),
        named: node.is_named(),
        start_byte: node.start_byte(),
        end_byte: node.end_byte(),
        children,
    }
}

/// `tree_sitter::Parser::parse` with no old tree, its root read into plain
/// values together with `Node::has_error`. `parse` returns `None` only when no
/// language is assigned, and every `LatexParser` is built by `LatexParser::new`,
/// which assigns the LaTeX grammar. `parse` hands tree-sitter no progress
/// callback, the only way to stop a parse in this version, and no included
/// ranges are ever set, so the tree depends on the text alone. The contract
/// claims a tree, named `latex_parse` of the text.
#[verifier::external_body]
fn parse_latex(parser: &mut LatexParser, source: &str) -> (r: Option<SyntaxTree>)
    ensures
        r == Some(latex_parse(source@)),
{
    parser.parser.parse(source, None).map(|tree| {
        let root = tree.root_node();
        SyntaxTree { root: syntax_node_from(root, None), has_error: root.has_error() }
    })
}

impl LatexParser {
    /// Construct a parser configured with the pinned LaTeX grammar.
    pub fn new() -> (r: Result<Self, ParseError>)
        ensures
            r is Ok,
    {
        let mut parser = new_parser();
        match install_latex(&mut parser) {
            Ok(()) => Ok(LatexParser { parser }),
            Err(e) => Err(ParseError::Language(e)),
        }
    }

    /// Parse a UTF-8 LaTeX source document.
    pub fn parse(&mut self, source: &str) -> (r: Result<SyntaxTree, ParseError>)
        ensures
            r == Ok::<SyntaxTree, ParseError>(latex_parse(source@)),
    {
        match parse_latex(self, source) {
            Some(tree) => Ok(tree),
            None => Err(ParseError::Cancelled),
        }
    }
}

} // verus!
