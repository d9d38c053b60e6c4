// The published `tree-sitter-latex` 0.1.0 package ships the grammar's parse
// tables without its external scanner (`src/scanner.c`), so no test binary
// that calls the grammar links. These tests therefore stand in for the parser:
// they build by hand the tree that a parse gives and run the writer on it, and
// `format_preserved` plays the part of `format`, which cannot run here.
use latex_treefmt::{
    FormatOutput, LatexWriter, SyntaxNode, SyntaxTree, WriteError, WriteStep, WriterOptions,
};

fn leaf(kind: &str, start: usize, end: usize) -> SyntaxNode {
    SyntaxNode {
        kind: kind.to_string(),
        field: None,
        named: true,
        start_byte: start,
        end_byte: end,
        children: Vec::new(),
    }
}

fn tree(children: Vec<SyntaxNode>, len: usize, has_error: bool) -> SyntaxTree {
    SyntaxTree {
        root: SyntaxNode {
            kind: "source_file".to_string(),
            field: None,
            named: true,
            start_byte: 0,
            end_byte: len,
            children,
        },
        has_error,
    }
}

/// What `format` returns with the preserve options for a document whose tree
/// is `tree`: the writer's text and the tree's own error flag.
fn format_preserved(source: &str, tree: &SyntaxTree) -> FormatOutput {
    match LatexWriter::new(source, &WriterOptions::preserve()).start(tree).unwrap() {
        WriteStep::Done(text) => FormatOutput {
            text,
            had_parse_errors: tree.has_error,
        },
        WriteStep::Parse(_) => panic!("the preserve options ask for no other tree"),
    }
}

#[test]
fn recovered_input_is_reported_and_remains_lossless() {
    let source = "$ foo $$ bar";
    // A hand-built stand-in for the tree a parse gives when it reads `$ foo $`
    // as a formula and recovers from the unclosed `$`. The error flag is the
    // tree's own, so this test checks that the writer stays lossless on a
    // recovered tree and that the flag is handed through, not the recovery.
    let parsed = tree(
        vec![leaf("inline_formula", 0, 7), leaf("ERROR", 7, 12)],
        source.len(),
        true,
    );
    let output = format_preserved(source, &parsed);

    assert_eq!(output.text, source);
    assert!(output.had_parse_errors);
}

#[test]
fn preserve_mode_returns_multibyte_text_unchanged() {
    let source = "Größe $x$ — €\r\n";
    let parsed = tree(vec![leaf("word", 0, 7), leaf("inline_formula", 8, 11)], source.len(), false);
    let output = format_preserved(source, &parsed);

    assert_eq!(output.text, source);
    assert!(!output.had_parse_errors);
}

#[test]
fn a_tree_that_does_not_span_the_source_is_refused() {
    let source = "text";
    let parsed = tree(Vec::new(), 3, false);
    match LatexWriter::new(source, &WriterOptions::preserve()).start(&parsed) {
        Err(WriteError::TreeDoesNotCoverSource { tree, source_len }) => {
            assert_eq!(tree, (0, 3));
            assert_eq!(source_len, 4);
        }
        other => panic!("unexpected result: {other:?}"),
    }
}

#[test]
fn a_range_inside_a_character_is_refused() {
    let source = "é";
    let parsed = tree(vec![leaf("word", 0, 1)], source.len(), false);
    match LatexWriter::new(source, &WriterOptions::preserve()).start(&parsed) {
        Err(WriteError::InvalidSourceRange(range)) => assert_eq!(range, (0, 1)),
        other => panic!("unexpected result: {other:?}"),
    }
}

#[test]
fn children_out_of_order_are_refused() {
    let source = "ab cd";
    let parsed = tree(vec![leaf("word", 3, 5), leaf("word", 0, 2)], source.len(), false);
    match LatexWriter::new(source, &WriterOptions::preserve()).start(&parsed) {
        Err(WriteError::InvalidSourceRange(range)) => assert_eq!(range, (5, 0)),
        other => panic!("unexpected result: {other:?}"),
    }
}
