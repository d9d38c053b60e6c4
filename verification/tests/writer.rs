use latex_treefmt::{
    DisplayMathDelimiters, DisplayMathLayout, InlineMathDelimiters, LatexWriter, LineEnding,
    Stage, SyntaxNode, SyntaxTree, WriteError, WriteStep, WriterOptions,
};

// The published `tree-sitter-latex` 0.1.0 package ships the grammar's parse
// tables without its external scanner (`src/scanner.c`), so no test binary
// that calls the grammar links, and `LatexParser` cannot run here. In its
// place, a small reader for the LaTeX that these tests use builds the node
// kinds and fields that the writer reads, the way the grammar names them, and
// `write` drives `LatexWriter::start` and `FormatJob::resume` with its trees.

fn leaf(kind: &str, field: Option<&str>, named: bool, start: usize, end: usize) -> SyntaxNode {
    branch(kind, field, named, start, end, Vec::new())
}

fn branch(
    kind: &str,
    field: Option<&str>,
    named: bool,
    start: usize,
    end: usize,
    children: Vec<SyntaxNode>,
) -> SyntaxNode {
    SyntaxNode {
        kind: kind.to_string(),
        field: field.map(str::to_string),
        named,
        start_byte: start,
        end_byte: end,
        children,
    }
}

const MATH_ENVIRONMENTS: &[&str] = &[
    "math", "displaymath", "displaymath*", "equation", "equation*", "multline", "multline*",
    "eqnarray", "eqnarray*", "align", "align*", "aligned", "array", "array*", "split", "split*",
    "alignat", "alignat*", "gather", "gather*", "gathered", "flalign", "flalign*",
];

const VERBATIM_ENVIRONMENTS: &[&str] = &["verbatim", "verbatim*", "lstlisting", "minted"];

#[derive(Clone, Copy, PartialEq)]
enum Stop {
    Eof,
    Brace,
    CloseParen,
    CloseBracket,
    End,
}

struct Reader<'a> {
    s: &'a [u8],
    error: bool,
}

impl<'a> Reader<'a> {
    fn at(&self, i: usize, lit: &str) -> bool {
        self.s[i..].starts_with(lit.as_bytes())
    }

    fn stops(&self, i: usize, stops: &[Stop], math: bool) -> bool {
        stops.iter().any(|stop| match stop {
            Stop::Eof => false,
            Stop::Brace => self.s[i] == b'}',
            Stop::CloseParen => self.at(i, "\\)") || (math && self.s[i] == b'$'),
            Stop::CloseBracket => self.at(i, "\\]") || self.at(i, "$$"),
            Stop::End => self.at(i, "\\end{") || self.at(i, "\\item"),
        })
    }

    fn command_end(&self, i: usize) -> usize {
        let mut j = i + 1;
        if j >= self.s.len() {
            return j;
        }
        if self.s[j].is_ascii_alphabetic() || self.s[j] == b'@' {
            while j < self.s.len() && (self.s[j].is_ascii_alphabetic() || self.s[j] == b'@') {
                j += 1;
            }
            if j < self.s.len() && self.s[j] == b'*' {
                j += 1;
            }
            j
        } else {
            j + 1
        }
    }

    fn sequence(&mut self, i: &mut usize, stops: &[Stop], math: bool, items: bool) -> Vec<SyntaxNode> {
        let mut nodes = Vec::new();
        loop {
            while *i < self.s.len() && self.s[*i].is_ascii_whitespace() {
                *i += 1;
            }
            if *i >= self.s.len() || self.stops(*i, stops, math) {
                return nodes;
            }
            if items && !math && self.at(*i, "\\item") && !self.s.get(*i + 5).is_some_and(u8::is_ascii_alphabetic) {
                nodes.push(self.item(i, stops));
                continue;
            }
            nodes.push(self.element(i, math));
        }
    }

    fn item(&mut self, i: &mut usize, stops: &[Stop]) -> SyntaxNode {
        let start = *i;
        let command_end = self.command_end(*i);
        let mut children = vec![leaf("\\item", Some("command"), false, start, command_end)];
        *i = command_end;
        if *i < self.s.len() && self.s[*i] == b'[' {
            let close = self.s[*i..].iter().position(|b| *b == b']').map_or(self.s.len(), |k| *i + k + 1);
            children.push(branch(
                "brackets_group_text",
                Some("label"),
                true,
                *i,
                close,
                vec![leaf("[", None, false, *i, *i + 1), leaf("]", None, false, close - 1, close)],
            ));
            *i = close;
        }
        let mut inner: Vec<Stop> = stops.to_vec();
        inner.push(Stop::End);
        let content = self.sequence(i, &inner, false, false);
        let end = content.last().map_or(children.last().unwrap().end_byte, |n| n.end_byte);
        children.extend(content);
        branch("enum_item", None, true, start, end, children)
    }

    fn group(&mut self, i: &mut usize, kind: &str, field: Option<&str>, math: bool) -> SyntaxNode {
        let start = *i;
        *i += 1;
        let mut children = vec![leaf("{", None, false, start, start + 1)];
        children.extend(self.sequence(i, &[Stop::Brace], math, true));
        if *i < self.s.len() {
            children.push(leaf("}", None, false, *i, *i + 1));
            *i += 1;
        } else {
            self.error = true;
        }
        branch(kind, field, true, start, *i, children)
    }

    fn formula(&mut self, i: &mut usize, kind: &str, open: &str, stop: Stop, closes: &[&str]) -> SyntaxNode {
        let start = *i;
        *i += open.len();
        let mut children = vec![leaf(open, None, false, start, *i)];
        children.extend(self.sequence(i, &[stop], true, false));
        match closes.iter().find(|close| *i < self.s.len() && self.at(*i, close)) {
            Some(close) => {
                children.push(leaf(close, None, false, *i, *i + close.len()));
                *i += close.len();
            }
            None => self.error = true,
        }
        branch(kind, None, true, start, *i, children)
    }

    fn environment(&mut self, i: &mut usize) -> SyntaxNode {
        let start = *i;
        let name_start = start + "\\begin".len();
        let close = self.s[name_start..].iter().position(|b| *b == b'}').map_or(self.s.len(), |k| name_start + k + 1);
        let name = String::from_utf8(self.s[name_start + 1..close - 1].to_vec()).unwrap();
        let mut begin_children = vec![
            leaf("\\begin", Some("command"), false, start, name_start),
            branch(
                "curly_group_text",
                Some("name"),
                true,
                name_start,
                close,
                vec![leaf("word", Some("text"), true, name_start + 1, close - 1)],
            ),
        ];
        *i = close;
        let verbatim = VERBATIM_ENVIRONMENTS.contains(&name.as_str());
        let math = MATH_ENVIRONMENTS.contains(&name.as_str());
        if !verbatim && !math {
            let mut j = *i;
            while j < self.s.len() && self.s[j].is_ascii_whitespace() {
                j += 1;
            }
            if j < self.s.len() && self.s[j] == b'[' {
                let end = self.s[j..].iter().position(|b| *b == b']').map_or(self.s.len(), |k| j + k + 1);
                begin_children.push(branch("brackets_group", Some("options"), true, j, end, vec![]));
                *i = end;
            }
        }
        let begin = branch("begin", Some("begin"), true, start, *i, begin_children);
        let end_marker = format!("\\end{{{name}}}");
        let mut children = vec![begin];
        if verbatim {
            let body_end = self.s[*i..]
                .windows(end_marker.len())
                .position(|w| w == end_marker.as_bytes())
                .map_or(self.s.len(), |k| *i + k);
            let mut j = *i;
            while j < body_end && self.s[j].is_ascii_whitespace() {
                j += 1;
            }
            if j < body_end {
                children.push(leaf("comment", Some("code"), true, j, body_end));
            }
            *i = body_end;
        } else {
            loop {
                let content = self.sequence(i, &[Stop::End], math, true);
                children.extend(content);
                if *i < self.s.len() && self.at(*i, "\\item") {
                    children.push(self.item(i, &[]));
                    continue;
                }
                break;
            }
        }
        let kind = if verbatim {
            "verbatim_environment"
        } else if math {
            "math_environment"
        } else {
            "generic_environment"
        };
        if *i < self.s.len() && self.at(*i, &end_marker) {
            let end_start = *i;
            *i += end_marker.len();
            children.push(branch(
                "end",
                Some("end"),
                true,
                end_start,
                *i,
                vec![
                    leaf("\\end", Some("command"), false, end_start, end_start + 4),
                    branch(
                        "curly_group_text",
                        Some("name"),
                        true,
                        end_start + 4,
                        *i,
                        vec![leaf("word", Some("text"), true, end_start + 5, *i - 1)],
                    ),
                ],
            ));
        } else {
            self.error = true;
        }
        branch(kind, None, true, start, *i, children)
    }

    fn element(&mut self, i: &mut usize, math: bool) -> SyntaxNode {
        let start = *i;
        let c = self.s[start];
        if c == b'%' {
            let mut j = start;
            while j < self.s.len() && self.s[j] != b'\n' && self.s[j] != b'\r' {
                j += 1;
            }
            *i = j;
            return leaf("line_comment", None, true, start, j);
        }
        if c == b'{' {
            return self.group(i, "curly_group", None, math);
        }
        if self.at(start, "$$") {
            return self.formula(i, "displayed_equation", "$$", Stop::CloseBracket, &["$$", "\\]"]);
        }
        if c == b'$' {
            return self.formula(i, "inline_formula", "$", Stop::CloseParen, &["$", "\\)"]);
        }
        if self.at(start, "\\(") {
            return self.formula(i, "inline_formula", "\\(", Stop::CloseParen, &["\\)", "$"]);
        }
        if self.at(start, "\\[") {
            return self.formula(i, "displayed_equation", "\\[", Stop::CloseBracket, &["\\]", "$$"]);
        }
        if self.at(start, "\\begin{") {
            return self.environment(i);
        }
        if math && (c == b'^' || c == b'_') {
            let (kind, token) = if c == b'^' { ("superscript", "^") } else { ("subscript", "_") };
            *i += 1;
            let mut children = vec![leaf(token, None, false, start, start + 1)];
            if *i < self.s.len() {
                if self.s[*i] == b'{' {
                    children.push(self.group(i, "curly_group", Some(kind), true));
                } else if self.s[*i] == b'\\' {
                    let end = self.command_end(*i);
                    children.push(leaf("command_name", Some(kind), true, *i, end));
                    *i = end;
                } else {
                    children.push(leaf("letter", Some(kind), true, *i, *i + 1));
                    *i += 1;
                }
            }
            return branch(kind, None, true, start, *i, children);
        }
        if c == b'\\' {
            let end = self.command_end(start);
            *i = end;
            let name = &self.s[start..end];
            if math && name == b"\\text" {
                let mut children = vec![leaf("\\text", Some("command"), false, start, end)];
                if *i < self.s.len() && self.s[*i] == b'{' {
                    children.push(self.group(i, "curly_group", Some("content"), false));
                }
                return branch("text_mode", None, true, start, *i, children);
            }
            let mut children = vec![leaf("command_name", Some("command"), true, start, end)];
            while *i < self.s.len() && self.s[*i] == b'{' {
                children.push(self.group(i, "curly_group", Some("arg"), math));
            }
            return branch("generic_command", None, true, start, *i, children);
        }
        let mut j = start;
        while j < self.s.len()
            && !self.s[j].is_ascii_whitespace()
            && !matches!(self.s[j], b'\\' | b'$' | b'{' | b'}' | b'%')
            && !(math && matches!(self.s[j], b'^' | b'_'))
        {
            j += 1;
        }
        *i = j;
        leaf("word", None, true, start, j)
    }
}

fn read(source: &str) -> SyntaxTree {
    let mut reader = Reader { s: source.as_bytes(), error: false };
    let mut i = 0;
    let mut children = Vec::new();
    while i < source.len() {
        children.extend(reader.sequence(&mut i, &[Stop::Eof], false, true));
        if i < source.len() {
            reader.error = true;
            let start = i;
            i += 1;
            children.push(leaf("ERROR", None, true, start, i));
        }
    }
    SyntaxTree {
        root: branch("source_file", None, true, 0, source.len(), children),
        has_error: reader.error,
    }
}

fn write(source: &str, options: &WriterOptions) -> String {
    let tree = read(source);
    let mut step = LatexWriter::new(source, options).start(&tree).unwrap();
    loop {
        match step {
            WriteStep::Done(text) => return text,
            WriteStep::Parse(job) => {
                let text = job.text();
                step = job.resume(&read(&text)).unwrap();
            }
        }
    }
}

#[test]
fn preserve_mode_is_byte_for_byte_lossless() {
    let source = "Text $\\sqrt[3]{x}$  % keep me  \r\n";
    assert_eq!(write(source, &WriterOptions::preserve()), source);
}

#[test]
fn indents_nested_environments_and_trims_lines() {
    let source = "\\begin{document}\n text   \n \\begin{itemize}\n\\item one   \n\n\n \\end{itemize}\n\\end{document}";
    let expected = "\\begin{document}\ntext\n\\begin{itemize}\n  \\item\n    one\n\\end{itemize}\n\\end{document}\n";

    assert_eq!(write(source, &WriterOptions::default()), expected);
}

#[test]
fn puts_item_declarations_and_bodies_on_separate_lines() {
    let source = "\\begin{enumerate}\nprefix \\item First item. More text.\\item[Named] Second item.\n\\end{enumerate}\n";
    let expected = "\\begin{enumerate}\n  prefix\n  \\item\n    First item.\n    More text.\n  \\item[Named]\n    Second item.\n\\end{enumerate}\n";

    assert_eq!(write(source, &WriterOptions::default()), expected);
}

#[test]
fn can_preserve_existing_item_line_breaks() {
    let source = "\\begin{enumerate}\n\\item One\n\\end{enumerate}\n";
    let options = WriterOptions {
        item_starts_on_own_line: false,
        item_finishes_with_line_break: false,
        ..WriterOptions::default()
    };

    assert_eq!(
        write(source, &options),
        "\\begin{enumerate}\n  \\item One\n\\end{enumerate}\n"
    );
}

#[test]
fn can_indent_document_contents() {
    let source = "\\begin{document}\ntext\n\\end{document}\n";
    let options = WriterOptions {
        indent_document: true,
        ..WriterOptions::default()
    };

    assert_eq!(
        write(source, &options),
        "\\begin{document}\n  text\n\\end{document}\n"
    );
}

#[test]
fn allows_blank_lines_inside_document_boundaries() {
    let source = "\\begin{document}\n\n text   \n\n\\end{document}\n";
    let expected = "\\begin{document}\n\ntext\n\n\\end{document}\n";

    assert_eq!(write(source, &WriterOptions::default()), expected);
    assert_eq!(write(expected, &WriterOptions::default()), expected);
}

#[test]
fn puts_inline_document_boundaries_on_their_own_lines() {
    let source = "Before \\begin{document}Body text.\\end{document} After\n";
    let expected = "Before\n\\begin{document}\nBody text.\n\\end{document}\nAfter\n";

    assert_eq!(write(source, &WriterOptions::default()), expected);
}

#[test]
fn aligns_columns_and_row_terminators_in_structured_environments() {
    let source = "\\begin{align*}\na &= x + 1 \\\\ % first\nlong_name&=y\\\\[1ex]\nz&=\\text{a & b}\n\\end{align*}\n\\begin{tabular}{ll}\nA & short\\\\\nLong & x \\\\\nAT\\&T & value\n\\end{tabular}\n";
    let expected = "\\begin{align*}\n  a         & =x+1          \\\\ % first\n  long_name & =y            \\\\[1ex]\n  z         & =\\text{a & b}\n\\end{align*}\n\\begin{tabular}{ll}\n  A     & short \\\\\n  Long  & x     \\\\\n  AT\\&T & value\n\\end{tabular}\n";

    assert_eq!(write(source, &WriterOptions::default()), expected);
}

#[test]
fn preserves_alignment_padding_before_leading_empty_cells() {
    let source = "      \\begin{array}{ccc}\n        I& &A\\\\\n         &I&B\\\\\n         & &C\n      \\end{array}\n";
    let expected = "\\begin{array}{ccc}\n  I &   & A \\\\\n    & I & B \\\\\n    &   & C\n\\end{array}\n";

    assert_eq!(write(source, &WriterOptions::default()), expected);
    assert_eq!(write(expected, &WriterOptions::default()), expected);
}

#[test]
fn can_disable_environment_row_alignment() {
    let source = "\\begin{align*}\na &= x \\\\\nlong&=y \\\\\n\\end{align*}\n";
    let options = WriterOptions {
        align_environment_rows: false,
        ..WriterOptions::default()
    };

    assert_eq!(
        write(source, &options),
        "\\begin{align*}\n  a&=x\\\\\n  long&=y\\\\\n\\end{align*}\n"
    );
}

#[test]
fn preserves_verbatim_content() {
    let source = "\\begin{document}\n\\begin{verbatim}\n  literal   text   \n\n\n\\end{verbatim}\n\\end{document}\n";
    let expected = "\\begin{document}\n\\begin{verbatim}\n  literal   text   \n\n\n\\end{verbatim}\n\\end{document}\n";

    assert_eq!(write(source, &WriterOptions::default()), expected);
}

#[test]
fn converts_line_endings() {
    let options = WriterOptions {
        line_ending: LineEnding::Crlf,
        ..WriterOptions::default()
    };

    assert_eq!(write("one\ntwo\n", &options), "one\r\ntwo\r\n");
}

#[test]
fn retains_comment_contents() {
    let source = "% trailing spaces are comment text   \ntext   \n";
    let expected = "% trailing spaces are comment text   \ntext\n";

    assert_eq!(write(source, &WriterOptions::default()), expected);
}

#[test]
fn skips_formatting_between_comment_directives() {
    let source = "\\begin{document}\n before. After.   \n  % latex-treefmt: off  \r\n  $ x  + y $   \r\n\r\n  \\section{Untouched}   \r\n  % latex-treefmt: on  \r\n after. Again.   \n\\end{document}\n";
    let expected = "\\begin{document}\nbefore.\nAfter.\n  % latex-treefmt: off  \r\n  $ x  + y $   \r\n\r\n  \\section{Untouched}   \r\n  % latex-treefmt: on  \r\nafter.\nAgain.\n\\end{document}\n";

    assert_eq!(write(source, &WriterOptions::default()), expected);
    assert_eq!(write(expected, &WriterOptions::default()), expected);
}

#[test]
fn skips_alignment_and_item_rewrites_inside_directives() {
    let source = "\\begin{align*}\na &= x \\\\\n% latex-treefmt: off\n  long &= x + y   \\\\  \n% latex-treefmt: on\nb &= z \\\\\n\\end{align*}\n\\begin{enumerate}\n% latex-treefmt: off\n\\item First item. Second item.\n% latex-treefmt: on\n\\item Third item.\n\\end{enumerate}\n";
    let output = write(source, &WriterOptions::default());

    assert!(output.contains("  long &= x + y   \\\\  \n"));
    assert!(output.contains("\\item First item. Second item.\n"));
    assert!(output.contains("  \\item\n    Third item.\n"));
    assert_eq!(write(&output, &WriterOptions::default()), output);
}

#[test]
fn skips_to_end_of_file_without_an_on_directive() {
    let source = "before. After.\n% latex-treefmt: off\r\n  $ x + y $   ";
    let expected = "before.\nAfter.\n% latex-treefmt: off\r\n  $ x + y $   ";

    assert_eq!(write(source, &WriterOptions::default()), expected);
}

#[test]
fn skipped_lines_keep_their_line_endings_when_conversion_is_requested() {
    let source = "before\n% latex-treefmt: off\n  literal   \n% latex-treefmt: on\nafter\n";
    let options = WriterOptions {
        line_ending: LineEnding::Crlf,
        ..WriterOptions::default()
    };
    let expected =
        "before\r\n% latex-treefmt: off\n  literal   \n% latex-treefmt: on\nafter\r\n";

    assert_eq!(write(source, &options), expected);
}

#[test]
fn preserves_multiple_regions_and_display_math_layout() {
    let source = "% latex-treefmt: off\n\\[ x + y \\]\n% latex-treefmt: on\nBetween. Sentences.\n% latex-treefmt: off\n\\begin{equation} a + b \\end{equation}\n% latex-treefmt: on";
    let expected = "% latex-treefmt: off\n\\[ x + y \\]\n% latex-treefmt: on\nBetween.\nSentences.\n% latex-treefmt: off\n\\begin{equation} a + b \\end{equation}\n% latex-treefmt: on";

    assert_eq!(write(source, &WriterOptions::default()), expected);
}

#[test]
fn ignores_directive_text_in_verbatim_and_inline_comments() {
    let source = "\\begin{verbatim}\n% latex-treefmt: off\n\\end{verbatim}\nbefore. After. % latex-treefmt: off\nfollowing. Sentence.\n";
    let output = write(source, &WriterOptions::default());

    assert!(output.contains("before.\nAfter. % latex-treefmt: off\n"));
    assert!(output.contains("following.\nSentence.\n"));
}

#[test]
fn ignores_on_directive_inside_verbatim_within_skipped_region() {
    let source = "% latex-treefmt: off\n\\begin{verbatim}\n% latex-treefmt: on\n\\end{verbatim}\n  $ x + y $   \n% latex-treefmt: on\nAfter. Another.\n";
    let expected = source.replace("After. Another.\n", "After.\nAnother.\n");

    assert_eq!(write(source, &WriterOptions::default()), expected);
}

#[test]
fn compacts_math_without_changing_control_words_or_text() {
    let source = "$ \\forall   c \\in \\text{two words} \\quad L^{U} + N_{1} $\n$ \\operatorname{special linear} ( x ) + e^{2\\pi i/3} $\n$a\\ b$\n";
    let expected = "$\\forall c\\in\\text{two words}\\quad L^U+N_1$\n$\\operatorname{special linear}(x)+e^{2\\pi i/3}$\n$a\\ b$\n";

    assert_eq!(write(source, &WriterOptions::default()), expected);
}

#[test]
fn keeps_script_braces_when_a_control_word_precedes_a_letter() {
    let source = "$T^{\\top}x+A_{\\alpha} y+B^{\\top}+C$\n";
    let expected = "$T^{\\top}x+A_{\\alpha}y+B^\\top+C$\n";

    assert_eq!(write(source, &WriterOptions::default()), expected);
    assert_eq!(write(expected, &WriterOptions::default()), expected);
}

#[test]
fn wraps_sentences_and_separates_sections() {
    let source = "First sentence. Second sentence with cf. Section A.\n\\subsection{Next}\nBody text. Another sentence.\n";
    let expected = "First sentence.\nSecond sentence with cf. Section A.\n\n\\subsection{Next}\n\nBody text.\nAnother sentence.\n";

    assert_eq!(write(source, &WriterOptions::default()), expected);
}

#[test]
fn moves_prose_after_a_section_heading_to_its_own_paragraph() {
    let source = "Before.\n\\section{Heisenberg picture of CNOT gates} A two qubit unitary acts on the target. Another sentence.\n";
    let expected = "Before.\n\n\\section{Heisenberg picture of CNOT gates}\n\nA two qubit unitary acts on the target.\nAnother sentence.\n";

    assert_eq!(write(source, &WriterOptions::default()), expected);
    assert_eq!(write(expected, &WriterOptions::default()), expected);
}

#[test]
fn separates_optional_and_nested_section_titles_from_following_text() {
    let source = "\\subsection[Short]{A \\textbf{long} title} Body. Next.\n";
    let expected = "\\subsection[Short]{A \\textbf{long} title}\n\nBody.\nNext.\n";
    assert_eq!(write(source, &WriterOptions::default()), expected);

    let options = WriterOptions {
        blank_lines_around_sections: false,
        ..WriterOptions::default()
    };
    let without_blank = "\\subsection[Short]{A \\textbf{long} title}\nBody.\nNext.\n";
    assert_eq!(write(source, &options), without_blank);
}

#[test]
fn keeps_trailing_section_comments_on_the_heading_line() {
    let source = "\\section{Title} % keep this comment\nBody text.\n";
    let expected = "\\section{Title} % keep this comment\n\nBody text.\n";
    assert_eq!(write(source, &WriterOptions::default()), expected);
}

#[test]
fn keeps_a_section_label_on_the_heading_line() {
    let source = "\\section{Introduction}\n\n\\label{sec:intro}\n\nBody text.\n";
    let expected = "\\section{Introduction}\\label{sec:intro}\n\nBody text.\n";

    assert_eq!(write(source, &WriterOptions::default()), expected);
    assert_eq!(write(expected, &WriterOptions::default()), expected);
}

#[test]
fn keeps_an_inline_section_label_before_following_prose() {
    let source = "\\section{Title}\\label{sec:title} Body. Next.\n";
    let expected = "\\section{Title}\\label{sec:title}\n\nBody.\nNext.\n";

    assert_eq!(write(source, &WriterOptions::default()), expected);
}

#[test]
fn does_not_move_a_section_label_out_of_a_skipped_region() {
    let source = "\\section{Title}\n% latex-treefmt: off\n\\label{sec:title}\n% latex-treefmt: on\nBody text.\n";
    let output = write(source, &WriterOptions::default());

    assert!(output.contains("\\section{Title}\n% latex-treefmt: off\n"));
    assert!(output.contains("\\label{sec:title}\n% latex-treefmt: on\n"));
}

#[test]
fn wraps_indented_sentences_inside_prose_environments() {
    let source = "\\begin{proof}\n  First sentence. Second sentence with $A(F)$. Third sentence.\n\\end{proof}\n\\begin{abstract}\n  Another sentence. Final sentence.\n\\end{abstract}\n";
    let expected = "\\begin{proof}\n  First sentence.\n  Second sentence with $A(F)$.\n  Third sentence.\n\\end{proof}\n\\begin{abstract}\n  Another sentence.\n  Final sentence.\n\\end{abstract}\n";

    assert_eq!(write(source, &WriterOptions::default()), expected);
    assert_eq!(write(expected, &WriterOptions::default()), expected);
}

#[test]
fn keeps_prose_environment_bodies_adjacent_to_their_boundaries() {
    let source = "\\begin{definition}[Hypergraph product code] First sentence. Second sentence.\n\n\\end{definition}\n";
    let expected = "\\begin{definition}[Hypergraph product code]\n  First sentence.\n  Second sentence.\n\\end{definition}\n";

    assert_eq!(write(source, &WriterOptions::default()), expected);
    assert_eq!(write(expected, &WriterOptions::default()), expected);
}

#[test]
fn keeps_an_environment_label_with_its_opening_command() {
    let source = "\\begin{theorem}[Named]\n\n  \\label{thm:named}\n\nStatement. More text. \\end{theorem}\n";
    let expected = "\\begin{theorem}[Named]\\label{thm:named}\n  Statement.\n  More text.\n\\end{theorem}\n";

    assert_eq!(write(source, &WriterOptions::default()), expected);
    assert_eq!(write(expected, &WriterOptions::default()), expected);
}

#[test]
fn canonicalizes_environment_headers_boundaries_and_nested_content() {
    let source = "Before \\begin{foo} [optional]\n  \\label{env:foo} {required}\n\n  First sentence. Second sentence. \\begin{bar} inner \\end{bar}\n\n\\end{foo} After\n";
    let expected = "Before\n\\begin{foo}[optional]{required}\\label{env:foo}\n  First sentence.\n  Second sentence.\n  \\begin{bar}\n    inner\n  \\end{bar}\n\\end{foo}\nAfter\n";

    assert_eq!(write(source, &WriterOptions::default()), expected);
    assert_eq!(write(expected, &WriterOptions::default()), expected);
}

#[test]
fn preserves_raw_environment_contents_during_environment_normalization() {
    let source = "\\begin{verbatim}\n\\begin{foo} inline \\end{foo}\n\n\\end{verbatim}\n";

    assert_eq!(write(source, &WriterOptions::default()), source);
}

#[test]
fn wraps_a_sentence_starting_with_inline_math() {
    let source = "For $x\\in\\F_2^n$ let $\\wt{x}$ denote its Hamming weight.  $\\cnot_{ij}$ denotes a controlled-NOT operation.\n";
    let expected = "For $x\\in\\F_2^n$ let $\\wt{x}$ denote its Hamming weight.\n$\\cnot_{ij}$ denotes a controlled-NOT operation.\n";

    assert_eq!(write(source, &WriterOptions::default()), expected);
    assert_eq!(write(expected, &WriterOptions::default()), expected);
}

#[test]
fn wraps_a_sentence_starting_with_parenthesized_math() {
    let source = "First sentence. \\(x\\) starts the next one.\n";
    let options = WriterOptions {
        inline_math_delimiters: InlineMathDelimiters::Preserve,
        ..WriterOptions::default()
    };
    let expected = "First sentence.\n\\(x\\) starts the next one.\n";

    assert_eq!(write(source, &options), expected);
}

#[test]
fn preserves_existing_prose_indentation_when_indent_is_disabled() {
    let source = "\\begin{proof}\n\tFirst sentence. Second sentence.\n\n\t\\end{proof}\n";
    let options = WriterOptions {
        indent_environments: false,
        ..WriterOptions::default()
    };
    let expected = "\\begin{proof}\n\tFirst sentence.\n\tSecond sentence.\n\t\\end{proof}\n";

    assert_eq!(write(source, &options), expected);
}

#[test]
fn does_not_split_sentence_like_text_in_structured_environments() {
    let source = "\\begin{tabular}{l}\nFirst. Second. \\\\\n\\end{tabular}\n\\begin{equation}\nA. B\n\\end{equation}\n";
    let output = write(source, &WriterOptions::default());

    assert!(output.contains("First. Second."));
    assert!(output.contains("A.B"));
}

#[test]
fn sentence_wrapping_avoids_comments_groups_and_verbatim() {
    let source = "Text % comment. Next\n\\begin{verbatim}\n  Sentence. Next.\n\\section{literal}\n\\end{verbatim}\nA \\textit{Not. Split} ending. Next sentence.\n";
    let expected = "Text % comment. Next\n\\begin{verbatim}\n  Sentence. Next.\n\\section{literal}\n\\end{verbatim}\nA \\textit{Not. Split} ending.\nNext sentence.\n";

    assert_eq!(write(source, &WriterOptions::default()), expected);
}

#[test]
fn collapses_repeated_spaces_in_prose_after_inline_math() {
    let source = "\\begin{theorem}\n  $\\ker(H_1^T)$     and take $e_1^T$ to satisfy the condition.\n\\end{theorem}\n";
    let expected = "\\begin{theorem}\n  $\\ker(H_1^T)$ and take $e_1^T$ to satisfy the condition.\n\\end{theorem}\n";

    assert_eq!(write(source, &WriterOptions::default()), expected);
    assert_eq!(write(expected, &WriterOptions::default()), expected);
}

#[test]
fn preserves_protected_spaces_while_collapsing_prose() {
    let source = "Before  $x$    and \\textbf{two  words}  after. % comment  kept\n";
    let expected = "Before $x$ and \\textbf{two  words} after. % comment  kept\n";
    assert_eq!(write(source, &WriterOptions::default()), expected);

    let options = WriterOptions {
        collapse_prose_whitespace: false,
        ..WriterOptions::default()
    };
    assert_eq!(write(source, &options), source);
}

#[test]
fn separates_math_environments_from_adjacent_prose() {
    let source = "Before \\begin{equation*}\nx + y\n\\end{equation*}After\n";
    let expected = "Before\n\\begin{equation*}\n  x+y\n\\end{equation*}\nAfter\n";

    assert_eq!(write(source, &WriterOptions::default()), expected);
}

#[test]
fn converts_paired_command_math_delimiters_to_dollars() {
    let source = "Inline \\( x + 1 \\).\n\\[\ny^{2}\n\\]\nMixed \\(z$.\n";
    let expected = "Inline $x+1$.\n$$\n  y^2\n$$\nMixed $z$.\n";

    assert_eq!(write(source, &WriterOptions::default()), expected);
}

#[test]
fn renders_user_selected_math_delimiters() {
    let source = "Dollar $ x + 1 $ and display $$ y^{2} $$.\n";
    let options = WriterOptions {
        inline_math_delimiters: InlineMathDelimiters::Parentheses,
        display_math_delimiters: DisplayMathDelimiters::Brackets,
        ..WriterOptions::default()
    };

    assert_eq!(
        write(source, &options),
        "Dollar \\(x+1\\) and display \\[y^2\\].\n"
    );
}

#[test]
fn display_math_layout_is_adaptive_by_default() {
    let source = "Inline display $$ x + 1 $$ stays here.\nPrefix \\[ x + y\nz \\] suffix\n";
    let expected = "Inline display $$x+1$$ stays here.\nPrefix\n$$\n  x+y\n  z\n$$\nsuffix\n";

    assert_eq!(write(source, &WriterOptions::default()), expected);
}

#[test]
fn can_render_every_display_formula_as_a_block() {
    let source = "Before $$ x + 1 $$ after.\n";
    let options = WriterOptions {
        display_math_layout: DisplayMathLayout::Block,
        ..WriterOptions::default()
    };

    assert_eq!(write(source, &options), "Before\n$$\n  x+1\n$$\nafter.\n");
}

#[test]
fn can_preserve_math_delimiter_styles_while_formatting_contents() {
    let source = "Command \\( x + 1 \\) and dollar $ y + 2 $.\n";
    let options = WriterOptions {
        inline_math_delimiters: InlineMathDelimiters::Preserve,
        ..WriterOptions::default()
    };

    assert_eq!(
        write(source, &options),
        "Command \\(x+1\\) and dollar $y+2$.\n"
    );
}

#[test]
fn indents_display_blocks_relative_to_their_environment() {
    let source = "\\begin{itemize}\n\\[\nx + y\n\\]\n\\end{itemize}\n";
    let expected = "\\begin{itemize}\n  $$\n    x+y\n  $$\n\\end{itemize}\n";

    assert_eq!(write(source, &WriterOptions::default()), expected);
}

#[test]
fn can_preserve_display_math_line_placement() {
    let source = "\\[\nx + y\n\\]\n";
    let options = WriterOptions {
        display_math_layout: DisplayMathLayout::Preserve,
        ..WriterOptions::default()
    };

    assert_eq!(write(source, &options), "$$\nx+y\n$$\n");
}

#[test]
fn formats_text_with_multibyte_characters() {
    let source = "Größe  $ x + y $ für é. Zweiter Satz.\n";
    let expected = "Größe $x+y$ für é.\nZweiter Satz.\n";

    assert_eq!(write(source, &WriterOptions::default()), expected);
}

#[test]
fn an_empty_document_stays_empty() {
    assert_eq!(write("", &WriterOptions::default()), "");
}

#[test]
fn the_passes_ask_for_trees_in_order() {
    let source = "Text $ x $ here.\n";
    let options = WriterOptions::default();
    let mut step = LatexWriter::new(source, &options).start(&read(source)).unwrap();
    let mut stages = Vec::new();
    loop {
        match step {
            WriteStep::Done(text) => {
                assert_eq!(text, "Text $x$ here.\n");
                break;
            }
            WriteStep::Parse(job) => {
                stages.push(job.stage());
                let text = job.text();
                step = job.resume(&read(&text)).unwrap();
            }
        }
    }
    assert_eq!(
        stages,
        vec![Stage::Items, Stage::Display, Stage::Environments, Stage::Lines]
    );
}

#[test]
fn overlapping_edits_are_refused() {
    let source = "$x$";
    let inner = branch(
        "inline_formula",
        None,
        true,
        0,
        3,
        vec![leaf("$", None, false, 0, 1), leaf("word", None, true, 1, 2), leaf("$", None, false, 2, 3)],
    );
    let outer = branch("inline_formula", None, true, 0, 3, vec![inner]);
    let tree = SyntaxTree {
        root: branch("source_file", None, true, 0, 3, vec![outer]),
        has_error: false,
    };
    let options = WriterOptions {
        inline_math_delimiters: InlineMathDelimiters::Parentheses,
        ..WriterOptions::default()
    };
    match LatexWriter::new(source, &options).start(&tree) {
        Err(WriteError::OverlappingEdits) => {}
        other => panic!("unexpected result: {other:?}"),
    }
}

#[test]
fn a_later_tree_must_fit_its_text() {
    let source = "Text.\n";
    let options = WriterOptions::default();
    match LatexWriter::new(source, &options).start(&read(source)).unwrap() {
        WriteStep::Parse(job) => {
            let bad = SyntaxTree {
                root: branch("source_file", None, true, 0, 99, Vec::new()),
                has_error: false,
            };
            match job.resume(&bad) {
                Err(WriteError::InvalidSourceRange(range)) => assert_eq!(range, (0, 99)),
                other => panic!("unexpected result: {other:?}"),
            }
        }
        WriteStep::Done(_) => panic!("the default options ask for more trees"),
    }
}

#[test]
fn a_document_inside_directives_is_left_as_written() {
    let source = "% latex-treefmt: off\n\\begin{itemize}\n\\item  a  $ x +  y $   \n\\end{itemize}  ";
    assert_eq!(write(source, &WriterOptions::default()), source);
}

#[test]
fn math_is_left_alone_when_every_math_option_is_off() {
    let options = WriterOptions {
        compact_math: false,
        simplify_math_scripts: false,
        inline_math_delimiters: InlineMathDelimiters::Preserve,
        display_math_delimiters: DisplayMathDelimiters::Preserve,
        ..WriterOptions::default()
    };
    let source = "Text \\( x  +  y^{2} \\) here.\n";
    assert_eq!(write(source, &options), source);
}

#[test]
fn collapsing_prose_whitespace_twice_changes_nothing_more() {
    let options = WriterOptions {
        sentence_per_line: false,
        ..WriterOptions::default()
    };
    let source = "Some \t  words   with\tgaps  and  {a   b}.\n";
    let once = write(source, &options);
    assert_eq!(once, "Some words with gaps and {a   b}.\n");
    assert_eq!(write(&once, &options), once);
}

#[test]
fn a_skipped_region_survives_every_line_option() {
    let options = WriterOptions {
        line_ending: LineEnding::Crlf,
        max_blank_lines: Some(0),
        trim_trailing_whitespace: true,
        ..WriterOptions::default()
    };
    let region = "% latex-treefmt: off\n  a  &  b \\\\   \n\n\n  c &d\\\\\n% latex-treefmt: on\n";
    let source = format!("Intro   text.\n{}After   text.\n", region);
    let out = write(&source, &options);
    assert!(out.contains(region));
    assert!(out.starts_with("Intro text.\r\n"));
    assert!(out.ends_with("After text.\r\n"));
}

#[test]
fn an_open_skipped_region_ends_the_output_unchanged() {
    let tail = "% latex-treefmt: off\n\\item  x   \n  y";
    let source = format!("\\begin{{itemize}}\n\\item a\n\\end{{itemize}}\n{}", tail);
    let out = write(&source, &WriterOptions::default());
    assert!(out.ends_with(tail));
}
