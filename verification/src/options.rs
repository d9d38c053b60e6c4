//! Writer configuration.

use vstd::prelude::*;

verus! {

/// Line-ending policy for rendered output.
#[derive(Debug, Clone, Copy, PartialEq, Eq, Structural)]
pub enum LineEnding {
    /// Keep the ending of each existing source line.
    Preserve,
    /// Render line endings as `\n`.
    Lf,
    /// Render line endings as `\r\n`.
    Crlf,
}

/// Delimiter policy for inline formulas.
#[derive(Debug, Clone, Copy, PartialEq, Eq, Structural)]
pub enum InlineMathDelimiters {
    /// Keep each formula's original delimiters.
    Preserve,
    /// Render inline formulas as `$...$`.
    Dollars,
    /// Render inline formulas as `\(...\)`.
    Parentheses,
}

/// Delimiter policy for displayed formulas.
#[derive(Debug, Clone, Copy, PartialEq, Eq, Structural)]
pub enum DisplayMathDelimiters {
    /// Keep each formula's original delimiters.
    Preserve,
    /// Render displayed formulas as `$$...$$`.
    Dollars,
    /// Render displayed formulas as `\[...\]`.
    Brackets,
}

/// Line-layout policy for displayed formulas.
#[derive(Debug, Clone, Copy, PartialEq, Eq, Structural)]
pub enum DisplayMathLayout {
    /// Retain the existing inline or multiline placement exactly.
    Preserve,
    /// Keep single-line formulas inline and normalize multiline formulas as blocks.
    Adaptive,
    /// Render every displayed formula as an indented block.
    Block,
}

impl Default for LineEnding {
    fn default() -> (r: Self)
        ensures
            r == LineEnding::Preserve,
    {
        LineEnding::Preserve
    }
}

impl Default for InlineMathDelimiters {
    fn default() -> (r: Self)
        ensures
            r == InlineMathDelimiters::Dollars,
    {
        InlineMathDelimiters::Dollars
    }
}

impl Default for DisplayMathDelimiters {
    fn default() -> (r: Self)
        ensures
            r == DisplayMathDelimiters::Dollars,
    {
        DisplayMathDelimiters::Dollars
    }
}

impl Default for DisplayMathLayout {
    fn default() -> (r: Self)
        ensures
            r == DisplayMathLayout::Adaptive,
    {
        DisplayMathLayout::Adaptive
    }
}

/// Configuration for the source-backed LaTeX writer.
#[derive(Debug, Clone, Copy, PartialEq, Eq, Structural)]
pub struct WriterOptions {
    /// Number of spaces added for each nested environment.
    pub indent_width: usize,
    /// Whether leading indentation should follow environment nesting.
    pub indent_environments: bool,
    /// Whether the contents of the top-level `document` environment are indented.
    pub indent_document: bool,
    /// Remove spaces and tabs immediately before a line ending.
    pub trim_trailing_whitespace: bool,
    /// Maximum consecutive blank lines, or `None` to retain all blank lines.
    pub max_blank_lines: Option<usize>,
    /// Line-ending conversion policy.
    pub line_ending: LineEnding,
    /// Add a final line ending when a non-empty document does not have one.
    pub ensure_final_newline: bool,
    /// Remove unnecessary horizontal whitespace in parsed math regions.
    pub compact_math: bool,
    /// Render single-token scripts without redundant curly braces.
    pub simplify_math_scripts: bool,
    /// Put each prose sentence on its own source line.
    pub sentence_per_line: bool,
    /// Collapse repeated horizontal whitespace in prose to one space.
    pub collapse_prose_whitespace: bool,
    /// Ensure a blank line before and after sectioning commands.
    pub blank_lines_around_sections: bool,
    /// Keep recognized math-environment boundaries on their own lines.
    pub separate_math_environment_boundaries: bool,
    /// Align column separators and row terminators in alignment and table environments.
    pub align_environment_rows: bool,
    /// Ensure every `\item` declaration starts on its own line.
    pub item_starts_on_own_line: bool,
    /// Ensure every item body starts on the line after its declaration.
    pub item_finishes_with_line_break: bool,
    /// Delimiter style used for inline formulas.
    pub inline_math_delimiters: InlineMathDelimiters,
    /// Delimiter style used for displayed formulas.
    pub display_math_delimiters: DisplayMathDelimiters,
    /// Line-layout policy used for displayed formulas.
    pub display_math_layout: DisplayMathLayout,
}

/// The default configuration: every rule applies, two-space indentation,
/// at most one blank line, `$`-delimited math and adaptive display layout.
pub open spec fn default_options() -> WriterOptions {
    WriterOptions {
        indent_width: 2,
        indent_environments: true,
        indent_document: false,
        trim_trailing_whitespace: true,
        max_blank_lines: Some(1),
        line_ending: LineEnding::Preserve,
        ensure_final_newline: true,
        compact_math: true,
        simplify_math_scripts: true,
        sentence_per_line: true,
        collapse_prose_whitespace: true,
        blank_lines_around_sections: true,
        separate_math_environment_boundaries: true,
        align_environment_rows: true,
        item_starts_on_own_line: true,
        item_finishes_with_line_break: true,
        inline_math_delimiters: InlineMathDelimiters::Dollars,
        display_math_delimiters: DisplayMathDelimiters::Dollars,
        display_math_layout: DisplayMathLayout::Adaptive,
    }
}

/// The configuration under which every rule is off.
pub open spec fn preserve_options() -> WriterOptions {
    WriterOptions {
        indent_width: 2,
        indent_environments: false,
        indent_document: false,
        trim_trailing_whitespace: false,
        max_blank_lines: None,
        line_ending: LineEnding::Preserve,
        ensure_final_newline: false,
        compact_math: false,
        simplify_math_scripts: false,
        sentence_per_line: false,
        collapse_prose_whitespace: false,
        blank_lines_around_sections: false,
        separate_math_environment_boundaries: false,
        align_environment_rows: false,
        item_starts_on_own_line: false,
        item_finishes_with_line_break: false,
        inline_math_delimiters: InlineMathDelimiters::Preserve,
        display_math_delimiters: DisplayMathDelimiters::Preserve,
        display_math_layout: DisplayMathLayout::Preserve,
    }
}

impl Default for WriterOptions {
    fn default() -> (r: Self)
        ensures
            r == default_options(),
    {
        WriterOptions {
            indent_width: 2,
            indent_environments: true,
            indent_document: false,
            trim_trailing_whitespace: true,
            max_blank_lines: Some(1),
            line_ending: LineEnding::Preserve,
            ensure_final_newline: true,
            compact_math: true,
            simplify_math_scripts: true,
            sentence_per_line: true,
            collapse_prose_whitespace: true,
            blank_lines_around_sections: true,
            separate_math_environment_boundaries: true,
            align_environment_rows: true,
            item_starts_on_own_line: true,
            item_finishes_with_line_break: true,
            inline_math_delimiters: InlineMathDelimiters::Dollars,
            display_math_delimiters: DisplayMathDelimiters::Dollars,
            display_math_layout: DisplayMathLayout::Adaptive,
        }
    }
}

impl WriterOptions {
    /// Options that reconstruct the input byte-for-byte.
    pub fn preserve() -> (r: Self)
        ensures
            r == preserve_options(),
    {
        WriterOptions {
            indent_width: 2,
            indent_environments: false,
            indent_document: false,
            trim_trailing_whitespace: false,
            max_blank_lines: None,
            line_ending: LineEnding::Preserve,
            ensure_final_newline: false,
            compact_math: false,
            simplify_math_scripts: false,
            sentence_per_line: false,
            collapse_prose_whitespace: false,
            blank_lines_around_sections: false,
            separate_math_environment_boundaries: false,
            align_environment_rows: false,
            item_starts_on_own_line: false,
            item_finishes_with_line_break: false,
            inline_math_delimiters: InlineMathDelimiters::Preserve,
            display_math_delimiters: DisplayMathDelimiters::Preserve,
            display_math_layout: DisplayMathLayout::Preserve,
        }
    }

    /// Whether these options are the preserving configuration.
    pub fn is_preserve(&self) -> (r: bool)
        ensures
            r == (*self == preserve_options()),
    {
        let p = WriterOptions::preserve();
        *self == p
    }
}

} // verus!
