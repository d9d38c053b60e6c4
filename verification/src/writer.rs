//! The writer: source-backed reconstruction followed by the formatting passes.
//!
//! Between passes the text is parsed again. The writer hands out a
//! [`FormatJob`] that holds the text to parse next and resumes with its tree;
//! [`LatexWriter::write`] drives the whole sequence with a [`LatexParser`].

use vstd::prelude::*;

use crate::align::{align_environment_rows, align_pass, block_view};
use crate::display::{apply_display_math_layout, display_pass};
use crate::environments::{env_pass, normalize_environment_boundaries};
use crate::items::{apply_item_line_breaks, item_pass};
use crate::layout::{lines_pass, rewrite_lines, separate_math_environment_boundaries, separate_pass};
use crate::mathfmt::{apply_tree_formatting, math_pass};
use crate::metadata::{lemma_tree_metadata_ok, tree_metadata, TreeMetadata};
use crate::options::{preserve_options, WriterOptions};
use crate::parser::{latex_parse, LatexParser, ParseError};
use crate::prose::{prose_pass, rewrite_prose};
use crate::syntax::{bytes_from, lemma_bytes_from_encode, lemma_rebuild, rebuild, write_node, ByteMap, SyntaxNode, SyntaxTree};
use crate::text::{chars_of, string_of};
use crate::tree::fits;

verus! {

/// Writes a parsed tree while retaining all source-backed content.
pub struct LatexWriter<'source, 'options> {
    source: &'source str,
    options: &'options WriterOptions,
}

/// An error raised while writing a document.
#[derive(Debug)]
pub enum WriteError {
    /// The root of the tree does not span the whole source.
    TreeDoesNotCoverSource { tree: (usize, usize), source_len: usize },
    /// A byte range of the tree does not fall on character boundaries in order.
    InvalidSourceRange((usize, usize)),
    /// Two edits of one pass overlap.
    OverlappingEdits,
    /// The formatted text could not be parsed again.
    Parse(ParseError),
}

impl From<ParseError> for WriteError {
    fn from(error: ParseError) -> (r: Self) {
        WriteError::Parse(error)
    }
}

impl vstd::std_specs::convert::FromSpecImpl<ParseError> for WriteError {
    open spec fn obeys_from_spec() -> bool {
        true
    }

    open spec fn from_spec(error: ParseError) -> WriteError {
        WriteError::Parse(error)
    }
}

/// The pass that the next tree feeds.
#[derive(Debug, Clone, Copy, PartialEq, Eq, Structural)]
pub enum Stage {
    /// Line breaks around list items.
    Items,
    /// The line layout of displayed formulas.
    Display,
    /// Environment boundaries.
    Environments,
    /// Indentation, alignment, math environment boundaries and prose.
    Lines,
}

/// Formatting part-way: the text to parse next and the pass that its tree feeds.
#[derive(Debug)]
pub struct FormatJob {
    options: WriterOptions,
    stage: Stage,
    text: String,
}

/// What comes after a pass: another text to parse, or the formatted document.
#[derive(Debug)]
pub enum WriteStep {
    Parse(FormatJob),
    Done(String),
}

/// A step as plain values.
pub enum StepView {
    Parse(Stage, Seq<char>),
    Done(Seq<char>),
}

impl FormatJob {
    pub closed spec fn stage_of(&self) -> Stage {
        self.stage
    }

    pub closed spec fn text_of(&self) -> Seq<char> {
        self.text@
    }

    pub closed spec fn options_of(&self) -> WriterOptions {
        self.options
    }
}

impl WriteStep {
    pub open spec fn view(&self) -> StepView {
        match self {
            WriteStep::Parse(job) => StepView::Parse(job.stage_of(), job.text_of()),
            WriteStep::Done(t) => StepView::Done(t@),
        }
    }
}

/// The reconstruction of `s` from its tree: the tree must span the whole
/// source and every byte range in it must be a slice of the source.
pub open spec fn reconstructed(s: Seq<char>, root: SyntaxNode) -> Result<Seq<char>, WriteError> {
    if root.start_byte != 0 || root.end_byte != bytes_from(s, 0) {
        Err(
            WriteError::TreeDoesNotCoverSource {
                tree: (root.start_byte, root.end_byte),
                source_len: bytes_from(s, 0) as usize,
            },
        )
    } else {
        match rebuild(s, root) {
            Ok(t) => Ok(t),
            Err(e) => Err(WriteError::InvalidSourceRange((e.0 as usize, e.1 as usize))),
        }
    }
}

/// The first step of writing `s` with its tree: the reconstruction, returned
/// as is with the preserve options, or the tree formatting pass.
#[verifier::opaque]
pub open spec fn start_spec(s: Seq<char>, opts: WriterOptions, root: SyntaxNode) -> Result<StepView, WriteError> {
    match reconstructed(s, root) {
        Err(e) => Err(e),
        Ok(t) => if opts == preserve_options() {
            Ok(StepView::Done(t))
        } else {
            match math_pass(t, opts, tree_metadata(s, opts, root)) {
                Some(t1) => Ok(StepView::Parse(Stage::Items, t1)),
                None => Err(WriteError::OverlappingEdits),
            }
        },
    }
}

/// The last passes, on the text after the environment pass and its tree.
pub open spec fn finish_spec(t: Seq<char>, opts: WriterOptions, root: SyntaxNode) -> Seq<char> {
    let meta = tree_metadata(t, opts, root);
    let lined = lines_pass(t, opts, meta.env, meta.disp, meta.item, meta.raw, meta.comment);
    let aligned = align_pass(lined, opts, meta.blocks);
    prose_pass(separate_pass(aligned, opts), opts)
}

/// Resuming at `stage` with the tree of `t`.
#[verifier::opaque]
pub open spec fn resume_spec(stage: Stage, t: Seq<char>, opts: WriterOptions, root: SyntaxNode) -> Result<StepView, WriteError> {
    match rebuild(t, root) {
        Err(e) => Err(WriteError::InvalidSourceRange((e.0 as usize, e.1 as usize))),
        Ok(_) => match stage {
            Stage::Items => Ok(StepView::Parse(Stage::Display, item_pass(t, opts, root))),
            Stage::Display => match display_pass(t, opts, root) {
                Some(t2) => Ok(StepView::Parse(Stage::Environments, t2)),
                None => Err(WriteError::OverlappingEdits),
            },
            Stage::Environments => match env_pass(t, opts, root) {
                Some(t3) => Ok(StepView::Parse(Stage::Lines, t3)),
                None => Err(WriteError::OverlappingEdits),
            },
            Stage::Lines => Ok(StepView::Done(finish_spec(t, opts, root))),
        },
    }
}

/// Resuming a step, at most `rounds` times, each time with the tree that the
/// grammar gives for the text that the step asks to parse; a finished or failed
/// step stays as it is.
pub open spec fn drive(step: Result<StepView, WriteError>, opts: WriterOptions, rounds: nat) -> Result<StepView, WriteError>
    decreases rounds,
{
    if rounds == 0 {
        step
    } else {
        match step {
            Ok(StepView::Parse(stage, t)) => drive(resume_spec(stage, t, opts, latex_parse(t).root), opts, (rounds - 1) as nat),
            other => other,
        }
    }
}

/// Writing `s` with its tree `root`: the first step, then the four passes that
/// take a tree, each given the tree of the text it receives.
pub open spec fn write_spec(s: Seq<char>, opts: WriterOptions, root: SyntaxNode) -> Result<Seq<char>, WriteError> {
    match drive(start_spec(s, opts, root), opts, 4) {
        Ok(StepView::Done(t)) => Ok(t),
        Ok(StepView::Parse(_, t)) => Ok(t),
        Err(e) => Err(e),
    }
}

fn char_map(s: &str) -> (r: (Vec<char>, ByteMap, usize))
    ensures
        r.0@ == s@,
        r.1.of(s@),
        r.2 == bytes_from(s@, 0),
{
    let src = chars_of(s);
    let total = s.as_bytes().len();
    proof {
        lemma_bytes_from_encode(s@, 0);
        assert(s@.subrange(0, s@.len() as int) =~= s@);
    }
    let map = ByteMap::new(src.as_slice(), total);
    (src, map, total)
}

fn step_from(text: Option<Vec<char>>, opts: WriterOptions, next: Stage) -> (r: Result<WriteStep, WriteError>)
    ensures
        match text {
            Some(t) => r matches Ok(step) && step.view() == StepView::Parse(next, t@) && (
            step matches WriteStep::Parse(job) && job.options_of() == opts),
            None => r matches Err(e) && e == WriteError::OverlappingEdits,
        },
{
    match text {
        Some(t) => Ok(WriteStep::Parse(FormatJob { options: opts, stage: next, text: string_of(t.as_slice()) })),
        None => Err(WriteError::OverlappingEdits),
    }
}

impl<'source, 'options> LatexWriter<'source, 'options> {
    pub fn new(source: &'source str, options: &'options WriterOptions) -> (r: Self)
        ensures
            r.source() == source,
            r.options() == options,
    {
        LatexWriter { source, options }
    }

    pub closed spec fn source(&self) -> &'source str {
        self.source
    }

    pub closed spec fn options(&self) -> &'options WriterOptions {
        self.options
    }

    /// Reconstructs the source from its tree and runs the passes that need no
    /// other tree.
    pub fn start(&self, tree: &SyntaxTree) -> (r: Result<WriteStep, WriteError>)
        ensures
            match r {
                Ok(step) => start_spec(self.source()@, *self.options(), tree.root) == Ok::<StepView, WriteError>(step.view())
                    && (step matches WriteStep::Parse(job) ==> job.options_of() == *self.options()),
                Err(e) => start_spec(self.source()@, *self.options(), tree.root) == Err::<StepView, WriteError>(e),
            },
    {
        proof {
            reveal(start_spec);
        }
        let (src, map, total) = char_map(self.source);
        let root = &tree.root;
        if root.start_byte != 0 || root.end_byte != total {
            return Err(WriteError::TreeDoesNotCoverSource {
                tree: (root.start_byte, root.end_byte),
                source_len: total,
            });
        }
        let mut out: Vec<char> = Vec::new();
        match write_node(&map, src.as_slice(), root, &mut out) {
            Ok(()) => {},
            Err(e) => {
                return Err(WriteError::InvalidSourceRange(e));
            },
        }
        assert(out@ == rebuild(src@, *root)->Ok_0);
        if self.options.is_preserve() {
            return Ok(WriteStep::Done(string_of(out.as_slice())));
        }
        proof {
            lemma_rebuild(src@, *root);
            crate::syntax::lemma_char_index(src@, 0);
            crate::syntax::lemma_char_index(src@, src@.len() as int);
            assert(crate::syntax::byte_offset(src@, 0) == 0);
            assert(crate::syntax::bytes_from(src@, src@.len() as int) == 0);
            assert(out@ =~= src@);
            lemma_tree_metadata_ok(src@, *self.options, *root);
        }
        let metadata = TreeMetadata::from_tree(tree, src.as_slice(), &map, self.options);
        let formatted = apply_tree_formatting(out.as_slice(), self.options, &metadata);
        step_from(formatted, *self.options, Stage::Items)
    }

    /// Walk the concrete tree and render it according to the configured policy.
    pub fn write(&self, tree: &SyntaxTree) -> (r: Result<String, WriteError>)
        ensures
            match r {
                Ok(out) => write_spec(self.source()@, *self.options(), tree.root) == Ok::<Seq<char>, WriteError>(out@),
                Err(e) => write_spec(self.source()@, *self.options(), tree.root) == Err::<Seq<char>, WriteError>(e),
            },
    {
        let ghost s = self.source()@;
        let ghost opts = *self.options();
        let ghost first_view = start_spec(s, opts, tree.root);
        let mut step = match self.start(tree) {
            Ok(step) => step,
            Err(e) => {
                return Err(e);
            },
        };
        if let WriteStep::Done(t) = step {
            return Ok(t);
        }
        let mut parser = match LatexParser::new() {
            Ok(p) => p,
            Err(e) => {
                return Err(WriteError::from(e));
            },
        };
        let mut rounds: usize = 0;
        while rounds < 4
            invariant
                rounds <= 4,
                opts == *self.options(),
                s == self.source()@,
                first_view == start_spec(s, opts, tree.root),
                step matches WriteStep::Parse(job) ==> job.options_of() == opts,
                drive(first_view, opts, 4) == drive(Ok(step.view()), opts, (4 - rounds) as nat),
            decreases 4 - rounds,
        {
            let next = match step {
                WriteStep::Done(t) => WriteStep::Done(t),
                WriteStep::Parse(job) => {
                    let text = job.text();
                    let parsed = match parser.parse(text.as_str()) {
                        Ok(t) => t,
                        Err(e) => {
                            return Err(WriteError::from(e));
                        },
                    };
                    match job.resume(&parsed) {
                        Ok(next) => next,
                        Err(e) => {
                            assert(drive(Err::<StepView, WriteError>(e), opts, (3 - rounds) as nat) == Err::<StepView, WriteError>(e));
                            return Err(e);
                        },
                    }
                },
            };
            step = next;
            rounds = rounds + 1;
        }
        match step {
            WriteStep::Done(t) => Ok(t),
            WriteStep::Parse(job) => Ok(job.text),
        }
    }
}

/// The position of a stage among the four passes that take a tree.
pub open spec fn stage_rank(stage: Stage) -> nat {
    match stage {
        Stage::Items => 0,
        Stage::Display => 1,
        Stage::Environments => 2,
        Stage::Lines => 3,
    }
}

/// A step that still has `rounds` passes to go at least as many as it needs
/// ends finished or failed.
proof fn lemma_drive_finishes(step: Result<StepView, WriteError>, opts: WriterOptions, rounds: nat)
    requires
        step matches Ok(StepView::Parse(stage, _)) ==> stage_rank(stage) + rounds >= 4,
    ensures
        !(drive(step, opts, rounds) matches Ok(StepView::Parse(_, _))),
    decreases rounds,
{
    if rounds > 0 {
        if let Ok(StepView::Parse(stage, t)) = step {
            let next = resume_spec(stage, t, opts, latex_parse(t).root);
            lemma_resume_stage(stage, t, opts, latex_parse(t).root);
            lemma_drive_finishes(next, opts, (rounds - 1) as nat);
        }
    }
}

/// Writing always finishes within the four passes that take a tree: the last
/// of them never asks for another parse.
pub proof fn four_passes_finish(s: Seq<char>, opts: WriterOptions, root: SyntaxNode)
    ensures
        !(drive(start_spec(s, opts, root), opts, 4) matches Ok(StepView::Parse(_, _))),
{
    lemma_start_stage(s, opts, root);
    lemma_drive_finishes(start_spec(s, opts, root), opts, 4);
}

impl FormatJob {
    /// The text to parse next.
    pub fn text(&self) -> (r: String)
        ensures
            r@ == self.text_of(),
    {
        let v = chars_of(self.text.as_str());
        string_of(v.as_slice())
    }

    /// The pass that the next tree feeds.
    pub fn stage(&self) -> (r: Stage)
        ensures
            r == self.stage_of(),
    {
        self.stage
    }

    /// Runs the next pass with `tree`, the syntax tree of `self.text()`.
    pub fn resume(self, tree: &SyntaxTree) -> (r: Result<WriteStep, WriteError>)
        ensures
            match r {
                Ok(step) => resume_spec(self.stage_of(), self.text_of(), self.options_of(), tree.root) == Ok::<StepView, WriteError>(step.view())
                    && (step matches WriteStep::Parse(job) ==> job.options_of() == self.options_of()),
                Err(e) => resume_spec(self.stage_of(), self.text_of(), self.options_of(), tree.root) == Err::<StepView, WriteError>(e),
            },
    {
        proof {
            reveal(resume_spec);
        }
        let (src, map, _) = char_map(self.text.as_str());
        let root = &tree.root;
        let mut out: Vec<char> = Vec::new();
        match write_node(&map, src.as_slice(), root, &mut out) {
            Ok(()) => {},
            Err(e) => {
                return Err(WriteError::InvalidSourceRange(e));
            },
        }
        assert(fits(src@, *root));
        let opts = &self.options;
        match self.stage {
            Stage::Items => {
                let t = apply_item_line_breaks(src.as_slice(), &map, root, opts);
                step_from(Some(t), self.options, Stage::Display)
            },
            Stage::Display => {
                let t = apply_display_math_layout(src.as_slice(), &map, root, opts);
                step_from(t, self.options, Stage::Environments)
            },
            Stage::Environments => {
                let t = normalize_environment_boundaries(src.as_slice(), &map, root, opts);
                step_from(t, self.options, Stage::Lines)
            },
            Stage::Lines => {
                let metadata = TreeMetadata::from_tree(tree, src.as_slice(), &map, opts);
                let lined = rewrite_lines(src.as_slice(), opts, &metadata);
                let aligned = align_environment_rows(lined.as_slice(), opts, &metadata);
                let separated = separate_math_environment_boundaries(aligned.as_slice(), opts);
                let prose = rewrite_prose(separated.as_slice(), opts);
                Ok(WriteStep::Done(string_of(prose.as_slice())))
            },
        }
    }
}


/// The writer is source-backed: when a tree spans the source and fits it,
/// walking it gives the source back, character for character.
pub proof fn reconstruction_is_source(s: Seq<char>, root: SyntaxNode)
    ensures
        reconstructed(s, root) matches Ok(t) ==> t == s,
{
    if let Ok(t) = reconstructed(s, root) {
        lemma_rebuild(s, root);
        crate::syntax::lemma_char_index(s, 0);
        crate::syntax::lemma_char_index(s, s.len() as int);
        assert(crate::syntax::bytes_from(s, s.len() as int) == 0);
        assert(crate::syntax::byte_offset(s, 0) == 0);
        assert(t =~= s);
    }
}

/// Writing with the preserve options gives the source back, character for
/// character, whenever the tree spans it and fits it.
pub proof fn preserve_mode_is_lossless(s: Seq<char>, root: SyntaxNode)
    ensures
        start_spec(s, preserve_options(), root) matches Ok(v) ==> v == StepView::Done(s),
{
    reveal(start_spec);
    reconstruction_is_source(s, root);
}

/// A first step that asks for a tree asks for the item pass's.
pub proof fn lemma_start_stage(s: Seq<char>, opts: WriterOptions, root: SyntaxNode)
    ensures
        start_spec(s, opts, root) matches Ok(StepView::Parse(stage, t)) ==> stage == Stage::Items,
{
    reveal(start_spec);
}

/// Each resumed step asks for the tree of the next pass, and the last pass
/// finishes.
pub proof fn lemma_resume_stage(stage: Stage, t: Seq<char>, opts: WriterOptions, root: SyntaxNode)
    ensures
        resume_spec(stage, t, opts, root) matches Ok(StepView::Parse(next, u)) ==> stage_rank(next)
            == stage_rank(stage) + 1,
{
    reveal(resume_spec);
}

} // verus!
