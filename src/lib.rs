//! A literate-programming tangler core: a line scanner that recognises
//! headings, fenced code blocks and annotation blocks, a section tree that
//! mirrors the heading hierarchy, and scoped property environments resolved
//! for every emitted code block.
use vstd::prelude::*;

pub mod bytes;
pub mod code;
pub mod laws;
pub mod properties;
pub mod scanner;
pub mod section;
pub mod tangle;
pub mod words;

pub use code::{code, Code, CodePart};
pub use properties::{betwixt, BetwixtParseError, Properties, TangleMode};
pub use scanner::LineScanner;
pub use section::{section, PropertiesCollection, Section, SectionPart};

use code::{CodeModel, CodeParser, CodePartModel};
use properties::{opt_bytes, BetwixtParser, PropsModel};
use scanner::{lemma_scan_from_advances, line_of, scan_from, StepModel};
use section::{
    fresh_section, resolved, updated, with_child, EnvModel, SectionModel, SectionParser,
    SectionPartModel,
};

verus! {

/// The opening delimiter of an annotation.
pub const BETWIXT_TOKEN: &'static str = "<?btxt";

/// The opening delimiter of a comment-style annotation.
pub const BETWIXT_COM_TOKEN: &'static str = "<!--btxt";

/// The closing delimiter of an annotation.
pub const CLOSE_TOKEN: &'static str = "?>";

/// The closing delimiter of a comment-style annotation.
pub const CLOSE_COM_TOKEN: &'static str = "-->";

/// The deepest heading level; deeper marker runs are plain text.
pub const MAX_LEVEL: usize = 9;

/// A construct recognised in the input.
#[derive(Debug, PartialEq)]
pub enum ScanResult<'a> {
    Code(CodePart<'a>),
    Section(SectionPart<'a>),
    Properties((Option<&'a [u8]>, Properties<'a>)),
    End,
}

/// The mathematical value of a [`ScanResult`].
pub enum EventModel {
    Code(CodePartModel),
    Heading(SectionPartModel),
    Props(Option<Seq<u8>>, PropsModel),
    End,
}

impl<'a> View for ScanResult<'a> {
    type V = EventModel;

    open spec fn view(&self) -> EventModel {
        match *self {
            ScanResult::Code(c) => EventModel::Code(c@),
            ScanResult::Section(s) => EventModel::Heading(s@),
            ScanResult::Properties((lang, p)) => EventModel::Props(opt_bytes(lang), p@),
            ScanResult::End => EventModel::End,
        }
    }
}

/// What a recogniser makes of a window of whole lines.
#[derive(Debug, PartialEq)]
pub enum LineParseResult<'a> {
    /// The window holds this construct.
    Matched(ScanResult<'a>),
    /// The opener was seen; the construct needs more lines.
    PartialMatch,
    /// The window does not start with this kind of construct.
    NoMatch,
    /// The opener and closer were seen, but the body is malformed.
    InvalidMatch,
}

/// The mathematical value of a [`LineParseResult`].
pub enum OutcomeModel {
    Matched(EventModel),
    Partial,
    NoMatch,
    Invalid,
}

impl<'a> View for LineParseResult<'a> {
    type V = OutcomeModel;

    open spec fn view(&self) -> OutcomeModel {
        match *self {
            LineParseResult::Matched(m) => OutcomeModel::Matched(m@),
            LineParseResult::PartialMatch => OutcomeModel::Partial,
            LineParseResult::NoMatch => OutcomeModel::NoMatch,
            LineParseResult::InvalidMatch => OutcomeModel::Invalid,
        }
    }
}

/// A recogniser: a pure function from a window of whole lines to an outcome.
pub trait LineParser {
    /// The outcome on a window.
    spec fn outcome(&self, w: Seq<u8>) -> OutcomeModel;

    fn parse<'a>(&self, i: &'a [u8]) -> (r: LineParseResult<'a>)
        ensures
            r@ == self.outcome(i@),
    ;
}

/// The three recognisers used on a document, and whether a malformed
/// annotation is an error (strict) or skipped.
pub struct MarkdownParsers {
    pub betwixt: BetwixtParser,
    pub section: SectionParser,
    pub code: CodeParser,
    pub strict: bool,
}

/// The recognisers tried in a fixed order: code fence, heading, annotation.
/// The first that does not report no-match decides.
pub open spec fn combined_outcome(p: MarkdownParsers, w: Seq<u8>) -> OutcomeModel {
    let c = p.code.outcome(w);
    if !(c is NoMatch) {
        c
    } else {
        let h = p.section.outcome(w);
        if !(h is NoMatch) {
            h
        } else {
            p.betwixt.outcome(w)
        }
    }
}

impl LineParser for MarkdownParsers {
    open spec fn outcome(&self, w: Seq<u8>) -> OutcomeModel {
        combined_outcome(*self, w)
    }

    fn parse<'a>(&self, i: &'a [u8]) -> (r: LineParseResult<'a>) {
        let c = self.code.parse(i);
        if !matches!(c, LineParseResult::NoMatch) {
            return c;
        }
        let h = self.section.parse(i);
        if !matches!(h, LineParseResult::NoMatch) {
            return h;
        }
        self.betwixt.parse(i)
    }
}

/// The state of the tree builder: the open sections from the root down to
/// the current one, and the code blocks emitted so far.
pub struct BuildModel {
    pub stack: Seq<SectionModel>,
    pub blocks: Seq<CodeModel>,
}

/// Closes every open section, innermost first, whose level is at least
/// `level`, attaching each to the one it is nested in. The root stays.
pub open spec fn close_to(stack: Seq<SectionModel>, level: nat) -> Seq<SectionModel>
    decreases stack.len(),
{
    if stack.len() <= 1 || stack.last().part.level < level {
        stack
    } else {
        let rest = stack.drop_last();
        close_to(rest.update(rest.len() - 1, with_child(rest.last(), stack.last())), level)
    }
}

pub proof fn lemma_close_to_root(stack: Seq<SectionModel>)
    requires
        stack.len() >= 1,
    ensures
        close_to(stack, 0).len() == 1,
    decreases stack.len(),
{
    if stack.len() > 1 {
        let rest = stack.drop_last();
        lemma_close_to_root(rest.update(rest.len() - 1, with_child(rest.last(), stack.last())));
    }
}

pub proof fn lemma_close_to_root_len(stack: Seq<SectionModel>, level: nat)
    requires
        stack.len() >= 1,
    ensures
        close_to(stack, level).len() >= 1,
    decreases stack.len(),
{
    if !(stack.len() <= 1 || stack.last().part.level < level) {
        let rest = stack.drop_last();
        lemma_close_to_root_len(
            rest.update(rest.len() - 1, with_child(rest.last(), stack.last())),
            level,
        );
    }
}

/// `stack` with its innermost section replaced by `s`.
pub open spec fn with_top(stack: Seq<SectionModel>, s: SectionModel) -> Seq<SectionModel> {
    stack.update(stack.len() - 1, s)
}

/// Whether resolved properties say to leave a block out.
pub open spec fn is_ignored(p: PropsModel) -> bool {
    p.ignore == Some(true)
}

/// The current section after emitting a block as the `n`-th code block.
pub open spec fn emitted_top(top: SectionModel, n: nat, part: CodePartModel) -> SectionModel {
    if is_ignored(resolved(top.env, part.lang)) {
        top
    } else {
        SectionModel { indexes: top.indexes.push(n as usize), ..top }
    }
}

/// The code blocks after emitting a block from the current section `top`.
pub open spec fn emitted_blocks(
    blocks: Seq<CodeModel>,
    top: SectionModel,
    part: CodePartModel,
) -> Seq<CodeModel> {
    let eff = resolved(top.env, part.lang);
    if is_ignored(eff) {
        blocks
    } else {
        blocks.push(CodeModel { part, effective: eff })
    }
}

/// Emits a code block from the current section `top` (whose environment may
/// just have changed), unless its resolved properties say to ignore it.
pub open spec fn emit(b: BuildModel, top: SectionModel, part: CodePartModel) -> BuildModel {
    BuildModel {
        stack: with_top(b.stack, emitted_top(top, b.blocks.len(), part)),
        blocks: emitted_blocks(b.blocks, top, part),
    }
}

/// How the builder reacts to one event.
pub open spec fn build_step(b: BuildModel, ev: EventModel) -> BuildModel {
    let top = b.stack.last();
    match ev {
        EventModel::Heading(part) => {
            let st = close_to(b.stack, part.level);
            BuildModel { stack: st.push(fresh_section(part, st.last().env)), blocks: b.blocks }
        },
        EventModel::Code(part) => emit(b, top, part),
        EventModel::Props(lang, p) => match p.code {
            None => BuildModel {
                stack: with_top(b.stack, SectionModel { env: updated(top.env, lang, p), ..top }),
                blocks: b.blocks,
            },
            Some(c) => emit(
                b,
                SectionModel { env: updated(top.env, lang, PropsModel { code: None, ..p }), ..top },
                CodePartModel { contents: c, lang },
            ),
        },
        EventModel::End => b,
    }
}

/// The root section before any input.
pub open spec fn root_model() -> SectionModel {
    fresh_section(
        SectionPartModel { heading: None, level: 0 },
        EnvModel { global: properties::empty_props(), languages: Map::empty() },
    )
}

#[via_fn]
proof fn build_from_decreases(p: MarkdownParsers, data: Seq<u8>, pos: int, b: BuildModel) {
    if 0 <= pos <= data.len() {
        scanner::lemma_scan_from_advances(p, data, pos, pos, p.strict);
    }
}

/// Scans from `pos` on and feeds every event to the builder; the result is
/// the final builder state, or the span of the first malformed annotation
/// in strict mode.
pub open spec fn build_from(p: MarkdownParsers, data: Seq<u8>, pos: int, b: BuildModel) -> Result<
    BuildModel,
    (int, int),
>
    decreases data.len() - pos,
    via build_from_decreases
{
    if pos < 0 || pos > data.len() {
        Ok(b)
    } else {
        match scan_from(p, data, pos, pos, p.strict) {
            StepModel::Error(s, e) => Err((s, e)),
            StepModel::Event(ev, n) => if ev is End {
                Ok(b)
            } else {
                build_from(p, data, n, build_step(b, ev))
            },
        }
    }
}

/// The mathematical value of a [`Document`].
pub struct DocModel {
    pub blocks: Seq<CodeModel>,
    pub root: SectionModel,
}

/// The document that an input yields, or the span of the first malformed
/// annotation in strict mode.
pub open spec fn document_of(p: MarkdownParsers, data: Seq<u8>) -> Result<DocModel, (int, int)> {
    match build_from(p, data, 0, BuildModel { stack: seq![root_model()], blocks: Seq::empty() }) {
        Ok(b) => Ok(DocModel { blocks: b.blocks, root: close_to(b.stack, 0)[0] }),
        Err(span) => Err(span),
    }
}

/// The parsed document: the emitted code blocks in input order, and the
/// section tree.
pub struct Document<'a> {
    pub code_blocks: Vec<Code<'a>>,
    pub root: Section<'a>,
}

pub open spec fn code_models(v: Seq<Code>) -> Seq<CodeModel> {
    v.map_values(|c: Code| c@)
}

pub open spec fn section_models(v: Seq<Section>) -> Seq<SectionModel> {
    v.map_values(|s: Section| s@)
}

impl<'a> View for Document<'a> {
    type V = DocModel;

    open spec fn view(&self) -> DocModel {
        DocModel { blocks: code_models(self.code_blocks@), root: self.root@ }
    }
}

pub open spec fn all_wf(v: Seq<Section>) -> bool {
    forall|i: int| 0 <= i < v.len() ==> (#[trigger] v[i]).wf()
}

/// Closes every open section whose level is at least `level`, innermost
/// first, attaching each to its parent.
fn close_sections<'a>(stack: &mut Vec<Section<'a>>, level: usize)
    requires
        old(stack)@.len() >= 1,
        all_wf(old(stack)@),
    ensures
        final(stack)@.len() >= 1,
        all_wf(final(stack)@),
        section_models(final(stack)@) == close_to(section_models(old(stack)@), level as nat),
{
    while stack.len() > 1 && stack[stack.len() - 1].part.level >= level
        invariant
            stack@.len() >= 1,
            all_wf(stack@),
            close_to(section_models(stack@), level as nat) == close_to(
                section_models(old(stack)@),
                level as nat,
            ),
        decreases stack@.len(),
    {
        let ghost before = section_models(stack@);
        let top = stack.pop().unwrap();
        let mut parent = stack.pop().unwrap();
        parent.add_child(top);
        stack.push(parent);
        proof {
            let rest = before.drop_last();
            assert(section_models(stack@) =~= rest.update(
                rest.len() - 1,
                with_child(rest.last(), before.last()),
            ));
        }
    }
    proof {
        let m = section_models(stack@);
        assert(m.len() <= 1 || m.last().part.level < level);
    }
}

/// Whether resolved properties say to leave a block out.
fn ignored(p: &Properties) -> (r: bool)
    ensures
        r == is_ignored(p@),
{
    match p.ignore {
        Some(true) => true,
        _ => false,
    }
}

/// Emits a code block from the current section `top`, unless its resolved
/// properties say to ignore it.
fn emit_code<'a>(top: &mut Section<'a>, blocks: &mut Vec<Code<'a>>, part: CodePart<'a>)
    requires
        old(top).wf(),
    ensures
        final(top).wf(),
        final(top)@ == emitted_top(old(top)@, old(blocks)@.len(), part@),
        code_models(final(blocks)@) == emitted_blocks(code_models(old(blocks)@), old(top)@, part@),
{
    let props = top.properties.get_code_props(part.lang);
    if !ignored(&props) {
        let ghost before = code_models(blocks@);
        top.add_index(blocks.len());
        let code = Code { properties: props, part };
        blocks.push(code);
        assert(code_models(blocks@) =~= before.push(code@));
    }
}

impl<'a> Document<'a> {
    /// Parses a document: scans it, builds the section tree, and resolves the
    /// properties of every code block at the point where it occurs. In strict
    /// mode a malformed annotation is an error that gives its lines.
    pub fn from_contents(contents: &'a [u8], parsers: MarkdownParsers) -> (r: Result<
        Self,
        BetwixtParseError<'a>,
    >)
        ensures
            match document_of(parsers, contents@) {
                Ok(d) => r matches Ok(doc) && doc@ == d,
                Err((s, e)) => r matches Err(
                    BetwixtParseError::InvalidProperties { line_start, line_end, line_text },
                ) && line_start as int == line_of(contents@, s) && line_end as int == line_of(
                    contents@,
                    e - 1,
                ) && line_text@ == contents@.subrange(s, e),
            },
    {
        let mut scanner = LineScanner::new(contents, parsers.strict);
        let root = Section::new(
            SectionPart { heading: None, level: 0 },
            PropertiesCollection::empty(),
        );
        let mut stack: Vec<Section<'a>> = Vec::new();
        stack.push(root);
        let mut blocks: Vec<Code<'a>> = Vec::new();
        let ghost init = BuildModel { stack: seq![root_model()], blocks: Seq::empty() };
        proof {
            assert(section_models(stack@) =~= seq![root_model()]);
            assert(code_models(blocks@) =~= Seq::<CodeModel>::empty());
        }
        loop
            invariant_except_break
                scanner.wf(),
                scanner.input() == contents@,
                scanner.is_strict() == parsers.strict,
                0 <= scanner.position() <= contents@.len(),
                build_from(
                    parsers,
                    contents@,
                    scanner.position(),
                    BuildModel { stack: section_models(stack@), blocks: code_models(blocks@) },
                ) == build_from(parsers, contents@, 0, init),
            invariant
                stack@.len() >= 1,
                all_wf(stack@),
                init == (BuildModel { stack: seq![root_model()], blocks: Seq::empty() }),
            ensures
                stack@.len() >= 1,
                all_wf(stack@),
                build_from(parsers, contents@, 0, init) == Ok::<BuildModel, (int, int)>(
                    BuildModel { stack: section_models(stack@), blocks: code_models(blocks@) },
                ),
            decreases contents@.len() - scanner.position(),
        {
            let ghost pos = scanner.position();
            let ghost b = BuildModel {
                stack: section_models(stack@),
                blocks: code_models(blocks@),
            };
            proof {
                lemma_scan_from_advances(parsers, contents@, pos, pos, parsers.strict);
            }
            let item = match scanner.scan(&parsers) {
                Ok(item) => item,
                Err(e) => {
                    proof {
                        if let StepModel::Error(s, e) = scan_from(
                            parsers,
                            contents@,
                            pos,
                            pos,
                            parsers.strict,
                        ) {
                            assert(build_from(parsers, contents@, pos, b) == Err::<
                                BuildModel,
                                (int, int),
                            >((s, e)));
                            assert(document_of(parsers, contents@) == Err::<DocModel, (int, int)>(
                                (s, e),
                            ));
                        }
                    }
                    return Err(e);
                },
            };
            let ghost ev = item@;
            match item {
                ScanResult::Section(part) => {
                    close_sections(&mut stack, part.level);
                    let env = stack[stack.len() - 1].properties.copy();
                    let ghost closed = section_models(stack@);
                    let fresh = Section::new(part, env);
                    stack.push(fresh);
                    proof {
                        assert(section_models(stack@) =~= closed.push(fresh@));
                    }
                },
                ScanResult::Code(part) => {
                    let mut top = stack.pop().unwrap();
                    assert(top@ == b.stack.last());
                    emit_code(&mut top, &mut blocks, part);
                    stack.push(top);
                    proof {
                        assert(section_models(stack@) =~= with_top(b.stack, top@));
                    }
                },
                ScanResult::Properties((lang, props)) => {
                    let mut top = stack.pop().unwrap();
                    assert(top@ == b.stack.last());
                    match props.code {
                        None => top.update_properties(lang, props),
                        Some(c) => {
                            let mut inherited = props;
                            inherited.code = None;
                            assert(inherited@ == PropsModel { code: None, ..props@ });
                            top.update_properties(lang, inherited);
                            let inline = CodePart { contents: c, lang };
                            emit_code(&mut top, &mut blocks, inline);
                            assert(inline@ == CodePartModel { contents: c@, lang: opt_bytes(lang) });
                        },
                    }
                    stack.push(top);
                    proof {
                        assert(section_models(stack@) =~= with_top(b.stack, top@));
                    }
                },
                ScanResult::End => break,
            }
            proof {
                assert(BuildModel { stack: section_models(stack@), blocks: code_models(blocks@) }
                    == build_step(b, ev));
                assert(build_from(parsers, contents@, pos, b) == build_from(
                    parsers,
                    contents@,
                    scanner.position(),
                    build_step(b, ev),
                ));
            }
        }
        let ghost open = section_models(stack@);
        close_sections(&mut stack, 0);
        proof {
            lemma_close_to_root(open);
        }
        let root = stack.pop().unwrap();
        Ok(Document { code_blocks: blocks, root })
    }
}

} // verus!
