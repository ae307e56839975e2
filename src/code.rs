//! Fenced code blocks: the recogniser and the emitted block.
use vstd::prelude::*;
use vstd::string::StringSliceAdditionalSpecFns;

use crate::bytes::{bytes_at, run_end, skip_class, starts_at, ByteClass};
use crate::properties::{opt_bytes, Properties, PropsModel};
use crate::{EventModel, LineParseResult, LineParser, OutcomeModel, ScanResult};

verus! {

/// The body of a fenced code block and the language tag of its opening fence.
#[derive(Clone, Copy, Debug, PartialEq)]
pub struct CodePart<'a> {
    pub contents: &'a [u8],
    pub lang: Option<&'a [u8]>,
}

/// The mathematical value of a [`CodePart`].
pub struct CodePartModel {
    pub contents: Seq<u8>,
    pub lang: Option<Seq<u8>>,
}

impl<'a> View for CodePart<'a> {
    type V = CodePartModel;

    open spec fn view(&self) -> CodePartModel {
        CodePartModel { contents: self.contents@, lang: opt_bytes(self.lang) }
    }
}

/// An emitted code block with the properties resolved for it.
#[derive(Debug)]
pub struct Code<'a> {
    pub properties: Properties<'a>,
    pub part: CodePart<'a>,
}

/// The mathematical value of a [`Code`].
pub struct CodeModel {
    pub part: CodePartModel,
    pub effective: PropsModel,
}

impl<'a> View for Code<'a> {
    type V = CodeModel;

    open spec fn view(&self) -> CodeModel {
        CodeModel { part: self.part@, effective: self.properties@ }
    }
}

/// A closing-fence line starts at `q`: at the start of a line, the
/// delimiter, optional blanks, a newline.
pub open spec fn closes_at(w: Seq<u8>, close: Seq<u8>, q: int) -> bool {
    0 < q && w[q - 1] == 0x0au8 && starts_at(w, q, close) && {
        let e = run_end(w, q + close.len(), ByteClass::Blank.pred());
        e < w.len() && w[e] == 0x0au8
    }
}

/// The first closing fence at or after `q`.
pub open spec fn first_close(w: Seq<u8>, close: Seq<u8>, q: int) -> Option<int>
    decreases w.len() - q,
{
    if q < 0 || q >= w.len() {
        None
    } else if closes_at(w, close, q) {
        Some(q)
    } else {
        first_close(w, close, q + 1)
    }
}

pub proof fn lemma_first_close_bounds(w: Seq<u8>, close: Seq<u8>, q: int)
    ensures
        first_close(w, close, q) matches Some(r) ==> q <= r < w.len() && closes_at(w, close, r),
    decreases w.len() - q,
{
    if q < 0 || q >= w.len() {
    } else if closes_at(w, close, q) {
    } else {
        lemma_first_close_bounds(w, close, q + 1);
    }
}

/// What the code-fence recogniser makes of window `w`. The opening line is
/// the delimiter, an optional alphabetic language tag, optional blanks and
/// a newline; the body runs up to the first closing fence after it.
pub open spec fn fence_outcome(open: Seq<u8>, close: Seq<u8>, w: Seq<u8>) -> OutcomeModel {
    if !starts_at(w, 0, open) {
        OutcomeModel::NoMatch
    } else {
        let a = open.len() as int;
        let b = run_end(w, a, ByteClass::Alpha.pred());
        let c = run_end(w, b, ByteClass::Blank.pred());
        if !(c < w.len() && w[c] == 0x0au8) {
            OutcomeModel::NoMatch
        } else {
            match first_close(w, close, c + 1) {
                None => OutcomeModel::Partial,
                Some(q) => OutcomeModel::Matched(
                    EventModel::Code(
                        CodePartModel {
                            contents: w.subrange(c + 1, q),
                            lang: if b > a {
                                Some(w.subrange(a, b))
                            } else {
                                None
                            },
                        },
                    ),
                ),
            }
        }
    }
}

/// The code-fence recogniser, with its opening and closing delimiters.
pub struct CodeParser {
    pub start: &'static [u8],
    pub end: &'static [u8],
}

/// A code-fence recogniser with the given delimiters.
pub fn code(code_start: &'static str, code_end: &'static str) -> (r: CodeParser)
    ensures
        r.start@ == code_start.spec_bytes(),
        r.end@ == code_end.spec_bytes(),
{
    CodeParser { start: code_start.as_bytes(), end: code_end.as_bytes() }
}

/// Whether a closing fence starts at `q`.
fn closes(w: &[u8], close: &[u8], q: usize) -> (r: bool)
    ensures
        r == closes_at(w@, close@, q as int),
{
    assert(w@.len() == w.len());
    if q == 0 || q > w.len() || w[q - 1] != 0x0a || !bytes_at(w, q, close) {
        return false;
    }
    let e = skip_class(w, q + close.len(), ByteClass::Blank);
    e < w.len() && w[e] == 0x0a
}

/// The first position at or after `from` where a closing fence starts.
fn locate_parser_match(w: &[u8], close: &[u8], from: usize) -> (r: Option<usize>)
    ensures
        r matches Some(q) ==> first_close(w@, close@, from as int) == Some(q as int),
        r is None ==> first_close(w@, close@, from as int) is None,
{
    let mut q = from;
    while q < w.len()
        invariant
            from <= q,
            w@.len() == w.len(),
            first_close(w@, close@, q as int) == first_close(w@, close@, from as int),
        decreases w@.len() - q,
    {
        if closes(w, close, q) {
            return Some(q);
        }
        q = q + 1;
    }
    None
}

impl LineParser for CodeParser {
    open spec fn outcome(&self, w: Seq<u8>) -> OutcomeModel {
        fence_outcome(self.start@, self.end@, w)
    }

    fn parse<'a>(&self, i: &'a [u8]) -> (r: LineParseResult<'a>) {
        if !bytes_at(i, 0, self.start) {
            return LineParseResult::NoMatch;
        }
        let a = self.start.len();
        let b = skip_class(i, a, ByteClass::Alpha);
        let c = skip_class(i, b, ByteClass::Blank);
        if !(c < i.len() && i[c] == 0x0a) {
            return LineParseResult::NoMatch;
        }
        match locate_parser_match(i, self.end, c + 1) {
            None => LineParseResult::PartialMatch,
            Some(q) => {
                proof {
                    lemma_first_close_bounds(i@, self.end@, c + 1);
                }
                let lang = if b > a {
                    Some(vstd::slice::slice_subrange(i, a, b))
                } else {
                    None
                };
                let contents = vstd::slice::slice_subrange(i, c + 1, q);
                LineParseResult::Matched(ScanResult::Code(CodePart { contents, lang }))
            },
        }
    }
}

} // verus!
