//! The line scanner: grows a window of whole lines over the input and asks a
//! recogniser what the window holds.
use vstd::prelude::*;

use crate::bytes::{find_bytes, find_from, lemma_find_from_bounds};
use crate::properties::BetwixtParseError;
use crate::{EventModel, LineParseResult, LineParser, OutcomeModel, ScanResult};

verus! {

/// The position just past the line that starts at or contains `p`: after
/// its newline, or the end of the input.
pub open spec fn next_line_end(data: Seq<u8>, p: int) -> int {
    match find_from(data, p, seq![0x0au8]) {
        Some(n) => n + 1,
        None => data.len() as int,
    }
}

/// The number of newlines in `s`.
pub open spec fn newlines(s: Seq<u8>) -> nat
    decreases s.len(),
{
    if s.len() == 0 {
        0
    } else {
        newlines(s.drop_last()) + if s.last() == 0x0au8 {
            1nat
        } else {
            0nat
        }
    }
}

/// The line, counted from one, that holds position `p`.
pub open spec fn line_of(data: Seq<u8>, p: int) -> int {
    newlines(data.subrange(0, p)) + 1int
}

/// What one call of the scanner yields: an event and the position after it,
/// or a malformed annotation spanning `[start, end)`.
pub enum StepModel {
    Event(EventModel, int),
    Error(int, int),
}

pub proof fn lemma_next_line_end(data: Seq<u8>, p: int)
    requires
        0 <= p < data.len(),
    ensures
        p < next_line_end(data, p) <= data.len(),
{
    lemma_find_from_bounds(data, p, seq![0x0au8]);
}

#[via_fn]
proof fn scan_from_decreases<P: LineParser>(
    parser: P,
    data: Seq<u8>,
    start: int,
    end: int,
    strict: bool,
) {
    if 0 <= end < data.len() {
        lemma_next_line_end(data, end);
    }
}

/// The scanner's next step from a window `[start, end)`: extend the window
/// by one line and ask the recogniser; keep extending after a partial match,
/// restart after the window when nothing matches, and report a malformed
/// annotation in strict mode.
pub open spec fn scan_from<P: LineParser>(
    parser: P,
    data: Seq<u8>,
    start: int,
    end: int,
    strict: bool,
) -> StepModel
    decreases data.len() - end,
    via scan_from_decreases::<P>
{
    if end < 0 || end >= data.len() {
        StepModel::Event(EventModel::End, data.len() as int)
    } else {
        let e2 = next_line_end(data, end);
        match parser.outcome(data.subrange(start, e2)) {
            OutcomeModel::Matched(ev) => StepModel::Event(ev, e2),
            OutcomeModel::Partial => scan_from(parser, data, start, e2, strict),
            OutcomeModel::NoMatch => scan_from(parser, data, e2, e2, strict),
            OutcomeModel::Invalid => if strict {
                StepModel::Error(start, e2)
            } else {
                scan_from(parser, data, e2, e2, strict)
            },
        }
    }
}

pub proof fn lemma_scan_from_advances<P: LineParser>(
    parser: P,
    data: Seq<u8>,
    start: int,
    end: int,
    strict: bool,
)
    requires
        0 <= start <= end <= data.len(),
    ensures
        scan_from(parser, data, start, end, strict) matches StepModel::Event(ev, n) ==> (
        ev is End || end < n) && n <= data.len(),
        scan_from(parser, data, start, end, strict) matches StepModel::Error(s, e) ==> start <= s
            < e <= data.len(),
    decreases data.len() - end,
{
    if 0 <= end < data.len() {
        let e2 = next_line_end(data, end);
        lemma_next_line_end(data, end);
        match parser.outcome(data.subrange(start, e2)) {
            OutcomeModel::Matched(ev) => {},
            OutcomeModel::Partial => lemma_scan_from_advances(parser, data, start, e2, strict),
            OutcomeModel::NoMatch => lemma_scan_from_advances(parser, data, e2, e2, strict),
            OutcomeModel::Invalid => if !strict {
                lemma_scan_from_advances(parser, data, e2, e2, strict)
            },
        }
    }
}

pub proof fn lemma_newlines_bound(s: Seq<u8>)
    ensures
        newlines(s) <= s.len(),
    decreases s.len(),
{
    if s.len() > 0 {
        lemma_newlines_bound(s.drop_last());
    }
}

/// The line, counted from one, that holds position `p`.
fn line_number(data: &[u8], p: usize) -> (r: usize)
    requires
        p < data@.len(),
    ensures
        r as int == line_of(data@, p as int),
{
    let mut count: usize = 0;
    let mut i: usize = 0;
    while i < p
        invariant
            i <= p < data@.len(),
            data@.len() == data.len(),
            count as int == newlines(data@.subrange(0, i as int)),
        decreases p - i,
    {
        proof {
            assert(data@.subrange(0, i + 1).drop_last() =~= data@.subrange(0, i as int));
            lemma_newlines_bound(data@.subrange(0, i as int));
        }
        if data[i] == 0x0a {
            count = count + 1;
        }
        i = i + 1;
    }
    proof {
        lemma_newlines_bound(data@.subrange(0, p as int));
    }
    count + 1
}

/// Scans an input one line at a time. Between calls the window is empty and
/// starts at a line boundary.
pub struct LineScanner<'a> {
    data: &'a [u8],
    start: usize,
    end: usize,
    strict: bool,
}

impl<'a> LineScanner<'a> {
    pub closed spec fn input(&self) -> Seq<u8> {
        self.data@
    }

    /// Where the next call starts.
    pub closed spec fn position(&self) -> int {
        self.start as int
    }

    pub closed spec fn is_strict(&self) -> bool {
        self.strict
    }

    pub closed spec fn wf(&self) -> bool {
        self.start == self.end && self.end <= self.data@.len()
    }

    pub fn new(data: &'a [u8], strict: bool) -> (r: Self)
        ensures
            r.wf(),
            r.input() == data@,
            r.position() == 0,
            r.is_strict() == strict,
    {
        LineScanner { data, start: 0, end: 0, strict }
    }

    /// Yields the next construct, `End` once the input is exhausted, or in
    /// strict mode the lines of a malformed annotation.
    pub fn scan<P: LineParser>(&mut self, parser: &P) -> (r: Result<
        ScanResult<'a>,
        BetwixtParseError<'a>,
    >)
        requires
            old(self).wf(),
        ensures
            final(self).wf(),
            final(self).input() == old(self).input(),
            final(self).is_strict() == old(self).is_strict(),
            match scan_from(
                *parser,
                old(self).input(),
                old(self).position(),
                old(self).position(),
                old(self).is_strict(),
            ) {
                StepModel::Event(ev, n) => r matches Ok(x) && x@ == ev && final(self).position()
                    == n,
                StepModel::Error(s, e) => r matches Err(
                    BetwixtParseError::InvalidProperties { line_start, line_end, line_text },
                ) && line_start as int == line_of(old(self).input(), s) && line_end as int
                    == line_of(old(self).input(), e - 1) && line_text@ == old(self).input().subrange(
                    s,
                    e,
                ),
            },
    {
        let ghost p0 = self.start as int;
        let newline: [u8; 1] = [0x0a];
        proof {
            assert(newline@ =~= seq![0x0au8]);
        }
        while self.end < self.data.len()
            invariant
                self.start <= self.end <= self.data@.len(),
                self.data == old(self).data,
                self.strict == old(self).strict,
                newline@ == seq![0x0au8],
                scan_from(*parser, self.data@, self.start as int, self.end as int, self.strict)
                    == scan_from(*parser, self.data@, p0, p0, self.strict),
                p0 == old(self).start,
            decreases self.data@.len() - self.end,
        {
            proof {
                lemma_next_line_end(self.data@, self.end as int);
            }
            let e2 = match find_bytes(self.data, self.end, newline.as_slice()) {
                Some(n) => n + 1,
                None => self.data.len(),
            };
            let w = vstd::slice::slice_subrange(self.data, self.start, e2);
            let ghost end0 = self.end as int;
            assert(e2 == next_line_end(self.data@, end0));
            self.end = e2;
            match parser.parse(w) {
                LineParseResult::Matched(m) => {
                    self.start = e2;
                    return Ok(m);
                },
                LineParseResult::PartialMatch => {},
                LineParseResult::NoMatch => {
                    self.start = e2;
                },
                LineParseResult::InvalidMatch => {
                    if self.strict {
                        let s = self.start;
                        let line_start = line_number(self.data, s);
                        let line_end = line_number(self.data, e2 - 1);
                        let line_text = vstd::slice::slice_subrange(self.data, s, e2);
                        self.start = e2;
                        return Err(
                            BetwixtParseError::InvalidProperties { line_start, line_end, line_text },
                        );
                    }
                    self.start = e2;
                },
            }
        }
        self.start = self.end;
        Ok(ScanResult::End)
    }
}

} // verus!
