//! Property sets carried by annotations, their merge rule, and tangle modes.
use vstd::prelude::*;
use vstd::string::StringSliceAdditionalSpecFns;

use crate::bytes::{
    bytes_at, find_bytes, find_from, lemma_find_from_bounds, run_end, skip_class, starts_at,
    ByteClass,
};
use crate::words::Word;
use crate::{EventModel, LineParseResult, LineParser, OutcomeModel, ScanResult};

verus! {

/// How a code block is written into its destination file.
#[derive(Clone, Copy, Debug, PartialEq)]
pub enum TangleMode<'a> {
    Overwrite,
    Append,
    Prepend,
    Insert(&'a [u8]),
}

/// The mathematical value of a [`TangleMode`].
pub enum ModeModel {
    Overwrite,
    Append,
    Prepend,
    Insert(Seq<u8>),
}

impl<'a> View for TangleMode<'a> {
    type V = ModeModel;

    open spec fn view(&self) -> ModeModel {
        match *self {
            TangleMode::Overwrite => ModeModel::Overwrite,
            TangleMode::Append => ModeModel::Append,
            TangleMode::Prepend => ModeModel::Prepend,
            TangleMode::Insert(m) => ModeModel::Insert(m@),
        }
    }
}

/// A non-empty insertion marker holds no `]`.
pub open spec fn valid_marker(m: Seq<u8>) -> bool {
    m.len() > 0 && forall|k: int| 0 <= k < m.len() ==> m[k] != 0x5du8
}

/// The modes that have a written form.
pub open spec fn valid_mode(m: ModeModel) -> bool {
    m matches ModeModel::Insert(x) ==> valid_marker(x)
}

/// The written form of a mode: `overwrite`, `append`, `prepend` or
/// `insert[<marker>]`.
pub open spec fn mode_bytes(m: ModeModel) -> Seq<u8> {
    match m {
        ModeModel::Overwrite => Word::Overwrite.bytes(),
        ModeModel::Append => Word::Append.bytes(),
        ModeModel::Prepend => Word::Prepend.bytes(),
        ModeModel::Insert(x) => Word::Insert.bytes() + seq![0x5bu8] + x + seq![0x5du8],
    }
}

/// The mode that a property value names, if it names one.
pub open spec fn mode_of(b: Seq<u8>) -> Option<ModeModel> {
    if b == Word::Overwrite.bytes() {
        Some(ModeModel::Overwrite)
    } else if b == Word::Append.bytes() {
        Some(ModeModel::Append)
    } else if b == Word::Prepend.bytes() {
        Some(ModeModel::Prepend)
    } else if b.len() >= 8 && starts_at(b, 0, Word::Insert.bytes()) && b[6] == 0x5bu8 && b[b.len()
        - 1] == 0x5du8 && valid_marker(b.subrange(7, b.len() - 1)) {
        Some(ModeModel::Insert(b.subrange(7, b.len() - 1)))
    } else {
        None
    }
}

/// The bytes an optional slice holds.
pub open spec fn opt_bytes(o: Option<&[u8]>) -> Option<Seq<u8>> {
    match o {
        Some(b) => Some(b@),
        None => None,
    }
}

/// The set of properties that an annotation sets or that a code block
/// resolves to. Every field is independently optional.
#[derive(Clone, Copy, Debug, PartialEq)]
pub struct Properties<'a> {
    pub filename: Option<&'a [u8]>,
    pub tag: Option<&'a [u8]>,
    pub mode: Option<TangleMode<'a>>,
    pub ignore: Option<bool>,
    pub prefix: Option<&'a [u8]>,
    pub postfix: Option<&'a [u8]>,
    /// The body of an inline code block; never inherited.
    pub code: Option<&'a [u8]>,
}

/// The mathematical value of a [`Properties`].
pub struct PropsModel {
    pub filename: Option<Seq<u8>>,
    pub tag: Option<Seq<u8>>,
    pub mode: Option<ModeModel>,
    pub ignore: Option<bool>,
    pub prefix: Option<Seq<u8>>,
    pub postfix: Option<Seq<u8>>,
    pub code: Option<Seq<u8>>,
}

impl<'a> View for Properties<'a> {
    type V = PropsModel;

    open spec fn view(&self) -> PropsModel {
        PropsModel {
            filename: opt_bytes(self.filename),
            tag: opt_bytes(self.tag),
            mode: match self.mode {
                Some(m) => Some(m@),
                None => None,
            },
            ignore: self.ignore,
            prefix: opt_bytes(self.prefix),
            postfix: opt_bytes(self.postfix),
            code: opt_bytes(self.code),
        }
    }
}

/// The property set with no field set.
pub open spec fn empty_props() -> PropsModel {
    PropsModel {
        filename: None,
        tag: None,
        mode: None,
        ignore: None,
        prefix: None,
        postfix: None,
        code: None,
    }
}

/// The child's value where it has one, else the parent's.
pub open spec fn either<T>(child: Option<T>, parent: Option<T>) -> Option<T> {
    if child is Some {
        child
    } else {
        parent
    }
}

/// Field-wise merge in which the child wins and absent fields are taken from
/// the parent. The inline code body is not inherited.
pub open spec fn merged(child: PropsModel, parent: PropsModel) -> PropsModel {
    PropsModel {
        filename: either(child.filename, parent.filename),
        tag: either(child.tag, parent.tag),
        mode: either(child.mode, parent.mode),
        ignore: either(child.ignore, parent.ignore),
        prefix: either(child.prefix, parent.prefix),
        postfix: either(child.postfix, parent.postfix),
        code: child.code,
    }
}

impl<'a> Default for Properties<'a> {
    fn default() -> (r: Properties<'a>)
        ensures
            r@ == empty_props(),
    {
        Properties {
            filename: None,
            tag: None,
            mode: None,
            ignore: None,
            prefix: None,
            postfix: None,
            code: None,
        }
    }
}

impl<'a> Default for TangleMode<'a> {
    fn default() -> (r: TangleMode<'a>)
        ensures
            r@ == ModeModel::Append,
    {
        TangleMode::Append
    }
}

impl<'a> Properties<'a> {
    /// Fills every field that `self` lacks from `parent`.
    pub fn merge(&mut self, parent: &Properties<'a>)
        ensures
            final(self)@ == merged(old(self)@, parent@),
    {
        if self.filename.is_none() {
            self.filename = parent.filename;
        }
        if self.tag.is_none() {
            self.tag = parent.tag;
        }
        if self.mode.is_none() {
            self.mode = parent.mode;
        }
        if self.ignore.is_none() {
            self.ignore = parent.ignore;
        }
        if self.prefix.is_none() {
            self.prefix = parent.prefix;
        }
        if self.postfix.is_none() {
            self.postfix = parent.postfix;
        }
    }
}

/// The value of one assignment: quoted bytes, or a boolean for `ignore`.
pub enum Value {
    Bytes(Seq<u8>),
    Flag(bool),
}

/// An assignment's value as read from the input.
pub enum PropValue<'a> {
    Bytes(&'a [u8]),
    Flag(bool),
}

impl<'a> View for PropValue<'a> {
    type V = Value;

    open spec fn view(&self) -> Value {
        match *self {
            PropValue::Bytes(b) => Value::Bytes(b@),
            PropValue::Flag(f) => Value::Flag(f),
        }
    }
}

/// The assignments read so far: every field but the mode, and the mode's
/// value not yet interpreted.
pub struct RawProps {
    pub props: PropsModel,
    pub mode: Option<Seq<u8>>,
}

/// `key=` occurs at `s`.
pub open spec fn key_eq_at(b: Seq<u8>, s: int, k: Word) -> bool {
    starts_at(b, s, k.bytes()) && s + k.bytes().len() < b.len() && b[s + k.bytes().len()] == 0x3du8
}

/// The key whose `key=` occurs at `s`, trying the keys in a fixed order.
pub open spec fn key_at(b: Seq<u8>, s: int) -> Option<Word> {
    if key_eq_at(b, s, Word::Filename) {
        Some(Word::Filename)
    } else if key_eq_at(b, s, Word::Pre) {
        Some(Word::Pre)
    } else if key_eq_at(b, s, Word::Post) {
        Some(Word::Post)
    } else if key_eq_at(b, s, Word::Tag) {
        Some(Word::Tag)
    } else if key_eq_at(b, s, Word::Mode) {
        Some(Word::Mode)
    } else if key_eq_at(b, s, Word::Code) {
        Some(Word::Code)
    } else if key_eq_at(b, s, Word::Ignore) {
        Some(Word::Ignore)
    } else {
        None
    }
}

/// The opening quote at `v`: `'`, `"` or `|||`.
pub open spec fn quote_at(b: Seq<u8>, v: int) -> Option<Seq<u8>> {
    if 0 <= v < b.len() && b[v] == 0x27u8 {
        Some(seq![0x27u8])
    } else if 0 <= v < b.len() && b[v] == 0x22u8 {
        Some(seq![0x22u8])
    } else if starts_at(b, v, Word::TripleBar.bytes()) {
        Some(Word::TripleBar.bytes())
    } else {
        None
    }
}

/// The value of key `k` that starts at `v`, and the position after it and
/// the blanks that follow it.
pub open spec fn value_at(b: Seq<u8>, v: int, k: Word) -> Option<(Value, int)> {
    if matches!(k, Word::Ignore) {
        if starts_at(b, v, Word::True.bytes()) {
            Some((Value::Flag(true), run_end(b, v + 4, ByteClass::Blank.pred())))
        } else if starts_at(b, v, Word::False.bytes()) {
            Some((Value::Flag(false), run_end(b, v + 5, ByteClass::Blank.pred())))
        } else {
            None
        }
    } else {
        match quote_at(b, v) {
            None => None,
            Some(q) => match find_from(b, v + q.len(), q) {
                None => None,
                Some(e) => Some(
                    (
                        Value::Bytes(b.subrange(v + q.len(), e)),
                        run_end(b, e + q.len(), ByteClass::Blank.pred()),
                    ),
                ),
            },
        }
    }
}

/// The assignment that starts at `p` after optional whitespace: its key,
/// its value and the position after it.
pub open spec fn assignment_at(b: Seq<u8>, p: int) -> Option<(Word, Value, int)> {
    let s = run_end(b, p, ByteClass::Space.pred());
    match key_at(b, s) {
        None => None,
        Some(k) => match value_at(b, s + k.bytes().len() + 1, k) {
            None => None,
            Some((v, n)) => Some((k, v, n)),
        },
    }
}

/// Whether key `k` has already been assigned.
pub open spec fn is_set(acc: RawProps, k: Word) -> bool {
    match k {
        Word::Filename => acc.props.filename is Some,
        Word::Tag => acc.props.tag is Some,
        Word::Mode => acc.mode is Some,
        Word::Code => acc.props.code is Some,
        Word::Pre => acc.props.prefix is Some,
        Word::Post => acc.props.postfix is Some,
        Word::Ignore => acc.props.ignore is Some,
        _ => true,
    }
}

/// `acc` with key `k` assigned `v`.
pub open spec fn with_value(acc: RawProps, k: Word, v: Value) -> RawProps {
    match (k, v) {
        (Word::Filename, Value::Bytes(x)) => RawProps {
            props: PropsModel { filename: Some(x), ..acc.props },
            ..acc
        },
        (Word::Tag, Value::Bytes(x)) => RawProps { props: PropsModel { tag: Some(x), ..acc.props }, ..acc },
        (Word::Mode, Value::Bytes(x)) => RawProps { mode: Some(x), ..acc },
        (Word::Code, Value::Bytes(x)) => RawProps {
            props: PropsModel { code: Some(x), ..acc.props },
            ..acc
        },
        (Word::Pre, Value::Bytes(x)) => RawProps {
            props: PropsModel { prefix: Some(x), ..acc.props },
            ..acc
        },
        (Word::Post, Value::Bytes(x)) => RawProps {
            props: PropsModel { postfix: Some(x), ..acc.props },
            ..acc
        },
        (Word::Ignore, Value::Flag(f)) => RawProps {
            props: PropsModel { ignore: Some(f), ..acc.props },
            ..acc
        },
        _ => acc,
    }
}

/// Reads assignments from `p` on, each key at most once. With seven keys,
/// seven steps read every assignment there can be.
pub open spec fn assignments(b: Seq<u8>, p: int, acc: RawProps, steps: nat) -> (RawProps, int)
    decreases steps,
{
    if steps == 0 {
        (acc, p)
    } else {
        match assignment_at(b, p) {
            None => (acc, p),
            Some((k, v, n)) => if is_set(acc, k) {
                (acc, p)
            } else {
                assignments(b, n, with_value(acc, k, v), (steps - 1) as nat)
            },
        }
    }
}

/// The property set that an annotation body assigns: assignments separated
/// by optional whitespace, each key at most once, nothing but whitespace
/// after the last, and a mode value that names a mode.
pub open spec fn props_of(b: Seq<u8>) -> Option<PropsModel> {
    let (acc, p) = assignments(b, 0, RawProps { props: empty_props(), mode: None }, 7);
    if run_end(b, p, ByteClass::Space.pred()) != b.len() {
        None
    } else {
        match acc.mode {
            None => Some(acc.props),
            Some(m) => match mode_of(m) {
                None => None,
                Some(mm) => Some(PropsModel { mode: Some(mm), ..acc.props }),
            },
        }
    }
}

/// Whether `key=` occurs at `s`.
fn key_eq(b: &[u8], s: usize, k: Word) -> (r: bool)
    ensures
        r == key_eq_at(b@, s as int, k),
{
    assert(b@.len() == b.len());
    if !k.occurs_at(b, s) {
        return false;
    }
    let e = s + k.len();
    e < b.len() && b[e] == 0x3d
}

/// The key whose `key=` occurs at `s`.
fn key(b: &[u8], s: usize) -> (r: Option<Word>)
    ensures
        r == key_at(b@, s as int),
{
    if key_eq(b, s, Word::Filename) {
        Some(Word::Filename)
    } else if key_eq(b, s, Word::Pre) {
        Some(Word::Pre)
    } else if key_eq(b, s, Word::Post) {
        Some(Word::Post)
    } else if key_eq(b, s, Word::Tag) {
        Some(Word::Tag)
    } else if key_eq(b, s, Word::Mode) {
        Some(Word::Mode)
    } else if key_eq(b, s, Word::Code) {
        Some(Word::Code)
    } else if key_eq(b, s, Word::Ignore) {
        Some(Word::Ignore)
    } else {
        None
    }
}

/// A quoted value starting at `v`: the bytes between the quotes and the
/// position after the closing quote and the blanks that follow.
fn property<'a>(b: &'a [u8], v: usize) -> (r: Option<(&'a [u8], usize)>)
    requires
        v <= b@.len(),
    ensures
        r is None ==> value_at(b@, v as int, Word::Tag) is None,
        r matches Some((x, n)) ==> value_at(b@, v as int, Word::Tag) == Some(
            (Value::Bytes(x@), n as int),
        ) && n <= b@.len(),
{
    let single: [u8; 1] = [0x27];
    let double: [u8; 1] = [0x22];
    let triple: [u8; 3] = [0x7c, 0x7c, 0x7c];
    proof {
        assert(triple@ =~= Word::TripleBar.bytes());
        assert(single@ =~= seq![0x27u8]);
        assert(double@ =~= seq![0x22u8]);
    }
    let q: &[u8] = if v < b.len() && b[v] == 0x27 {
        single.as_slice()
    } else if v < b.len() && b[v] == 0x22 {
        double.as_slice()
    } else if Word::TripleBar.occurs_at(b, v) {
        triple.as_slice()
    } else {
        return None;
    };
    assert(quote_at(b@, v as int) == Some(q@));
    if q.len() > b.len() - v {
        proof {
            lemma_find_from_bounds(b@, v + q@.len(), q@);
        }
        return None;
    }
    let open_end = v + q.len();
    match find_bytes(b, open_end, q) {
        None => None,
        Some(e) => {
            proof {
                lemma_find_from_bounds(b@, open_end as int, q@);
            }
            let x = vstd::slice::slice_subrange(b, open_end, e);
            let n = skip_class(b, e + q.len(), ByteClass::Blank);
            Some((x, n))
        },
    }
}

/// A boolean `true` or `false` starting at `v`, and the position after it
/// and the blanks that follow.
fn bool_property(b: &[u8], v: usize) -> (r: Option<(bool, usize)>)
    requires
        v <= b@.len(),
    ensures
        r is None ==> value_at(b@, v as int, Word::Ignore) is None,
        r matches Some((f, n)) ==> value_at(b@, v as int, Word::Ignore) == Some(
            (Value::Flag(f), n as int),
        ) && n <= b@.len(),
{
    assert(b@.len() == b.len());
    if Word::True.occurs_at(b, v) {
        Some((true, skip_class(b, v + 4, ByteClass::Blank)))
    } else if Word::False.occurs_at(b, v) {
        Some((false, skip_class(b, v + 5, ByteClass::Blank)))
    } else {
        None
    }
}

/// The assignment that starts at `p` after optional whitespace.
fn assignment<'a>(b: &'a [u8], p: usize) -> (r: Option<(Word, PropValue<'a>, usize)>)
    requires
        p <= b@.len(),
    ensures
        r is None ==> assignment_at(b@, p as int) is None,
        r matches Some((k, v, n)) ==> assignment_at(b@, p as int) == Some((k, v@, n as int)) && n
            <= b@.len(),
{
    assert(b@.len() == b.len());
    let s = skip_class(b, p, ByteClass::Space);
    let k = match key(b, s) {
        None => return None,
        Some(k) => k,
    };
    let v = s + k.len() + 1;
    if matches!(k, Word::Ignore) {
        match bool_property(b, v) {
            None => None,
            Some((f, n)) => Some((k, PropValue::Flag(f), n)),
        }
    } else {
        match property(b, v) {
            None => None,
            Some((x, n)) => Some((k, PropValue::Bytes(x), n)),
        }
    }
}

/// The assignments read so far, with the mode still as bytes.
pub open spec fn raw_view(acc: Properties, mode: Option<&[u8]>) -> RawProps {
    RawProps { props: acc@, mode: opt_bytes(mode) }
}

/// Whether key `k` has already been assigned.
fn assigned(acc: &Properties, mode: Option<&[u8]>, k: Word) -> (r: bool)
    ensures
        r == is_set(raw_view(*acc, mode), k),
{
    match k {
        Word::Filename => acc.filename.is_some(),
        Word::Tag => acc.tag.is_some(),
        Word::Mode => mode.is_some(),
        Word::Code => acc.code.is_some(),
        Word::Pre => acc.prefix.is_some(),
        Word::Post => acc.postfix.is_some(),
        Word::Ignore => acc.ignore.is_some(),
        _ => true,
    }
}

/// Reads the assignments of an annotation body, in any order, each key at
/// most once. Returns what was read and where reading stopped.
fn opt_permutation<'a>(b: &'a [u8]) -> (r: (Properties<'a>, Option<&'a [u8]>, usize))
    ensures
        r.0.mode is None,
        r.2 <= b@.len(),
        assignments(b@, 0, RawProps { props: empty_props(), mode: None }, 7) == (
            raw_view(r.0, r.1),
            r.2 as int,
        ),
{
    let mut acc = Properties::default();
    let mut mode: Option<&'a [u8]> = None;
    let mut pos: usize = 0;
    let mut steps: usize = 7;
    while steps > 0
        invariant
            acc.mode is None,
            pos <= b@.len(),
            assignments(b@, pos as int, raw_view(acc, mode), steps as nat) == assignments(
                b@,
                0,
                RawProps { props: empty_props(), mode: None },
                7,
            ),
        ensures
            assignments(b@, pos as int, raw_view(acc, mode), steps as nat) == (
                raw_view(acc, mode),
                pos as int,
            ),
        decreases steps,
    {
        let (k, v, n) = match assignment(b, pos) {
            None => break,
            Some(x) => x,
        };
        if assigned(&acc, mode, k) {
            break;
        }
        match (k, v) {
            (Word::Filename, PropValue::Bytes(x)) => acc.filename = Some(x),
            (Word::Tag, PropValue::Bytes(x)) => acc.tag = Some(x),
            (Word::Mode, PropValue::Bytes(x)) => mode = Some(x),
            (Word::Code, PropValue::Bytes(x)) => acc.code = Some(x),
            (Word::Pre, PropValue::Bytes(x)) => acc.prefix = Some(x),
            (Word::Post, PropValue::Bytes(x)) => acc.postfix = Some(x),
            (Word::Ignore, PropValue::Flag(f)) => acc.ignore = Some(f),
            _ => {},
        }
        pos = n;
        steps = steps - 1;
    }
    (acc, mode, pos)
}

/// Reads the property set that an annotation body assigns.
fn properties<'a>(b: &'a [u8]) -> (r: Option<Properties<'a>>)
    ensures
        r is None <==> props_of(b@) is None,
        r matches Some(p) ==> Some(p@) == props_of(b@),
{
    let (mut acc, mode, pos) = opt_permutation(b);
    if skip_class(b, pos, ByteClass::Space) != b.len() {
        return None;
    }
    match mode {
        None => Some(acc),
        Some(m) => match TangleMode::from_bytes(m) {
            Err(_) => None,
            Ok((_, mm)) => {
                acc.mode = Some(mm);
                Some(acc)
            },
        },
    }
}

/// What the annotation recogniser makes of window `w`: the start delimiter,
/// an optional `+lang` qualifier, and a body up to the first end delimiter,
/// which must assign a valid property set.
pub open spec fn annotation_outcome(start: Seq<u8>, end: Seq<u8>, w: Seq<u8>) -> OutcomeModel {
    if !starts_at(w, 0, start) {
        OutcomeModel::NoMatch
    } else {
        let p = start.len() as int;
        let qualified = p < w.len() && w[p] == 0x2bu8;
        let q = if qualified {
            run_end(w, p + 1, ByteClass::Alnum.pred())
        } else {
            p
        };
        let lang = if qualified {
            Some(w.subrange(p + 1, q))
        } else {
            None
        };
        match find_from(w, q, end) {
            None => OutcomeModel::Partial,
            Some(r) => match props_of(w.subrange(q, r)) {
                None => OutcomeModel::Invalid,
                Some(props) => OutcomeModel::Matched(EventModel::Props(lang, props)),
            },
        }
    }
}

/// The annotation recogniser, with its start and end delimiters.
pub struct BetwixtParser {
    pub start: &'static [u8],
    pub end: &'static [u8],
}

/// An annotation recogniser with the given delimiters.
pub fn betwixt(start: &'static str, end: &'static str) -> (r: BetwixtParser)
    ensures
        r.start@ == start.spec_bytes(),
        r.end@ == end.spec_bytes(),
{
    BetwixtParser { start: start.as_bytes(), end: end.as_bytes() }
}

impl LineParser for BetwixtParser {
    open spec fn outcome(&self, w: Seq<u8>) -> OutcomeModel {
        annotation_outcome(self.start@, self.end@, w)
    }

    fn parse<'a>(&self, i: &'a [u8]) -> (r: LineParseResult<'a>) {
        if !bytes_at(i, 0, self.start) {
            return LineParseResult::NoMatch;
        }
        let p = self.start.len();
        let qualified = p < i.len() && i[p] == 0x2b;
        let q = if qualified {
            skip_class(i, p + 1, ByteClass::Alnum)
        } else {
            p
        };
        let lang = if qualified {
            Some(vstd::slice::slice_subrange(i, p + 1, q))
        } else {
            None
        };
        match find_bytes(i, q, self.end) {
            None => LineParseResult::PartialMatch,
            Some(r) => {
                proof {
                    lemma_find_from_bounds(i@, q as int, self.end@);
                }
                let body = vstd::slice::slice_subrange(i, q, r);
                match properties(body) {
                    None => LineParseResult::InvalidMatch,
                    Some(props) => LineParseResult::Matched(ScanResult::Properties((lang, props))),
                }
            },
        }
    }
}

/// Why a value could not be read.
#[derive(Debug, PartialEq)]
pub enum BetwixtParseError<'a> {
    /// The bytes are not of the expected form.
    NoMatch,
    /// An annotation's opening and closing delimiters were found, but its
    /// body is not a valid set of property assignments. Lines are counted
    /// from one; `line_text` holds the lines that the annotation spans.
    InvalidProperties { line_start: usize, line_end: usize, line_text: &'a [u8] },
}

impl<'a> BetwixtParseError<'a> {
    /// A short description of the error.
    pub fn message(&self) -> (r: &'static str)
        ensures
            self is NoMatch ==> r@ == "no property match"@,
            self is InvalidProperties ==> r@ == "invalid properties for btxt block found"@,
    {
        match self {
            BetwixtParseError::NoMatch => "no property match",
            BetwixtParseError::InvalidProperties { .. } => "invalid properties for btxt block found",
        }
    }
}

/// Appends the bytes of `src` to `dst`.
fn append_bytes(dst: &mut Vec<u8>, src: &[u8])
    ensures
        final(dst)@ == old(dst)@ + src@,
{
    let mut i: usize = 0;
    while i < src.len()
        invariant
            i <= src@.len(),
            dst@ == old(dst)@ + src@.subrange(0, i as int),
        decreases src@.len() - i,
    {
        dst.push(src[i]);
        i = i + 1;
        assert(dst@ =~= old(dst)@ + src@.subrange(0, i as int));
    }
    assert(src@.subrange(0, src@.len() as int) =~= src@);
}

/// The bytes of a fixed word.
fn word_bytes(w: Word) -> (r: Vec<u8>)
    ensures
        r@ == w.bytes(),
{
    let r = match w {
        Word::Overwrite => vec![0x6f, 0x76, 0x65, 0x72, 0x77, 0x72, 0x69, 0x74, 0x65],
        Word::Append => vec![0x61, 0x70, 0x70, 0x65, 0x6e, 0x64],
        Word::Prepend => vec![0x70, 0x72, 0x65, 0x70, 0x65, 0x6e, 0x64],
        Word::Insert => vec![0x69, 0x6e, 0x73, 0x65, 0x72, 0x74],
        Word::Filename => vec![0x66, 0x69, 0x6c, 0x65, 0x6e, 0x61, 0x6d, 0x65],
        Word::Tag => vec![0x74, 0x61, 0x67],
        Word::Mode => vec![0x6d, 0x6f, 0x64, 0x65],
        Word::Code => vec![0x63, 0x6f, 0x64, 0x65],
        Word::Pre => vec![0x70, 0x72, 0x65],
        Word::Post => vec![0x70, 0x6f, 0x73, 0x74],
        Word::Ignore => vec![0x69, 0x67, 0x6e, 0x6f, 0x72, 0x65],
        Word::True => vec![0x74, 0x72, 0x75, 0x65],
        Word::False => vec![0x66, 0x61, 0x6c, 0x73, 0x65],
        Word::TripleBar => vec![0x7c, 0x7c, 0x7c],
    };
    assert(r@ =~= w.bytes());
    r
}

/// Round trip: every mode with a written form reads back from it.
pub proof fn law_mode_round_trip(m: ModeModel)
    requires
        valid_mode(m),
    ensures
        mode_of(mode_bytes(m)) == Some(m),
{
    let b = mode_bytes(m);
    if let ModeModel::Insert(x) = m {
        assert(b[0] == 0x69u8);
        assert(b != Word::Overwrite.bytes()) by {
            assert(Word::Overwrite.bytes()[0] == 0x6fu8);
        }
        assert(b != Word::Append.bytes()) by {
            assert(Word::Append.bytes()[0] == 0x61u8);
        }
        assert(b != Word::Prepend.bytes()) by {
            assert(Word::Prepend.bytes()[0] == 0x70u8);
        }
        assert(b.subrange(0, 6) =~= Word::Insert.bytes());
        assert(b.subrange(7, b.len() - 1) =~= x);
    }
}

/// The written form is the only one: a value that reads as a mode is that
/// mode's written form.
pub proof fn law_mode_written_form(b: Seq<u8>)
    ensures
        mode_of(b) matches Some(m) ==> valid_mode(m) && mode_bytes(m) == b,
{
    if let Some(ModeModel::Insert(x)) = mode_of(b) {
        assert(b.subrange(0, 6) == Word::Insert.bytes());
        assert(mode_bytes(ModeModel::Insert(x)) =~= b) by {
            assert(Word::Insert.bytes() =~= b.subrange(0, 6));
        }
    }
}

impl<'a> TangleMode<'a> {
    /// The written form of the mode.
    pub fn to_bytes(&self) -> (r: Vec<u8>)
        ensures
            r@ == mode_bytes(self@),
    {
        match self {
            TangleMode::Overwrite => word_bytes(Word::Overwrite),
            TangleMode::Append => word_bytes(Word::Append),
            TangleMode::Prepend => word_bytes(Word::Prepend),
            TangleMode::Insert(marker) => {
                let mut r = word_bytes(Word::Insert);
                r.push(0x5b);
                append_bytes(&mut r, marker);
                r.push(0x5d);
                proof {
                    assert(r@ =~= mode_bytes(self@));
                }
                r
            },
        }
    }

    /// Reads a tangle mode from the whole of `b`. The remaining input that is
    /// returned with the mode is always empty.
    pub fn from_bytes(b: &'a [u8]) -> (r: Result<(&'a [u8], TangleMode<'a>), BetwixtParseError<'a>>)
        ensures
            mode_of(b@) is None <==> r is Err,
            r matches Ok((rest, m)) ==> rest@.len() == 0 && Some(m@) == mode_of(b@),
            r matches Err(e) ==> e is NoMatch,
    {
        let rest = vstd::slice::slice_subrange(b, b.len(), b.len());
        if Word::Overwrite.is_whole(b) {
            return Ok((rest, TangleMode::Overwrite));
        }
        if Word::Append.is_whole(b) {
            return Ok((rest, TangleMode::Append));
        }
        if Word::Prepend.is_whole(b) {
            return Ok((rest, TangleMode::Prepend));
        }
        if b.len() < 8 || !Word::Insert.occurs_at(b, 0) || b[6] != 0x5b {
            return Err(BetwixtParseError::NoMatch);
        }
        let close: [u8; 1] = [0x5d];
        let found = find_bytes(b, 7, close.as_slice());
        proof {
            lemma_find_from_bounds(b@, 7, close@);
        }
        match found {
            Some(j) => {
                if j == 7 || j != b.len() - 1 {
                    proof {
                        if j == 7 {
                            assert(b@.subrange(7, b@.len() - 1).len() == 0 || b@.subrange(
                                7,
                                b@.len() - 1,
                            )[0] == 0x5du8) by {
                                assert(b@.subrange(7, 8)[0] == 0x5du8);
                            }
                        } else {
                            assert(b@.subrange(7, b@.len() - 1)[j - 7] == 0x5du8) by {
                                assert(b@.subrange(j as int, j + 1)[0] == 0x5du8);
                            }
                        }
                    }
                    return Err(BetwixtParseError::NoMatch);
                }
                let marker = vstd::slice::slice_subrange(b, 7, j);
                proof {
                    assert(b@.subrange(j as int, j + 1)[0] == 0x5du8);
                    assert forall|k: int| 0 <= k < marker@.len() implies marker@[k] != 0x5du8 by {
                        assert(!starts_at(b@, 7 + k, close@));
                        assert(b@.subrange(7 + k, 8 + k)[0] == b@[7 + k]);
                        if b@[7 + k] == 0x5du8 {
                            assert(b@.subrange(7 + k, 8 + k) =~= close@);
                        }
                    }
                }
                Ok((rest, TangleMode::Insert(marker)))
            },
            None => {
                proof {
                    assert(!starts_at(b@, b@.len() - 1, close@));
                    assert(b@.subrange(b@.len() - 1, b@.len() as int)[0] == b@[b@.len() - 1]);
                    if b@[b@.len() - 1] == 0x5du8 {
                        assert(b@.subrange(b@.len() - 1, b@.len() as int) =~= close@);
                    }
                }
                Err(BetwixtParseError::NoMatch)
            },
        }
    }
}

} // verus!
