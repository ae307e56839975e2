//! Headings, sections and the scoped property environment of a section.
use vstd::prelude::*;

use crate::bytes::{bytes_at, find_bytes, find_from, run_end, skip_class, ByteClass};
use crate::properties::{merged, opt_bytes, Properties, PropsModel};
use crate::{EventModel, LineParseResult, LineParser, OutcomeModel, ScanResult, MAX_LEVEL};

verus! {

/// A heading: its text and level. The implicit root has no heading and
/// level zero.
#[derive(Clone, Copy, Debug, PartialEq)]
pub struct SectionPart<'a> {
    pub heading: Option<&'a [u8]>,
    pub level: usize,
}

/// The mathematical value of a [`SectionPart`].
pub struct SectionPartModel {
    pub heading: Option<Seq<u8>>,
    pub level: nat,
}

impl<'a> View for SectionPart<'a> {
    type V = SectionPartModel;

    open spec fn view(&self) -> SectionPartModel {
        SectionPartModel { heading: opt_bytes(self.heading), level: self.level as nat }
    }
}

/// What the heading recogniser makes of window `w`: a run of marker bytes
/// (its length is the level, at most the deepest level), at least one blank,
/// and non-empty text up to the newline.
pub open spec fn heading_outcome(mark: u8, w: Seq<u8>) -> OutcomeModel {
    let a = run_end(w, 0, ByteClass::Exactly(mark).pred());
    let b = run_end(w, a, ByteClass::Blank.pred());
    if a == 0 || b == a || a > MAX_LEVEL {
        OutcomeModel::NoMatch
    } else {
        match find_from(w, b, seq![0x0au8]) {
            None => OutcomeModel::NoMatch,
            Some(n) => if n == b {
                OutcomeModel::NoMatch
            } else {
                OutcomeModel::Matched(
                    EventModel::Heading(
                        SectionPartModel { heading: Some(w.subrange(b, n)), level: a as nat },
                    ),
                )
            },
        }
    }
}

/// The heading recogniser, with its marker byte.
pub struct SectionParser {
    pub mark: u8,
}

/// A heading recogniser with the given marker character, compared with the
/// input as its low byte.
pub fn section(mark: char) -> (r: SectionParser)
    ensures
        r.mark == (mark as u32) as u8,
{
    SectionParser { mark: (mark as u32) as u8 }
}

impl LineParser for SectionParser {
    open spec fn outcome(&self, w: Seq<u8>) -> OutcomeModel {
        heading_outcome(self.mark, w)
    }

    fn parse<'a>(&self, i: &'a [u8]) -> (r: LineParseResult<'a>) {
        let a = skip_class(i, 0, ByteClass::Exactly(self.mark));
        let b = skip_class(i, a, ByteClass::Blank);
        if a == 0 || b == a || a > MAX_LEVEL {
            return LineParseResult::NoMatch;
        }
        let newline: [u8; 1] = [0x0a];
        proof {
            assert(newline@ =~= seq![0x0au8]);
        }
        match find_bytes(i, b, newline.as_slice()) {
            None => LineParseResult::NoMatch,
            Some(n) => if n == b {
                LineParseResult::NoMatch
            } else {
                proof {
                    crate::bytes::lemma_find_from_bounds(i@, b as int, newline@);
                }
                let heading = vstd::slice::slice_subrange(i, b, n);
                LineParseResult::Matched(
                    ScanResult::Section(SectionPart { heading: Some(heading), level: a }),
                )
            },
        }
    }
}

/// The properties in force in one section: those set without a language,
/// and those set for each language tag. No tag occurs twice.
#[derive(Clone, Debug, PartialEq)]
pub struct PropertiesCollection<'a> {
    pub global: Properties<'a>,
    pub languages: Vec<(&'a [u8], Properties<'a>)>,
}

/// The mathematical value of a [`PropertiesCollection`].
pub struct EnvModel {
    pub global: PropsModel,
    pub languages: Map<Seq<u8>, PropsModel>,
}

/// The language-scoped properties of a list of entries.
pub open spec fn lang_map(s: Seq<(&[u8], Properties)>) -> Map<Seq<u8>, PropsModel>
    decreases s.len(),
{
    if s.len() == 0 {
        Map::empty()
    } else {
        lang_map(s.drop_last()).insert(s.last().0@, s.last().1@)
    }
}

/// No language tag occurs twice.
pub open spec fn keys_unique(s: Seq<(&[u8], Properties)>) -> bool {
    forall|i: int, j: int| 0 <= i < j < s.len() ==> s[i].0@ != s[j].0@
}

impl<'a> View for PropertiesCollection<'a> {
    type V = EnvModel;

    open spec fn view(&self) -> EnvModel {
        EnvModel { global: self.global@, languages: lang_map(self.languages@) }
    }
}

/// The properties resolved for a code block with language tag `lang`: the
/// language-scoped set merged over the global one, or the global one alone.
pub open spec fn resolved(env: EnvModel, lang: Option<Seq<u8>>) -> PropsModel {
    match lang {
        None => env.global,
        Some(l) => if env.languages.contains_key(l) {
            merged(env.languages[l], env.global)
        } else {
            env.global
        },
    }
}

/// The environment after an annotation sets `p`, for language `lang` or
/// globally. Incoming values win; absent ones keep what was there.
pub open spec fn updated(env: EnvModel, lang: Option<Seq<u8>>, p: PropsModel) -> EnvModel {
    match lang {
        None => EnvModel { global: merged(p, env.global), languages: env.languages },
        Some(l) => EnvModel {
            global: env.global,
            languages: env.languages.insert(
                l,
                if env.languages.contains_key(l) {
                    merged(p, env.languages[l])
                } else {
                    p
                },
            ),
        },
    }
}

pub proof fn lemma_lang_map_has(s: Seq<(&[u8], Properties)>, i: int)
    requires
        keys_unique(s),
        0 <= i < s.len(),
    ensures
        lang_map(s).contains_key(s[i].0@),
        lang_map(s)[s[i].0@] == s[i].1@,
    decreases s.len(),
{
    if i < s.len() - 1 {
        lemma_lang_map_has(s.drop_last(), i);
    }
}

pub proof fn lemma_lang_map_lacks(s: Seq<(&[u8], Properties)>, k: Seq<u8>)
    requires
        forall|i: int| 0 <= i < s.len() ==> s[i].0@ != k,
    ensures
        !lang_map(s).contains_key(k),
    decreases s.len(),
{
    if s.len() > 0 {
        lemma_lang_map_lacks(s.drop_last(), k);
    }
}

pub proof fn lemma_lang_map_set(s: Seq<(&[u8], Properties)>, i: int, v: (&[u8], Properties))
    requires
        keys_unique(s),
        0 <= i < s.len(),
        v.0@ == s[i].0@,
    ensures
        lang_map(s.update(i, v)) == lang_map(s).insert(v.0@, v.1@),
    decreases s.len(),
{
    let t = s.update(i, v);
    if i == s.len() - 1 {
        assert(t.drop_last() =~= s.drop_last());
        assert(lang_map(t) =~= lang_map(s).insert(v.0@, v.1@));
    } else {
        assert(t.drop_last() =~= s.drop_last().update(i, v));
        lemma_lang_map_set(s.drop_last(), i, v);
        assert(s.last().0@ != v.0@);
        assert(lang_map(t) =~= lang_map(s).insert(v.0@, v.1@));
    }
}

/// Whether two byte slices hold the same bytes.
pub fn same_bytes(a: &[u8], b: &[u8]) -> (r: bool)
    ensures
        r == (a@ == b@),
{
    if a.len() != b.len() {
        return false;
    }
    let r = bytes_at(a, 0, b);
    proof {
        assert(a@.subrange(0, a@.len() as int) =~= a@);
    }
    r
}

impl<'a> PropertiesCollection<'a> {
    pub open spec fn wf(&self) -> bool {
        keys_unique(self.languages@)
    }

    /// An environment with nothing set.
    pub fn empty() -> (r: Self)
        ensures
            r.wf(),
            r@.global == crate::properties::empty_props(),
            r@.languages == Map::<Seq<u8>, PropsModel>::empty(),
    {
        PropertiesCollection { global: Properties::default(), languages: Vec::new() }
    }

    /// An independent copy.
    pub fn copy(&self) -> (r: Self)
        requires
            self.wf(),
        ensures
            r.wf(),
            r@ == self@,
    {
        let mut languages: Vec<(&'a [u8], Properties<'a>)> = Vec::new();
        let mut i: usize = 0;
        while i < self.languages.len()
            invariant
                i <= self.languages@.len(),
                languages@ == self.languages@.subrange(0, i as int),
            decreases self.languages@.len() - i,
        {
            languages.push(self.languages[i]);
            i = i + 1;
            assert(languages@ =~= self.languages@.subrange(0, i as int));
        }
        assert(languages@ =~= self.languages@);
        PropertiesCollection { global: self.global, languages }
    }

    /// The index of the entry for language `lang`.
    fn find_language(&self, lang: &[u8]) -> (r: Option<usize>)
        requires
            self.wf(),
        ensures
            r matches Some(i) ==> i < self.languages@.len() && self.languages@[i as int].0@ == lang@,
            r is None ==> forall|i: int|
                0 <= i < self.languages@.len() ==> self.languages@[i].0@ != lang@,
    {
        let mut i: usize = 0;
        while i < self.languages.len()
            invariant
                i <= self.languages@.len(),
                forall|j: int| 0 <= j < i ==> self.languages@[j].0@ != lang@,
            decreases self.languages@.len() - i,
        {
            if same_bytes(self.languages[i].0, lang) {
                return Some(i);
            }
            i = i + 1;
        }
        None
    }

    /// The properties in force for a code block with language tag `lang`.
    pub fn get_code_props(&self, lang: Option<&'a [u8]>) -> (r: Properties<'a>)
        requires
            self.wf(),
        ensures
            r@ == resolved(self@, opt_bytes(lang)),
    {
        match lang {
            None => self.global,
            Some(l) => match self.find_language(l) {
                None => {
                    proof {
                        lemma_lang_map_lacks(self.languages@, l@);
                    }
                    self.global
                },
                Some(i) => {
                    proof {
                        lemma_lang_map_has(self.languages@, i as int);
                    }
                    let mut lang_props = self.languages[i].1;
                    lang_props.merge(&self.global);
                    lang_props
                },
            },
        }
    }

    /// Applies an annotation's properties, for language `lang` or globally.
    pub fn update(&mut self, lang: Option<&'a [u8]>, props: Properties<'a>)
        requires
            old(self).wf(),
        ensures
            final(self).wf(),
            final(self)@ == updated(old(self)@, opt_bytes(lang), props@),
    {
        let mut props = props;
        match lang {
            Some(l) => match self.find_language(l) {
                Some(i) => {
                    proof {
                        lemma_lang_map_has(self.languages@, i as int);
                    }
                    let existing = self.languages[i].1;
                    props.merge(&existing);
                    let ghost before = self.languages@;
                    self.languages.set(i, (l, props));
                    proof {
                        lemma_lang_map_set(before, i as int, (l, props));
                        assert(self.languages@ == before.update(i as int, (l, props)));
                    }
                },
                None => {
                    proof {
                        lemma_lang_map_lacks(self.languages@, l@);
                    }
                    let ghost before = self.languages@;
                    self.languages.push((l, props));
                    proof {
                        assert(self.languages@.drop_last() =~= before);
                    }
                },
            },
            None => {
                props.merge(&self.global);
                self.global = props;
            },
        }
    }
}

/// A node of the section tree: its heading, the properties in force in it,
/// the indexes of the code blocks emitted in it, and its subsections.
#[derive(Debug, PartialEq)]
pub struct Section<'a> {
    pub part: SectionPart<'a>,
    pub properties: PropertiesCollection<'a>,
    pub code_block_indexes: Vec<usize>,
    pub children: Vec<Section<'a>>,
}

/// The mathematical value of a [`Section`].
pub struct SectionModel {
    pub part: SectionPartModel,
    pub env: EnvModel,
    pub indexes: Seq<usize>,
    pub children: Seq<SectionModel>,
}

/// The mathematical value of a section and, recursively, of its subsections.
pub open spec fn section_model(s: Section) -> SectionModel
    decreases s,
{
    SectionModel {
        part: s.part@,
        env: s.properties@,
        indexes: s.code_block_indexes@,
        children: Seq::new(
            s.children@.len(),
            |i: int|
                if 0 <= i < s.children@.len() {
                    section_model(s.children@[i])
                } else {
                    SectionModel {
                        part: s.part@,
                        env: s.properties@,
                        indexes: Seq::empty(),
                        children: Seq::empty(),
                    }
                },
        ),
    }
}

impl<'a> View for Section<'a> {
    type V = SectionModel;

    open spec fn view(&self) -> SectionModel {
        section_model(*self)
    }
}

/// A section with no code blocks and no subsections yet.
pub open spec fn fresh_section(part: SectionPartModel, env: EnvModel) -> SectionModel {
    SectionModel { part, env, indexes: Seq::empty(), children: Seq::empty() }
}

/// `parent` with `child` appended to its subsections.
pub open spec fn with_child(parent: SectionModel, child: SectionModel) -> SectionModel {
    SectionModel { children: parent.children.push(child), ..parent }
}

impl<'a> Section<'a> {
    /// Every environment in the tree has unique language tags.
    pub open spec fn wf(&self) -> bool {
        self.properties.wf()
    }

    pub fn new(part: SectionPart<'a>, properties: PropertiesCollection<'a>) -> (r: Self)
        requires
            properties.wf(),
        ensures
            r.wf(),
            r@ == fresh_section(part@, properties@),
    {
        let r = Section { part, properties, children: Vec::new(), code_block_indexes: Vec::new() };
        assert(r@.children =~= Seq::<SectionModel>::empty());
        r
    }

    /// Appends a finished subsection.
    pub fn add_child(&mut self, child: Section<'a>)
        ensures
            final(self).wf() == old(self).wf(),
            final(self)@ == with_child(old(self)@, child@),
    {
        let ghost child_model = child@;
        self.children.push(child);
        assert(self@.children =~= old(self)@.children.push(child_model)) by {
            assert forall|i: int| 0 <= i < self@.children.len() implies self@.children[i]
                == old(self)@.children.push(child_model)[i] by {
                if i < old(self).children@.len() {
                    assert(self.children@[i] == old(self).children@[i]);
                }
            }
        }
    }

    /// Applies an annotation's properties to this section's environment.
    pub fn update_properties(&mut self, lang: Option<&'a [u8]>, props: Properties<'a>)
        requires
            old(self).wf(),
        ensures
            final(self).wf(),
            final(self)@ == (SectionModel {
                env: updated(old(self)@.env, opt_bytes(lang), props@),
                ..old(self)@
            }),
    {
        self.properties.update(lang, props);
        assert(self@.children =~= old(self)@.children);
    }

    /// Records the index of a code block emitted in this section.
    pub fn add_index(&mut self, idx: usize)
        ensures
            final(self).wf() == old(self).wf(),
            final(self)@ == (SectionModel { indexes: old(self)@.indexes.push(idx), ..old(self)@ }),
    {
        self.code_block_indexes.push(idx);
        assert(self@.children =~= old(self)@.children);
    }
}

} // verus!
