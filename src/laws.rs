//! Properties that hold of every parse, stated over the specification of
//! the scanner and the tree builder.
use vstd::prelude::*;

use crate::code::CodeModel;
use crate::properties::PropsModel;
use crate::scanner::{lemma_scan_from_advances, scan_from, StepModel};
use crate::section::{resolved, updated, EnvModel, SectionModel};
use crate::{
    build_from, build_step, document_of, is_ignored, BuildModel, EventModel, LineParser,
    MarkdownParsers,
};

verus! {

/// No emitted block has resolved properties that say to ignore it.
pub open spec fn none_ignored(blocks: Seq<CodeModel>) -> bool {
    forall|i: int| 0 <= i < blocks.len() ==> !is_ignored(#[trigger] blocks[i].effective)
}

proof fn lemma_step_none_ignored(b: BuildModel, ev: EventModel)
    requires
        none_ignored(b.blocks),
    ensures
        none_ignored(build_step(b, ev).blocks),
{
    let r = build_step(b, ev);
    assert forall|i: int| 0 <= i < r.blocks.len() implies !is_ignored(
        #[trigger] r.blocks[i].effective,
    ) by {
        if i < b.blocks.len() {
            assert(r.blocks[i] == b.blocks[i]);
        }
    }
}

proof fn lemma_build_none_ignored(p: MarkdownParsers, data: Seq<u8>, pos: int, b: BuildModel)
    requires
        none_ignored(b.blocks),
    ensures
        build_from(p, data, pos, b) matches Ok(r) ==> none_ignored(r.blocks),
    decreases data.len() - pos,
{
    if 0 <= pos <= data.len() {
        lemma_scan_from_advances(p, data, pos, pos, p.strict);
        if let StepModel::Event(ev, n) = scan_from(p, data, pos, pos, p.strict) {
            if !(ev is End) {
                lemma_step_none_ignored(b, ev);
                lemma_build_none_ignored(p, data, n, build_step(b, ev));
            }
        }
    }
}

/// Ignore consistency: no code block of a parsed document has resolved
/// properties with `ignore` set to true.
pub proof fn law_ignored_blocks_are_dropped(p: MarkdownParsers, data: Seq<u8>)
    ensures
        document_of(p, data) matches Ok(d) ==> forall|i: int|
            0 <= i < d.blocks.len() ==> d.blocks[i].effective.ignore != Some(true),
{
    let init = BuildModel { stack: seq![crate::root_model()], blocks: Seq::empty() };
    lemma_build_none_ignored(p, data, 0, init);
    if let Ok(d) = document_of(p, data) {
        assert forall|i: int| 0 <= i < d.blocks.len() implies d.blocks[i].effective.ignore != Some(
            true,
        ) by {
            assert(!is_ignored(d.blocks[i].effective));
        }
    }
}

/// Idempotence: applying the same annotation twice leaves the same
/// environment as applying it once.
pub proof fn law_update_idempotent(env: EnvModel, lang: Option<Seq<u8>>, p: PropsModel)
    ensures
        updated(updated(env, lang, p), lang, p) == updated(env, lang, p),
{
    match lang {
        None => {},
        Some(l) => {
            let once = updated(env, lang, p);
            assert(once.languages.contains_key(l));
            assert(updated(once, lang, p).languages =~= once.languages);
        },
    }
}

/// Idempotence at the level of the document: an annotation without an
/// inline code body, seen twice in a row, leaves the builder as seeing it
/// once.
pub proof fn law_annotation_idempotent(b: BuildModel, lang: Option<Seq<u8>>, p: PropsModel)
    requires
        b.stack.len() >= 1,
        p.code is None,
    ensures
        build_step(build_step(b, EventModel::Props(lang, p)), EventModel::Props(lang, p)) == build_step(
            b,
            EventModel::Props(lang, p),
        ),
{
    let once = build_step(b, EventModel::Props(lang, p));
    law_update_idempotent(b.stack.last().env, lang, p);
    assert(once.stack.last() == SectionModel { env: updated(b.stack.last().env, lang, p), ..b.stack.last() });
    assert(build_step(once, EventModel::Props(lang, p)).stack =~= once.stack);
}

/// Idempotent defaults: an annotation that sets fields to the values they
/// already have in force leaves the environment unchanged.
pub proof fn law_setting_current_values(env: EnvModel, lang: Option<Seq<u8>>, p: PropsModel)
    requires
        p.code is None,
        lang is None ==> env.global.code is None,
        lang matches Some(l) ==> env.languages.contains_key(l) && env.languages[l].code is None,
        ({
            let current = match lang {
                None => env.global,
                Some(l) => env.languages[l],
            };
            &&& p.filename is Some ==> p.filename == current.filename
            &&& p.tag is Some ==> p.tag == current.tag
            &&& p.mode is Some ==> p.mode == current.mode
            &&& p.ignore is Some ==> p.ignore == current.ignore
            &&& p.prefix is Some ==> p.prefix == current.prefix
            &&& p.postfix is Some ==> p.postfix == current.postfix
        }),
    ensures
        updated(env, lang, p) == env,
{
    match lang {
        None => {},
        Some(l) => {
            assert(updated(env, lang, p).languages =~= env.languages);
        },
    }
}

/// Property shadowing: an annotation changes only the innermost open
/// section, so every enclosing section keeps its environment; and a block
/// resolved in the innermost section afterwards, with the annotation's own
/// language qualifier (or none, for an unqualified one), sees the file name
/// that the annotation set.
pub proof fn law_property_shadowing(
    b: BuildModel,
    lang: Option<Seq<u8>>,
    p: PropsModel,
    x: Seq<u8>,
)
    requires
        b.stack.len() >= 1,
        p.code is None,
        p.filename == Some(x),
    ensures
        build_step(b, EventModel::Props(lang, p)).stack.drop_last() == b.stack.drop_last(),
        resolved(build_step(b, EventModel::Props(lang, p)).stack.last().env, lang).filename == Some(
            x,
        ),
{
    let r = build_step(b, EventModel::Props(lang, p));
    assert(r.stack.drop_last() =~= b.stack.drop_last());
}

pub open spec fn from_window<P: crate::LineParser>(p: P, data: Seq<u8>, lo: int, ev: EventModel, n: int) -> bool {
    exists|s: int| lo <= s < n <= data.len() && #[trigger] p.outcome(data.subrange(s, n)) == crate::OutcomeModel::Matched(ev)
}

proof fn lemma_event_window<P: crate::LineParser>(
    p: P,
    data: Seq<u8>,
    start: int,
    end: int,
    strict: bool,
)
    requires
        0 <= start <= end <= data.len(),
    ensures
        scan_from(p, data, start, end, strict) matches StepModel::Event(ev, n) ==> ev is End
            || from_window(p, data, start, ev, n),
    decreases data.len() - end,
{
    if 0 <= end < data.len() {
        let e2 = crate::scanner::next_line_end(data, end);
        crate::scanner::lemma_next_line_end(data, end);
        let r = scan_from(p, data, start, end, strict);
        match p.outcome(data.subrange(start, e2)) {
            crate::OutcomeModel::Matched(ev) => {
                assert(r == StepModel::Event(ev, e2));
                assert(start <= start < e2 <= data.len() && p.outcome(data.subrange(start, e2))
                    == crate::OutcomeModel::Matched(ev));
            },
            crate::OutcomeModel::Partial => {
                lemma_event_window(p, data, start, e2, strict);
                assert(r == scan_from(p, data, start, e2, strict));
            },
            crate::OutcomeModel::NoMatch => {
                lemma_event_window(p, data, e2, e2, strict);
                assert(r == scan_from(p, data, e2, e2, strict));
                if let StepModel::Event(ev, n) = r {
                    if !(ev is End) {
                        let s = choose|s: int| e2 <= s < n <= data.len() && #[trigger] p.outcome(data.subrange(s, n)) == crate::OutcomeModel::Matched(ev);
                        assert(start <= s);
                    }
                }
            },
            crate::OutcomeModel::Invalid => if !strict {
                lemma_event_window(p, data, e2, e2, strict);
                assert(r == scan_from(p, data, e2, e2, strict));
                if let StepModel::Event(ev, n) = r {
                    if !(ev is End) {
                        let s = choose|s: int| e2 <= s < n <= data.len() && #[trigger] p.outcome(data.subrange(s, n)) == crate::OutcomeModel::Matched(ev);
                        assert(start <= s);
                    }
                }
            },
        }
    }
}

/// Every subsection has a greater level than its parent, all the way down.
pub open spec fn levels_increase(s: SectionModel) -> bool
    decreases s,
{
    forall|i: int|
        0 <= i < s.children.len() ==> (#[trigger] s.children[i]).part.level > s.part.level
            && levels_increase(s.children[i])
}

/// The open sections have strictly increasing levels, and each is well
/// levelled.
pub open spec fn stack_levelled(st: Seq<SectionModel>) -> bool {
    &&& st.len() >= 1
    &&& forall|i: int, j: int| 0 <= i < j < st.len() ==> st[i].part.level < st[j].part.level
    &&& forall|i: int| 0 <= i < st.len() ==> levels_increase(#[trigger] st[i])
}

proof fn lemma_close_levelled(st: Seq<SectionModel>, level: nat)
    requires
        stack_levelled(st),
    ensures
        stack_levelled(crate::close_to(st, level)),
        crate::close_to(st, level).len() == 1 || crate::close_to(st, level).last().part.level
            < level,
        crate::close_to(st, level)[0].part.level == st[0].part.level,
    decreases st.len(),
{
    if st.len() <= 1 || st.last().part.level < level {
    } else {
        let rest = st.drop_last();
        let parent = rest.last();
        let joined = crate::section::with_child(parent, st.last());
        let next = rest.update(rest.len() - 1, joined);
        assert(parent == st[st.len() - 2]);
        assert(levels_increase(st[st.len() - 2]));
        assert(levels_increase(st[st.len() - 1]));
        assert(st[st.len() - 2].part.level < st[st.len() - 1].part.level);
        assert(levels_increase(joined)) by {
            assert forall|i: int| 0 <= i < joined.children.len() implies (#[trigger] joined.children[i]).part.level
                > joined.part.level && levels_increase(joined.children[i]) by {
                if i < parent.children.len() {
                    assert(joined.children[i] == parent.children[i]);
                    assert(levels_increase(parent));
                } else {
                    assert(joined.children[i] == st.last());
                    assert(levels_increase(st[st.len() - 1]));
                }
            }
        }
        assert forall|i: int| 0 <= i < next.len() implies levels_increase(#[trigger] next[i]) by {
            if i < next.len() - 1 {
                assert(next[i] == st[i]);
            }
        }
        lemma_close_levelled(next, level);
    }
}

proof fn lemma_step_levelled(b: BuildModel, ev: EventModel)
    requires
        stack_levelled(b.stack),
        b.stack[0].part.level == 0,
        ev matches EventModel::Heading(part) ==> part.level >= 1,
    ensures
        stack_levelled(build_step(b, ev).stack),
        build_step(b, ev).stack[0].part.level == 0,
{
    let r = build_step(b, ev);
    match ev {
        EventModel::Heading(part) => {
            lemma_close_levelled(b.stack, part.level);
            let st = crate::close_to(b.stack, part.level);
            assert(levels_increase(crate::section::fresh_section(part, st.last().env)));
            assert forall|i: int| 0 <= i < r.stack.len() implies levels_increase(#[trigger] r.stack[i]) by {
                if i < st.len() {
                    assert(r.stack[i] == st[i]);
                }
            }
        },
        EventModel::End => {},
        _ => {
            let top = b.stack.last();
            assert(r.stack.len() == b.stack.len());
            assert forall|i: int| 0 <= i < r.stack.len() implies r.stack[i].part == b.stack[i].part
                && r.stack[i].children == b.stack[i].children by {}
            assert forall|i: int| 0 <= i < r.stack.len() implies levels_increase(#[trigger] r.stack[i]) by {
                assert(levels_increase(b.stack[i]));
                assert forall|k: int| 0 <= k < r.stack[i].children.len() implies (#[trigger] r.stack[i].children[k]).part.level
                    > r.stack[i].part.level && levels_increase(r.stack[i].children[k]) by {
                    assert(r.stack[i].children[k] == b.stack[i].children[k]);
                }
            }
        },
    }
}

proof fn lemma_heading_level(p: MarkdownParsers, w: Seq<u8>)
    ensures
        crate::combined_outcome(p, w) matches crate::OutcomeModel::Matched(
            EventModel::Heading(part),
        ) ==> part.level >= 1,
{
}

proof fn lemma_build_levelled(p: MarkdownParsers, data: Seq<u8>, pos: int, b: BuildModel)
    requires
        stack_levelled(b.stack),
        b.stack[0].part.level == 0,
    ensures
        build_from(p, data, pos, b) matches Ok(r) ==> stack_levelled(r.stack) && r.stack[0].part.level == 0,
    decreases data.len() - pos,
{
    if 0 <= pos <= data.len() {
        lemma_scan_from_advances(p, data, pos, pos, p.strict);
        lemma_event_window(p, data, pos, pos, p.strict);
        if let StepModel::Event(ev, n) = scan_from(p, data, pos, pos, p.strict) {
            if !(ev is End) {
                let s = choose|s: int|
                    pos <= s < n <= data.len() && #[trigger] p.outcome(data.subrange(s, n))
                        == crate::OutcomeModel::Matched(ev);
                assert(p.outcome(data.subrange(s, n)) == crate::OutcomeModel::Matched(ev));
                lemma_heading_level(p, data.subrange(s, n));
                lemma_step_levelled(b, ev);
                lemma_build_levelled(p, data, n, build_step(b, ev));
            }
        }
    }
}

/// Emitted blocks are final: every later event only appends to the list of
/// code blocks, so a later change of properties in any section never alters
/// a block already emitted.
pub proof fn law_emitted_blocks_are_final(b: BuildModel, ev: EventModel)
    ensures
        build_step(b, ev).blocks.len() >= b.blocks.len(),
        build_step(b, ev).blocks.subrange(0, b.blocks.len() as int) == b.blocks,
{
    assert(build_step(b, ev).blocks.subrange(0, b.blocks.len() as int) =~= b.blocks);
}

/// Level monotonicity: in the section tree of a parsed document, every
/// subsection has a strictly greater level than the section it is in, and
/// the root has level zero.
pub proof fn law_levels_increase(p: MarkdownParsers, data: Seq<u8>)
    ensures
        document_of(p, data) matches Ok(d) ==> levels_increase(d.root) && d.root.part.level == 0,
{
    let init = BuildModel { stack: seq![crate::root_model()], blocks: Seq::empty() };
    assert(levels_increase(crate::root_model()));
    lemma_build_levelled(p, data, 0, init);
    if let Ok(r) = build_from(p, data, 0, init) {
        lemma_close_levelled(r.stack, 0);
        crate::lemma_close_to_root(r.stack);
    }
}

/// `x` is a contiguous sub-range of `data`.
pub open spec fn is_slice_of(data: Seq<u8>, x: Seq<u8>) -> bool {
    exists|a: int, b: int| 0 <= a <= b <= data.len() && x == #[trigger] data.subrange(a, b)
}

proof fn lemma_slice_of_slice(data: Seq<u8>, lo: int, hi: int, x: Seq<u8>)
    requires
        0 <= lo <= hi <= data.len(),
        is_slice_of(data.subrange(lo, hi), x),
    ensures
        is_slice_of(data, x),
{
    let w = data.subrange(lo, hi);
    let (a, b) = choose|a: int, b: int| 0 <= a <= b <= w.len() && x == #[trigger] w.subrange(a, b);
    assert(x =~= data.subrange(lo + a, lo + b));
}

proof fn lemma_value_slice(b: Seq<u8>, v: int, k: crate::words::Word)
    requires
        0 <= v,
    ensures
        crate::properties::value_at(b, v, k) matches Some((crate::properties::Value::Bytes(x), _))
            ==> is_slice_of(b, x),
{
    if k != crate::words::Word::Ignore {
        if let Some(q) = crate::properties::quote_at(b, v) {
            crate::bytes::lemma_find_from_bounds(b, v + q.len(), q);
            if let Some(e) = crate::bytes::find_from(b, v + q.len(), q) {
                assert(0 <= v + q.len() <= e <= b.len());
                assert(b.subrange(v + q.len(), e) == b.subrange(v + q.len(), e));
            }
        }
    }
}

proof fn lemma_assignments_slice(
    b: Seq<u8>,
    p: int,
    acc: crate::properties::RawProps,
    steps: nat,
)
    requires
        acc.props.code matches Some(c) ==> is_slice_of(b, c),
    ensures
        crate::properties::assignments(b, p, acc, steps).0.props.code matches Some(c) ==> is_slice_of(
            b,
            c,
        ),
    decreases steps,
{
    if steps > 0 {
        if let Some((k, v, n)) = crate::properties::assignment_at(b, p) {
            if !crate::properties::is_set(acc, k) {
                let s = crate::bytes::run_end(b, p, crate::bytes::ByteClass::Space.pred());
                assert(crate::properties::key_eq_at(b, s, k));
                lemma_value_slice(b, s + k.bytes().len() + 1, k);
                lemma_assignments_slice(
                    b,
                    n,
                    crate::properties::with_value(acc, k, v),
                    (steps - 1) as nat,
                );
            }
        }
    }
}

proof fn lemma_outcome_slices(p: MarkdownParsers, w: Seq<u8>)
    ensures
        crate::combined_outcome(p, w) matches crate::OutcomeModel::Matched(EventModel::Code(cp))
            ==> is_slice_of(w, cp.contents),
        crate::combined_outcome(p, w) matches crate::OutcomeModel::Matched(
            EventModel::Props(_, props),
        ) ==> (props.code matches Some(c) ==> is_slice_of(w, c)),
{
    let open = p.code.start@;
    let close = p.code.end@;
    if crate::bytes::starts_at(w, 0, open) {
        let a = open.len() as int;
        let b = crate::bytes::run_end(w, a, crate::bytes::ByteClass::Alpha.pred());
        let c = crate::bytes::run_end(w, b, crate::bytes::ByteClass::Blank.pred());
        crate::bytes::lemma_run_end_bounds(w, a, crate::bytes::ByteClass::Alpha.pred());
        crate::bytes::lemma_run_end_bounds(w, b, crate::bytes::ByteClass::Blank.pred());
        crate::code::lemma_first_close_bounds(w, close, c + 1);
        if let Some(q) = crate::code::first_close(w, close, c + 1) {
            assert(w.subrange(c + 1, q) == w.subrange(c + 1, q));
        }
    }
    let start = p.betwixt.start@;
    let end = p.betwixt.end@;
    if crate::bytes::starts_at(w, 0, start) {
        let i = start.len() as int;
        let qualified = i < w.len() && w[i] == 0x2bu8;
        let q = if qualified {
            crate::bytes::run_end(w, i + 1, crate::bytes::ByteClass::Alnum.pred())
        } else {
            i
        };
        if qualified {
            crate::bytes::lemma_run_end_bounds(w, i + 1, crate::bytes::ByteClass::Alnum.pred());
        }
        crate::bytes::lemma_find_from_bounds(w, q, end);
        if let Some(r) = crate::bytes::find_from(w, q, end) {
            let body = w.subrange(q, r);
            lemma_assignments_slice(
                body,
                0,
                crate::properties::RawProps { props: crate::properties::empty_props(), mode: None },
                7,
            );
            if let Some(props) = crate::properties::props_of(body) {
                if let Some(c) = props.code {
                    lemma_slice_of_slice(w, q, r, c);
                }
            }
        }
    }
}

/// Every emitted block's contents is a sub-range of the input.
pub open spec fn blocks_alias(data: Seq<u8>, blocks: Seq<CodeModel>) -> bool {
    forall|i: int| 0 <= i < blocks.len() ==> is_slice_of(data, (#[trigger] blocks[i]).part.contents)
}

proof fn lemma_build_alias(p: MarkdownParsers, data: Seq<u8>, pos: int, b: BuildModel)
    requires
        blocks_alias(data, b.blocks),
        b.stack.len() >= 1,
    ensures
        build_from(p, data, pos, b) matches Ok(r) ==> blocks_alias(data, r.blocks),
    decreases data.len() - pos,
{
    if 0 <= pos <= data.len() {
        lemma_scan_from_advances(p, data, pos, pos, p.strict);
        lemma_event_window(p, data, pos, pos, p.strict);
        if let StepModel::Event(ev, n) = scan_from(p, data, pos, pos, p.strict) {
            if !(ev is End) {
                let s = choose|s: int|
                    pos <= s < n <= data.len() && #[trigger] p.outcome(data.subrange(s, n))
                        == crate::OutcomeModel::Matched(ev);
                assert(p.outcome(data.subrange(s, n)) == crate::OutcomeModel::Matched(ev));
                lemma_outcome_slices(p, data.subrange(s, n));
                let r = build_step(b, ev);
                assert forall|i: int| 0 <= i < r.blocks.len() implies is_slice_of(
                    data,
                    (#[trigger] r.blocks[i]).part.contents,
                ) by {
                    if i < b.blocks.len() {
                        assert(r.blocks[i] == b.blocks[i]);
                    } else {
                        match ev {
                            EventModel::Code(cp) => lemma_slice_of_slice(data, s, n, cp.contents),
                            EventModel::Props(_, props) => {
                                if let Some(c) = props.code {
                                    lemma_slice_of_slice(data, s, n, c);
                                }
                            },
                            _ => {},
                        }
                    }
                }
                assert(r.stack.len() >= 1) by {
                    if let EventModel::Heading(part) = ev {
                        crate::lemma_close_to_root_len(b.stack, part.level);
                    }
                }
                lemma_build_alias(p, data, n, r);
            }
        }
    }
}

/// Every index recorded in the tree is below `n`, and each section's
/// indexes strictly increase.
pub open spec fn indexes_ok(s: SectionModel, n: nat) -> bool
    decreases s,
{
    &&& forall|i: int| 0 <= i < s.indexes.len() ==> (#[trigger] s.indexes[i]) < n
    &&& forall|i: int, j: int| 0 <= i < j < s.indexes.len() ==> s.indexes[i] < s.indexes[j]
    &&& forall|k: int| 0 <= k < s.children.len() ==> indexes_ok(#[trigger] s.children[k], n)
}

proof fn lemma_indexes_grow(s: SectionModel, n: nat, m: nat)
    requires
        indexes_ok(s, n),
        n <= m,
    ensures
        indexes_ok(s, m),
    decreases s,
{
    assert forall|k: int| 0 <= k < s.children.len() implies indexes_ok(#[trigger] s.children[k], m) by {
        lemma_indexes_grow(s.children[k], n, m);
    }
}

pub open spec fn stack_indexed(st: Seq<SectionModel>, n: nat) -> bool {
    forall|i: int| 0 <= i < st.len() ==> indexes_ok(#[trigger] st[i], n)
}

proof fn lemma_close_indexed(st: Seq<SectionModel>, level: nat, n: nat)
    requires
        stack_indexed(st, n),
        st.len() >= 1,
    ensures
        stack_indexed(crate::close_to(st, level), n),
    decreases st.len(),
{
    if !(st.len() <= 1 || st.last().part.level < level) {
        let rest = st.drop_last();
        let parent = rest.last();
        let joined = crate::section::with_child(parent, st.last());
        let next = rest.update(rest.len() - 1, joined);
        assert(indexes_ok(parent, n) && indexes_ok(st[st.len() - 1], n));
        assert(indexes_ok(joined, n)) by {
            assert forall|k: int| 0 <= k < joined.children.len() implies indexes_ok(
                #[trigger] joined.children[k],
                n,
            ) by {
                if k < parent.children.len() {
                    assert(joined.children[k] == parent.children[k]);
                }
            }
        }
        assert forall|i: int| 0 <= i < next.len() implies indexes_ok(#[trigger] next[i], n) by {
            if i < next.len() - 1 {
                assert(next[i] == st[i]);
            }
        }
        lemma_close_indexed(next, level, n);
    }
}

proof fn lemma_emit_indexed(b: BuildModel, top: SectionModel, part: crate::code::CodePartModel)
    requires
        stack_indexed(b.stack, b.blocks.len()),
        b.stack.len() >= 1,
        indexes_ok(top, b.blocks.len()),
        b.blocks.len() < usize::MAX,
    ensures
        stack_indexed(crate::emit(b, top, part).stack, crate::emit(b, top, part).blocks.len()),
{
    let r = crate::emit(b, top, part);
    let n = r.blocks.len();
    assert forall|i: int| 0 <= i < b.stack.len() implies indexes_ok(#[trigger] b.stack[i], n) by {
        lemma_indexes_grow(b.stack[i], b.blocks.len(), n);
    }
    lemma_indexes_grow(top, b.blocks.len(), n);
    let t = crate::emitted_top(top, b.blocks.len(), part);
    assert(indexes_ok(t, n)) by {
        if t != top {
            assert forall|k: int| 0 <= k < t.children.len() implies indexes_ok(
                #[trigger] t.children[k],
                n,
            ) by {
                assert(t.children[k] == top.children[k]);
            }
        }
    }
    assert forall|i: int| 0 <= i < r.stack.len() implies indexes_ok(#[trigger] r.stack[i], n) by {
        if i < r.stack.len() - 1 {
            assert(r.stack[i] == b.stack[i]);
        }
    }
}

proof fn lemma_step_indexed(b: BuildModel, ev: EventModel)
    requires
        stack_indexed(b.stack, b.blocks.len()),
        b.stack.len() >= 1,
        b.blocks.len() < usize::MAX,
    ensures
        stack_indexed(build_step(b, ev).stack, build_step(b, ev).blocks.len()),
        build_step(b, ev).stack.len() >= 1,
{
    let r = build_step(b, ev);
    let n = b.blocks.len();
    let top = b.stack.last();
    assert(indexes_ok(b.stack[b.stack.len() - 1], n));
    match ev {
        EventModel::Heading(part) => {
            lemma_close_indexed(b.stack, part.level, n);
            crate::lemma_close_to_root_len(b.stack, part.level);
            let st = crate::close_to(b.stack, part.level);
            assert(indexes_ok(crate::section::fresh_section(part, st.last().env), n));
            assert forall|i: int| 0 <= i < r.stack.len() implies indexes_ok(#[trigger] r.stack[i], n) by {
                if i < st.len() {
                    assert(r.stack[i] == st[i]);
                }
            }
        },
        EventModel::Code(part) => {
            lemma_emit_indexed(b, top, part);
        },
        EventModel::Props(lang, p) => {
            match p.code {
                None => {
                    let t = SectionModel { env: updated(top.env, lang, p), ..top };
                    assert(indexes_ok(t, n)) by {
                        assert forall|k: int| 0 <= k < t.children.len() implies indexes_ok(
                            #[trigger] t.children[k],
                            n,
                        ) by {
                            assert(t.children[k] == top.children[k]);
                        }
                    }
                    assert forall|i: int| 0 <= i < r.stack.len() implies indexes_ok(
                        #[trigger] r.stack[i],
                        n,
                    ) by {
                        if i < r.stack.len() - 1 {
                            assert(r.stack[i] == b.stack[i]);
                        }
                    }
                },
                Some(c) => {
                    let t = SectionModel {
                        env: updated(top.env, lang, PropsModel { code: None, ..p }),
                        ..top
                    };
                    assert(indexes_ok(t, n)) by {
                        assert forall|k: int| 0 <= k < t.children.len() implies indexes_ok(
                            #[trigger] t.children[k],
                            n,
                        ) by {
                            assert(t.children[k] == top.children[k]);
                        }
                    }
                    lemma_emit_indexed(b, t, crate::code::CodePartModel { contents: c, lang });
                },
            }
        },
        EventModel::End => {},
    }
}

proof fn lemma_build_indexed(p: MarkdownParsers, data: Seq<u8>, pos: int, b: BuildModel)
    requires
        0 <= pos <= data.len(),
        data.len() < usize::MAX,
        b.blocks.len() <= pos,
        b.stack.len() >= 1,
        stack_indexed(b.stack, b.blocks.len()),
    ensures
        build_from(p, data, pos, b) matches Ok(r) ==> r.stack.len() >= 1 && stack_indexed(
            r.stack,
            r.blocks.len(),
        ),
    decreases data.len() - pos,
{
    lemma_scan_from_advances(p, data, pos, pos, p.strict);
    if let StepModel::Event(ev, n) = scan_from(p, data, pos, pos, p.strict) {
        if !(ev is End) {
            lemma_step_indexed(b, ev);
            lemma_step_emits_at_most_one(b, ev);
            lemma_build_indexed(p, data, n, build_step(b, ev));
        }
    }
}

/// Code block indexes: every index recorded in any section of a parsed
/// document points into the list of code blocks, and within one section the
/// indexes strictly increase.
pub proof fn law_indexes_in_range(p: MarkdownParsers, data: Seq<u8>)
    requires
        data.len() < usize::MAX,
    ensures
        document_of(p, data) matches Ok(d) ==> indexes_ok(d.root, d.blocks.len()),
{
    let init = BuildModel { stack: seq![crate::root_model()], blocks: Seq::empty() };
    assert(indexes_ok(crate::root_model(), 0));
    lemma_build_indexed(p, data, 0, init);
    if let Ok(r) = build_from(p, data, 0, init) {
        lemma_close_indexed(r.stack, 0, r.blocks.len());
        crate::lemma_close_to_root(r.stack);
    }
}

/// Byte-slice aliasing: the contents of every emitted code block is a
/// contiguous sub-range of the input.
pub proof fn law_contents_alias_input(p: MarkdownParsers, data: Seq<u8>)
    ensures
        document_of(p, data) matches Ok(d) ==> forall|i: int|
            0 <= i < d.blocks.len() ==> is_slice_of(data, (#[trigger] d.blocks[i]).part.contents),
{
    let init = BuildModel { stack: seq![crate::root_model()], blocks: Seq::empty() };
    lemma_build_alias(p, data, 0, init);
}

#[via_fn]
proof fn window_start_decreases<P: crate::LineParser>(
    p: P,
    data: Seq<u8>,
    start: int,
    end: int,
    strict: bool,
) {
    if 0 <= end < data.len() {
        crate::scanner::lemma_next_line_end(data, end);
    }
}

/// Where the window starts in which the scanner's next step recognises a
/// construct: the offset of the construct's opener.
pub open spec fn window_start<P: crate::LineParser>(
    p: P,
    data: Seq<u8>,
    start: int,
    end: int,
    strict: bool,
) -> int
    decreases data.len() - end,
    via window_start_decreases::<P>
{
    if end < 0 || end >= data.len() {
        data.len() as int
    } else {
        let e2 = crate::scanner::next_line_end(data, end);
        match p.outcome(data.subrange(start, e2)) {
            crate::OutcomeModel::Matched(_) => start,
            crate::OutcomeModel::Partial => window_start(p, data, start, e2, strict),
            crate::OutcomeModel::NoMatch => window_start(p, data, e2, e2, strict),
            crate::OutcomeModel::Invalid => if strict {
                start
            } else {
                window_start(p, data, e2, e2, strict)
            },
        }
    }
}

proof fn lemma_window_start_bounds<P: crate::LineParser>(
    p: P,
    data: Seq<u8>,
    start: int,
    end: int,
    strict: bool,
)
    requires
        0 <= start <= end <= data.len(),
    ensures
        scan_from(p, data, start, end, strict) matches StepModel::Event(ev, n) ==> ev is End || ({
            let s = window_start(p, data, start, end, strict);
            start <= s < n <= data.len() && p.outcome(data.subrange(s, n))
                == crate::OutcomeModel::Matched(ev)
        }),
    decreases data.len() - end,
{
    if 0 <= end < data.len() {
        let e2 = crate::scanner::next_line_end(data, end);
        crate::scanner::lemma_next_line_end(data, end);
        match p.outcome(data.subrange(start, e2)) {
            crate::OutcomeModel::Matched(_) => {},
            crate::OutcomeModel::Partial => lemma_window_start_bounds(p, data, start, e2, strict),
            crate::OutcomeModel::NoMatch => lemma_window_start_bounds(p, data, e2, e2, strict),
            crate::OutcomeModel::Invalid => if !strict {
                lemma_window_start_bounds(p, data, e2, e2, strict)
            },
        }
    }
}

#[via_fn]
proof fn openers_from_decreases(p: MarkdownParsers, data: Seq<u8>, pos: int, b: BuildModel) {
    if 0 <= pos <= data.len() {
        lemma_scan_from_advances(p, data, pos, pos, p.strict);
    }
}

/// The offsets of the openers of the code blocks emitted from `pos` on, in
/// the order the blocks are emitted.
pub open spec fn openers_from(p: MarkdownParsers, data: Seq<u8>, pos: int, b: BuildModel) -> Seq<
    int,
>
    decreases data.len() - pos,
    via openers_from_decreases
{
    if pos < 0 || pos > data.len() {
        Seq::empty()
    } else {
        match scan_from(p, data, pos, pos, p.strict) {
            StepModel::Error(_, _) => Seq::empty(),
            StepModel::Event(ev, n) => if ev is End {
                Seq::empty()
            } else {
                let next = build_step(b, ev);
                let here = if next.blocks.len() > b.blocks.len() {
                    seq![window_start(p, data, pos, pos, p.strict)]
                } else {
                    Seq::empty()
                };
                here + openers_from(p, data, n, next)
            },
        }
    }
}

/// The offsets of the openers of a document's code blocks, in emission
/// order.
pub open spec fn openers(p: MarkdownParsers, data: Seq<u8>) -> Seq<int> {
    openers_from(
        p,
        data,
        0,
        BuildModel { stack: seq![crate::root_model()], blocks: Seq::empty() },
    )
}

proof fn lemma_step_emits_at_most_one(b: BuildModel, ev: EventModel)
    ensures
        build_step(b, ev).blocks.len() == b.blocks.len() || build_step(b, ev).blocks.len()
            == b.blocks.len() + 1,
        build_step(b, ev).blocks.len() > b.blocks.len() ==> ev is Code || ev is Props,
{
}

/// A code fence or an annotation opens at offset `s`.
pub open spec fn opener_at(p: MarkdownParsers, data: Seq<u8>, s: int) -> bool {
    crate::bytes::starts_at(data, s, p.code.start@) || crate::bytes::starts_at(
        data,
        s,
        p.betwixt.start@,
    )
}

proof fn lemma_emitting_window_opens(p: MarkdownParsers, data: Seq<u8>, s: int, n: int, ev: EventModel)
    requires
        0 <= s < n <= data.len(),
        crate::combined_outcome(p, data.subrange(s, n)) == crate::OutcomeModel::Matched(ev),
        ev is Code || ev is Props,
    ensures
        opener_at(p, data, s),
{
    let w = data.subrange(s, n);
    if crate::bytes::starts_at(w, 0, p.code.start@) {
        assert(data.subrange(s, s + p.code.start@.len()) =~= w.subrange(0, p.code.start@.len() as int));
    } else if crate::bytes::starts_at(w, 0, p.betwixt.start@) {
        assert(data.subrange(s, s + p.betwixt.start@.len()) =~= w.subrange(0, p.betwixt.start@.len() as int));
    }
}

proof fn lemma_openers(p: MarkdownParsers, data: Seq<u8>, pos: int, b: BuildModel)
    requires
        0 <= pos <= data.len(),
    ensures
        build_from(p, data, pos, b) matches Ok(r) ==> ({
            let o = openers_from(p, data, pos, b);
            &&& b.blocks.len() + o.len() == r.blocks.len()
            &&& forall|i: int, j: int| 0 <= i < j < o.len() ==> o[i] < o[j]
            &&& forall|i: int| 0 <= i < o.len() ==> pos <= #[trigger] o[i] < data.len()
            &&& forall|i: int| 0 <= i < o.len() ==> opener_at(p, data, #[trigger] o[i])
        }),
    decreases data.len() - pos,
{
    lemma_scan_from_advances(p, data, pos, pos, p.strict);
    lemma_window_start_bounds(p, data, pos, pos, p.strict);
    if let StepModel::Event(ev, n) = scan_from(p, data, pos, pos, p.strict) {
        if !(ev is End) {
            let next = build_step(b, ev);
            lemma_step_emits_at_most_one(b, ev);
            lemma_openers(p, data, n, next);
            let ws = window_start(p, data, pos, pos, p.strict);
            let here = if next.blocks.len() > b.blocks.len() {
                seq![ws]
            } else {
                Seq::<int>::empty()
            };
            let rest = openers_from(p, data, n, next);
            let o = here + rest;
            assert(openers_from(p, data, pos, b) == o);
            if let Ok(r) = build_from(p, data, pos, b) {
                assert forall|i: int| 0 <= i < o.len() implies pos <= #[trigger] o[i] < data.len()
                    && opener_at(p, data, o[i]) by {
                    if i >= here.len() {
                        assert(o[i] == rest[i - here.len()]);
                    } else {
                        lemma_emitting_window_opens(p, data, ws, n, ev);
                    }
                }
                assert forall|i: int, j: int| 0 <= i < j < o.len() implies o[i] < o[j] by {
                    if i >= here.len() {
                        assert(o[i] == rest[i - here.len()]);
                        assert(o[j] == rest[j - here.len()]);
                    } else {
                        assert(o[j] == rest[j - here.len()]);
                        assert(n <= rest[j - here.len()]);
                    }
                }
            }
        }
    }
}

/// Emission order: there is one opener offset per emitted code block, a
/// code fence or an annotation opens at each, and they strictly increase
/// along the list of code blocks.
pub proof fn law_emission_order(p: MarkdownParsers, data: Seq<u8>)
    ensures
        document_of(p, data) matches Ok(d) ==> ({
            let o = openers(p, data);
            &&& o.len() == d.blocks.len()
            &&& forall|i: int, j: int| 0 <= i < j < o.len() ==> o[i] < o[j]
            &&& forall|i: int| 0 <= i < o.len() ==> 0 <= #[trigger] o[i] < data.len()
            &&& forall|i: int| 0 <= i < o.len() ==> opener_at(p, data, #[trigger] o[i])
        }),
{
    let init = BuildModel { stack: seq![crate::root_model()], blocks: Seq::empty() };
    lemma_openers(p, data, 0, init);
}

/// A line that starts with a blank is not a heading, whatever follows.
pub proof fn law_indented_heading(mark: u8, w: Seq<u8>)
    requires
        w.len() > 0,
        crate::bytes::is_blank(w[0]),
        w[0] != mark,
    ensures
        crate::section::heading_outcome(mark, w) is NoMatch,
{
}

/// Inside a code block, a heading is not recognised: once a window opens
/// with a code fence, the fence recogniser alone decides what it holds.
pub proof fn law_fence_shadows_headings(p: MarkdownParsers, w: Seq<u8>)
    requires
        !(p.code.outcome(w) is NoMatch),
    ensures
        crate::combined_outcome(p, w) == p.code.outcome(w),
        !(crate::combined_outcome(p, w) matches crate::OutcomeModel::Matched(
            EventModel::Heading(_),
        )),
{
}

proof fn lemma_run_end_prefix(f: Seq<u8>, w: Seq<u8>, p: int, c: spec_fn(u8) -> bool)
    requires
        w.len() <= f.len(),
        w == f.subrange(0, w.len() as int),
        0 <= p <= w.len(),
        crate::bytes::run_end(w, p, c) < w.len() || crate::bytes::run_end(f, p, c) < w.len(),
    ensures
        crate::bytes::run_end(w, p, c) == crate::bytes::run_end(f, p, c),
    decreases w.len() - p,
{
    if p < w.len() {
        assert(w[p] == f[p]);
        if c(w[p]) {
            lemma_run_end_prefix(f, w, p + 1, c);
        }
    } else {
        crate::bytes::lemma_run_end_bounds(f, p, c);
    }
}

proof fn lemma_starts_at_prefix(f: Seq<u8>, w: Seq<u8>, k: int, t: Seq<u8>)
    requires
        w.len() <= f.len(),
        w == f.subrange(0, w.len() as int),
        crate::bytes::starts_at(w, k, t),
    ensures
        crate::bytes::starts_at(f, k, t),
{
    assert(f.subrange(k, k + t.len()) =~= w.subrange(k, k + t.len()));
}

proof fn lemma_find_from_prefix(f: Seq<u8>, w: Seq<u8>, p: int, t: Seq<u8>)
    requires
        0 <= p,
        w.len() <= f.len(),
        w == f.subrange(0, w.len() as int),
        crate::bytes::find_from(f, p, t) is None,
    ensures
        crate::bytes::find_from(w, p, t) is None,
{
    crate::bytes::lemma_find_from_bounds(f, p, t);
    crate::bytes::lemma_find_from_bounds(w, p, t);
    if let Some(q) = crate::bytes::find_from(w, p, t) {
        lemma_starts_at_prefix(f, w, q, t);
    }
}

proof fn lemma_first_close_none(f: Seq<u8>, close: Seq<u8>, s: int, q: int)
    requires
        crate::code::first_close(f, close, s) is None,
        0 <= s <= q,
    ensures
        !crate::code::closes_at(f, close, q),
    decreases q - s,
{
    if s < f.len() && q > s {
        lemma_first_close_none(f, close, s + 1, q);
    }
}

proof fn lemma_first_close_prefix(f: Seq<u8>, w: Seq<u8>, close: Seq<u8>, s: int)
    requires
        0 <= s,
        w.len() <= f.len(),
        w == f.subrange(0, w.len() as int),
        crate::code::first_close(f, close, s) is None,
    ensures
        crate::code::first_close(w, close, s) is None,
{
    crate::code::lemma_first_close_bounds(w, close, s);
    if let Some(q) = crate::code::first_close(w, close, s) {
        let blank = crate::bytes::ByteClass::Blank.pred();
        lemma_starts_at_prefix(f, w, q, close);
        lemma_run_end_prefix(f, w, q + close.len(), blank);
        let e = crate::bytes::run_end(w, q + close.len(), blank);
        assert(crate::code::closes_at(w, close, q));
        crate::bytes::lemma_run_end_bounds(w, q + close.len(), blank);
        assert(f[q - 1] == w[q - 1]);
        assert(f[e] == w[e]);
        assert(crate::code::closes_at(f, close, q));
        lemma_first_close_none(f, close, s, q);
    }
}

proof fn lemma_first_newline(data: Seq<u8>, p: int, n: int)
    requires
        0 <= p <= n < data.len(),
        data[n] == 0x0au8,
        forall|k: int| p <= k < n ==> data[k] != 0x0au8,
    ensures
        crate::scanner::next_line_end(data, p) == n + 1,
    decreases n - p,
{
    let nl = seq![0x0au8];
    assert(data.subrange(p, p + 1)[0] == data[p]);
    if p == n {
        assert(data.subrange(p, p + 1) =~= nl);
    } else {
        assert(!crate::bytes::starts_at(data, p, nl));
        lemma_first_newline(data, p + 1, n);
    }
}

/// The window from `pos` to `x` is a prefix of the rest of the input.
proof fn lemma_window_is_prefix(data: Seq<u8>, pos: int, x: int)
    requires
        0 <= pos <= x <= data.len(),
    ensures
        data.subrange(pos, x) == data.subrange(pos, data.len() as int).subrange(0, x - pos),
{
    assert(data.subrange(pos, x) =~= data.subrange(pos, data.len() as int).subrange(0, x - pos));
}

proof fn lemma_unclosed_fence_windows(p: MarkdownParsers, data: Seq<u8>, pos: int, c: int, x: int)
    requires
        0 <= pos < data.len(),
        0 <= c,
        pos + c + 1 <= x <= data.len(),
        ({
            let f = data.subrange(pos, data.len() as int);
            let open = p.code.start@;
            let a = open.len() as int;
            let b = crate::bytes::run_end(f, a, crate::bytes::ByteClass::Alpha.pred());
            &&& crate::bytes::starts_at(f, 0, open)
            &&& c == crate::bytes::run_end(f, b, crate::bytes::ByteClass::Blank.pred())
            &&& c < f.len() && f[c] == 0x0au8
            &&& crate::code::first_close(f, p.code.end@, c + 1) is None
        }),
    ensures
        crate::code::fence_outcome(p.code.start@, p.code.end@, data.subrange(pos, x)) is Partial,
{
    let f = data.subrange(pos, data.len() as int);
    let w = data.subrange(pos, x);
    lemma_window_is_prefix(data, pos, x);
    let open = p.code.start@;
    let a = open.len() as int;
    let alpha = crate::bytes::ByteClass::Alpha.pred();
    let blank = crate::bytes::ByteClass::Blank.pred();
    let b = crate::bytes::run_end(f, a, alpha);
    crate::bytes::lemma_run_end_bounds(f, a, alpha);
    crate::bytes::lemma_run_end_bounds(f, b, blank);
    assert(w.subrange(0, a) =~= f.subrange(0, a));
    lemma_run_end_prefix(f, w, a, alpha);
    lemma_run_end_prefix(f, w, b, blank);
    lemma_first_close_prefix(f, w, p.code.end@, c + 1);
}

proof fn lemma_unclosed_fence_scan(
    p: MarkdownParsers,
    data: Seq<u8>,
    pos: int,
    c: int,
    end: int,
)
    requires
        0 <= pos < data.len(),
        0 <= c,
        pos + c + 1 <= end <= data.len(),
        ({
            let f = data.subrange(pos, data.len() as int);
            let open = p.code.start@;
            let a = open.len() as int;
            let b = crate::bytes::run_end(f, a, crate::bytes::ByteClass::Alpha.pred());
            &&& crate::bytes::starts_at(f, 0, open)
            &&& c == crate::bytes::run_end(f, b, crate::bytes::ByteClass::Blank.pred())
            &&& c < f.len() && f[c] == 0x0au8
            &&& crate::code::first_close(f, p.code.end@, c + 1) is None
        }),
    ensures
        scan_from(p, data, pos, end, p.strict) == StepModel::Event(EventModel::End, data.len() as int),
    decreases data.len() - end,
{
    if end < data.len() {
        let e2 = crate::scanner::next_line_end(data, end);
        crate::scanner::lemma_next_line_end(data, end);
        lemma_unclosed_fence_windows(p, data, pos, c, e2);
        lemma_unclosed_fence_scan(p, data, pos, c, e2);
    }
}

/// An opening code fence with no closing-fence line before the end of the
/// input produces no code block: from the fence on, the scanner reads to the
/// end and yields only `End`.
pub proof fn law_unclosed_fence(p: MarkdownParsers, data: Seq<u8>, pos: int)
    requires
        0 <= pos < data.len(),
        forall|k: int| 0 <= k < p.code.start@.len() ==> p.code.start@[k] != 0x0au8,
        crate::code::fence_outcome(p.code.start@, p.code.end@, data.subrange(pos, data.len() as int))
            is Partial,
    ensures
        scan_from(p, data, pos, pos, p.strict) == StepModel::Event(EventModel::End, data.len() as int),
{
    let f = data.subrange(pos, data.len() as int);
    let open = p.code.start@;
    let a = open.len() as int;
    let alpha = crate::bytes::ByteClass::Alpha.pred();
    let blank = crate::bytes::ByteClass::Blank.pred();
    let b = crate::bytes::run_end(f, a, alpha);
    let c = crate::bytes::run_end(f, b, blank);
    crate::bytes::lemma_run_end_bounds(f, a, alpha);
    crate::bytes::lemma_run_end_bounds(f, b, blank);
    assert forall|k: int| pos <= k < pos + c implies data[k] != 0x0au8 by {
        assert(data[k] == f[k - pos]);
        if k - pos < a {
            assert(f.subrange(0, a)[k - pos] == open[k - pos]);
        }
    }
    lemma_first_newline(data, pos, pos + c);
    lemma_unclosed_fence_windows(p, data, pos, c, pos + c + 1);
    lemma_unclosed_fence_scan(p, data, pos, c, pos + c + 1);
}

proof fn lemma_line_end_shape(data: Seq<u8>, p: int)
    requires
        0 <= p < data.len(),
    ensures
        crate::scanner::next_line_end(data, p) == data.len() || data[crate::scanner::next_line_end(
            data,
            p,
        ) - 1] == 0x0au8,
{
    let nl = seq![0x0au8];
    crate::bytes::lemma_find_from_bounds(data, p, nl);
    if let Some(n) = crate::bytes::find_from(data, p, nl) {
        assert(data.subrange(n, n + 1)[0] == data[n]);
    }
}

proof fn lemma_line_end_past(data: Seq<u8>, p: int, t: Seq<u8>)
    requires
        0 <= p < data.len(),
        crate::bytes::starts_at(data, p, t),
        forall|k: int| 0 <= k < t.len() ==> t[k] != 0x0au8,
    ensures
        crate::scanner::next_line_end(data, p) >= p + t.len(),
{
    let nl = seq![0x0au8];
    crate::bytes::lemma_find_from_bounds(data, p, nl);
    if let Some(n) = crate::bytes::find_from(data, p, nl) {
        assert(data.subrange(n, n + 1)[0] == data[n]);
        if n < p + t.len() {
            assert(data[n] == data.subrange(p, p + t.len())[n - p]);
        }
    }
}

/// The conditions under which an annotation opened at `pos` never closes.
pub open spec fn annotation_left_open(p: MarkdownParsers, data: Seq<u8>, pos: int) -> bool {
    let f = data.subrange(pos, data.len() as int);
    &&& 0 <= pos < data.len()
    &&& forall|k: int| 0 <= k < p.betwixt.start@.len() ==> p.betwixt.start@[k] != 0x0au8
    &&& !crate::bytes::starts_at(f, 0, p.code.start@)
    &&& f[0] != p.section.mark
    &&& crate::properties::annotation_outcome(p.betwixt.start@, p.betwixt.end@, f) is Partial
}

proof fn lemma_unclosed_annotation_windows(p: MarkdownParsers, data: Seq<u8>, pos: int, x: int)
    requires
        annotation_left_open(p, data, pos),
        pos + p.betwixt.start@.len() <= x <= data.len(),
        pos < x,
        x == data.len() || data[x - 1] == 0x0au8,
    ensures
        crate::combined_outcome(p, data.subrange(pos, x)) is Partial,
{
    let f = data.subrange(pos, data.len() as int);
    let w = data.subrange(pos, x);
    lemma_window_is_prefix(data, pos, x);
    if x == data.len() {
        assert(w =~= f);
    }
    let start = p.betwixt.start@;
    let sl = start.len() as int;
    assert(!crate::bytes::starts_at(w, 0, p.code.start@)) by {
        if crate::bytes::starts_at(w, 0, p.code.start@) {
            lemma_starts_at_prefix(f, w, 0, p.code.start@);
        }
    }
    assert(w[0] == f[0]);
    assert(crate::bytes::run_end(w, 0, crate::bytes::ByteClass::Exactly(p.section.mark).pred())
        == 0);
    assert(w.subrange(0, sl) =~= f.subrange(0, sl));
    assert(crate::bytes::starts_at(w, 0, start));
    if x < data.len() {
        assert(w[w.len() - 1] == 0x0au8);
        assert(sl < w.len()) by {
            if sl == w.len() {
                assert(w[sl - 1] == start[sl - 1]);
            }
        }
        if w[sl] == 0x2bu8 {
            let alnum = crate::bytes::ByteClass::Alnum.pred();
            crate::bytes::lemma_run_end_bounds(w, sl + 1, alnum);
            if crate::bytes::run_end(w, sl + 1, alnum) == w.len() {
                assert(alnum(w[w.len() - 1]));
            }
            lemma_run_end_prefix(f, w, sl + 1, alnum);
        }
    }
    let qualified = sl < f.len() && f[sl] == 0x2bu8;
    let q = if qualified {
        crate::bytes::run_end(f, sl + 1, crate::bytes::ByteClass::Alnum.pred())
    } else {
        sl
    };
    if qualified {
        crate::bytes::lemma_run_end_bounds(f, sl + 1, crate::bytes::ByteClass::Alnum.pred());
    }
    lemma_find_from_prefix(f, w, q, p.betwixt.end@);
}

proof fn lemma_unclosed_annotation_scan(p: MarkdownParsers, data: Seq<u8>, pos: int, end: int)
    requires
        annotation_left_open(p, data, pos),
        pos + p.betwixt.start@.len() <= end <= data.len(),
        pos < end,
    ensures
        scan_from(p, data, pos, end, p.strict) == StepModel::Event(EventModel::End, data.len() as int),
    decreases data.len() - end,
{
    if end < data.len() {
        let e2 = crate::scanner::next_line_end(data, end);
        crate::scanner::lemma_next_line_end(data, end);
        lemma_line_end_shape(data, end);
        lemma_unclosed_annotation_windows(p, data, pos, e2);
        lemma_unclosed_annotation_scan(p, data, pos, e2);
    }
}

/// An annotation opener with no closing delimiter before the end of the
/// input produces nothing: from the opener on, the scanner reads to the end
/// and yields only `End`. (The window must not also open a code fence or a
/// heading, which are tried first.)
pub proof fn law_unclosed_annotation(p: MarkdownParsers, data: Seq<u8>, pos: int)
    requires
        annotation_left_open(p, data, pos),
    ensures
        scan_from(p, data, pos, pos, p.strict) == StepModel::Event(EventModel::End, data.len() as int),
{
    let f = data.subrange(pos, data.len() as int);
    let start = p.betwixt.start@;
    assert(crate::bytes::starts_at(data, pos, start)) by {
        assert(data.subrange(pos, pos + start.len()) =~= f.subrange(0, start.len() as int));
    }
    crate::scanner::lemma_next_line_end(data, pos);
    lemma_line_end_past(data, pos, start);
    lemma_line_end_shape(data, pos);
    let e2 = crate::scanner::next_line_end(data, pos);
    lemma_unclosed_annotation_windows(p, data, pos, e2);
    lemma_unclosed_annotation_scan(p, data, pos, e2);
}

} // verus!
