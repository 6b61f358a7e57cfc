//! The two protocol adapters and the state they drive.
//!
//! Each successfully parsed payload first feeds the citation harvester, then
//! one of two adapters: the structured-event adapter keys on the payload's
//! `type` string, the delta-choice adapter on `choices[0]`. Both forward text
//! fragments through the same accumulator.

use vstd::prelude::*;

use crate::cite::{cite_views, cite_walk, Citation};
use crate::json::{spec_get, spec_get_str, str_eq, str_starts_with, JsonValue};
use crate::render::json_text;
use crate::text::{
    extract_text_from_response, extract_text_segments_list, nonempty_segs, spec_text_from_response,
    views_of,
};

verus! {

/// The state of one aggregation run, as the contracts see it.
#[verifier::ext_equal]
pub struct AggModel {
    /// The grown result text.
    pub text: Seq<char>,
    /// Every fragment forwarded to the caller's sink, in order.
    pub frags: Seq<Seq<char>>,
    /// Whether any fragment was forwarded.
    pub displayed: bool,
    /// The harvested citations, URLs distinct, in first-seen order.
    pub cites: Seq<(Seq<char>, Option<Seq<char>>)>,
    /// The final text once an event established it; empty while none did.
    pub final_text: Seq<char>,
    /// The last complete response snapshot (structured protocol).
    pub final_response: Option<JsonValue>,
    /// The last final message (delta-choice protocol).
    pub final_message: Option<JsonValue>,
    /// The message of an in-stream error event, which ends the run.
    pub failed: Option<Seq<char>>,
    /// Whether the run is over: sentinel seen or error raised.
    pub done: bool,
}

/// The state a run starts from.
pub open spec fn init_model() -> AggModel {
    AggModel {
        text: Seq::empty(),
        frags: Seq::empty(),
        displayed: false,
        cites: Seq::empty(),
        final_text: Seq::empty(),
        final_response: None,
        final_message: None,
        failed: None,
        done: false,
    }
}

/// The fragments, concatenated.
pub open spec fn concat_frags(fs: Seq<Seq<char>>) -> Seq<char>
    decreases fs,
{
    if fs.len() == 0 {
        Seq::empty()
    } else {
        concat_frags(fs.drop_last()) + fs.last()
    }
}

/// Forwards each fragment: all go to the sink trace and onto the text, and
/// the displayed flag rises with the first one.
pub open spec fn emit_all(m: AggModel, fs: Seq<Seq<char>>) -> AggModel {
    AggModel {
        text: m.text + concat_frags(fs),
        frags: m.frags + fs,
        displayed: m.displayed || fs.len() > 0,
        ..m
    }
}

/// The fragments a delta value yields: a string is one fragment (none when
/// empty); anything else yields the non-empty segments of the generic walk.
pub open spec fn emits_of_delta(d: JsonValue) -> Seq<Seq<char>> {
    match d {
        JsonValue::Str(s) => if s@.len() > 0 {
            seq![s@]
        } else {
            Seq::empty()
        },
        _ => nonempty_segs(d),
    }
}

/// The text accumulator: the grown text, the sink trace, and whether
/// anything was forwarded.
pub struct TextAccum {
    pub buffer: String,
    pub emitted: Vec<String>,
    pub displayed: bool,
}

impl TextAccum {
    /// An empty accumulator.
    pub fn new() -> (r: TextAccum)
        ensures
            r.buffer@ == Seq::<char>::empty(),
            r.emitted@ == Seq::<String>::empty(),
            !r.displayed,
    {
        TextAccum { buffer: String::new(), emitted: Vec::new(), displayed: false }
    }
}

/// Forwards one fragment, known non-empty by the callers' use.
fn emit_fragment(acc: &mut TextAccum, s: String)
    ensures
        final(acc).buffer@ == old(acc).buffer@ + s@,
        final(acc).emitted@ == old(acc).emitted@.push(s),
        final(acc).displayed,
{
    acc.buffer.append(s.as_str());
    acc.emitted.push(s);
    acc.displayed = true;
}

/// Forwards a delta value's text: a plain string as one fragment, any other
/// shape through the generic segment walk. Returns whether anything was
/// forwarded; the accumulator changes exactly by [`emits_of_delta`].
pub fn handle_delta_value(delta: &JsonValue, acc: &mut TextAccum) -> (emitted: bool)
    ensures
        final(acc).buffer@ == old(acc).buffer@ + concat_frags(emits_of_delta(*delta)),
        views_of(final(acc).emitted@) == views_of(old(acc).emitted@) + emits_of_delta(*delta),
        final(acc).displayed == (old(acc).displayed || emits_of_delta(*delta).len() > 0),
        emitted == (emits_of_delta(*delta).len() > 0),
{
    match delta {
        JsonValue::Str(s) => {
            if !s.as_str().is_empty() {
                let ghost prev_em = acc.emitted@;
                let sc = s.clone();
                let ghost scg = sc;
                emit_fragment(acc, sc);
                proof {
                    assert(seq![s@].drop_last() =~= Seq::<Seq<char>>::empty());
                    assert(concat_frags(Seq::<Seq<char>>::empty()) == Seq::<char>::empty());
                    assert(seq![s@].last() == s@);
                    assert(concat_frags(seq![s@]) =~= s@);
                    crate::text::lemma_views_push(prev_em, scg);
                    assert(views_of(acc.emitted@) =~= views_of(old(acc).emitted@) + emits_of_delta(
                        *delta,
                    ));
                    assert(acc.buffer@ =~= old(acc).buffer@ + concat_frags(
                        emits_of_delta(*delta),
                    ));
                }
                true
            } else {
                proof {
                    assert(acc.buffer@ =~= old(acc).buffer@ + concat_frags(
                        emits_of_delta(*delta),
                    ));
                    assert(views_of(acc.emitted@) =~= views_of(old(acc).emitted@) + emits_of_delta(
                        *delta,
                    ));
                }
                false
            }
        },
        _ => emit_segments(delta, acc),
    }
}

/// Forwards every non-empty segment of the generic walk of `v`, in order.
/// Returns whether anything was forwarded.
pub fn emit_segments(v: &JsonValue, acc: &mut TextAccum) -> (emitted: bool)
    ensures
        final(acc).buffer@ == old(acc).buffer@ + concat_frags(nonempty_segs(*v)),
        views_of(final(acc).emitted@) == views_of(old(acc).emitted@) + nonempty_segs(*v),
        final(acc).displayed == (old(acc).displayed || nonempty_segs(*v).len() > 0),
        emitted == (nonempty_segs(*v).len() > 0),
{
    let segs = extract_text_segments_list(v);
    let n = segs.len();
    let mut i: usize = 0;
    proof {
        assert(views_of(segs@).take(0) =~= Seq::<Seq<char>>::empty());
        assert(acc.buffer@ =~= old(acc).buffer@ + concat_frags(views_of(segs@).take(0)));
        assert(views_of(acc.emitted@) =~= views_of(old(acc).emitted@) + views_of(segs@).take(0));
    }
    while i < n
        invariant
            i <= n,
            n == segs@.len(),
            views_of(segs@) == nonempty_segs(*v),
            acc.buffer@ == old(acc).buffer@ + concat_frags(views_of(segs@).take(i as int)),
            views_of(acc.emitted@) == views_of(old(acc).emitted@) + views_of(segs@).take(i as int),
            acc.displayed == (old(acc).displayed || i > 0),
        decreases n - i,
    {
        let s = segs[i].clone();
        let ghost sg = s;
        let ghost prev_em = acc.emitted@;
        emit_fragment(acc, s);
        proof {
            crate::text::lemma_views_push(prev_em, sg);
            assert(views_of(segs@).take(i + 1).drop_last() =~= views_of(segs@).take(i as int));
            assert(views_of(segs@).take(i + 1).last() == segs@[i as int]@);
            assert(acc.buffer@ =~= old(acc).buffer@ + concat_frags(views_of(segs@).take(i + 1)));
            assert(views_of(acc.emitted@) =~= views_of(old(acc).emitted@) + views_of(segs@).take(
                i + 1,
            ));
        }
        i = i + 1;
    }
    proof {
        assert(views_of(segs@).take(n as int) =~= views_of(segs@));
    }
    n > 0
}

/// The text one content part of a response output contributes: an
/// `output_text` part gives its `text` then its `text_delta`; any other part
/// gives its `text` member, or itself when it is a bare string.
pub open spec fn part_text(part: JsonValue) -> Seq<char> {
    if spec_get_str(part, "type"@) == Some("output_text"@) {
        (match spec_get_str(part, "text"@) {
            Some(s) => s,
            None => Seq::empty(),
        }) + (match spec_get_str(part, "text_delta"@) {
            Some(s) => s,
            None => Seq::empty(),
        })
    } else {
        match spec_get_str(part, "text"@) {
            Some(s) => s,
            None => match part {
                JsonValue::Str(s) => s@,
                _ => Seq::empty(),
            },
        }
    }
}

/// Folds the content parts of one output item: each appends its text and
/// feeds the citation walk.
pub open spec fn parts_fold(
    txt: Seq<char>,
    cs: Seq<(Seq<char>, Option<Seq<char>>)>,
    parts: Seq<JsonValue>,
) -> (Seq<char>, Seq<(Seq<char>, Option<Seq<char>>)>)
    decreases parts,
{
    if parts.len() == 0 {
        (txt, cs)
    } else {
        let p = parts_fold(txt, cs, parts.drop_last());
        (p.0 + part_text(parts.last()), cite_walk(p.1, parts.last()))
    }
}

/// One output item: only items typed `message` with an array `content`
/// contribute, through their parts.
pub open spec fn item_fold(
    txt: Seq<char>,
    cs: Seq<(Seq<char>, Option<Seq<char>>)>,
    item: JsonValue,
) -> (Seq<char>, Seq<(Seq<char>, Option<Seq<char>>)>) {
    if spec_get_str(item, "type"@) == Some("message"@) {
        match spec_get(item, "content"@) {
            Some(JsonValue::Arr(parts)) => parts_fold(txt, cs, parts@),
            _ => (txt, cs),
        }
    } else {
        (txt, cs)
    }
}

/// Folds a whole output array, item by item.
pub open spec fn items_fold(
    txt: Seq<char>,
    cs: Seq<(Seq<char>, Option<Seq<char>>)>,
    items: Seq<JsonValue>,
) -> (Seq<char>, Seq<(Seq<char>, Option<Seq<char>>)>)
    decreases items,
{
    if items.len() == 0 {
        (txt, cs)
    } else {
        let p = items_fold(txt, cs, items.drop_last());
        item_fold(p.0, p.1, items.last())
    }
}

/// What parsing a complete response object yields: the text of its `output`
/// items and the citation list the walk of their parts leaves behind.
pub open spec fn parse_output_spec(v: JsonValue, cs: Seq<(Seq<char>, Option<Seq<char>>)>) -> (
    Seq<char>,
    Seq<(Seq<char>, Option<Seq<char>>)>,
) {
    match spec_get(v, "output"@) {
        Some(JsonValue::Arr(items)) => items_fold(Seq::empty(), cs, items@),
        _ => (Seq::empty(), cs),
    }
}

/// Walks a complete response object: concatenates the text of the
/// `output_text` parts of its `message` items and harvests their citations,
/// per [`parse_output_spec`].
pub fn parse_response_output(value: &JsonValue, citations: &mut Vec<Citation>) -> (r: String)
    ensures
        r@ == parse_output_spec(*value, cite_views(old(citations)@)).0,
        cite_views(final(citations)@) == parse_output_spec(*value, cite_views(old(citations)@)).1,
{
    let ghost cs0 = cite_views(citations@);
    let mut text = String::new();
    match value.get("output") {
        Some(output) => {
            match output {
                JsonValue::Arr(items) => {
                    let ghost items_view = items@;
                    let n = items.len();
                    let mut i: usize = 0;
                    assert(items_view.take(0) =~= Seq::<JsonValue>::empty());
                    while i < n
                        invariant
                            i <= n,
                            n == items_view.len(),
                            items@ == items_view,
                            (text@, cite_views(citations@)) == items_fold(
                                Seq::<char>::empty(),
                                cs0,
                                items_view.take(i as int),
                            ),
                        decreases n - i,
                    {
                        let item = &items[i];
                        let ghost pre_text = text@;
                        let ghost pre_cs = cite_views(citations@);
                        let is_message = match item.get("type") {
                            Some(t) => match t.as_str() {
                                Some(ty) => str_eq(ty.as_str(), "message"),
                                None => false,
                            },
                            None => false,
                        };
                        if is_message {
                            match item.get("content") {
                                Some(content) => match content {
                                    JsonValue::Arr(parts) => {
                                        process_parts(parts, &mut text, citations);
                                    },
                                    _ => {},
                                },
                                None => {},
                            }
                        }
                        proof {
                            assert(items_view.take(i + 1).drop_last() =~= items_view.take(
                                i as int,
                            ));
                            assert(items_view.take(i + 1).last() == items_view[i as int]);
                        }
                        i = i + 1;
                    }
                    assert(items_view.take(n as int) =~= items_view);
                },
                _ => {},
            }
        },
        None => {},
    }
    text
}

/// Folds the parts of one `message` item, as [`parts_fold`].
fn process_parts(parts: &Vec<JsonValue>, text: &mut String, citations: &mut Vec<Citation>)
    ensures
        (final(text)@, cite_views(final(citations)@)) == parts_fold(
            old(text)@,
            cite_views(old(citations)@),
            parts@,
        ),
{
    let ghost t0 = text@;
    let ghost cs0 = cite_views(citations@);
    let ghost parts_view = parts@;
    let n = parts.len();
    let mut i: usize = 0;
    assert(parts_view.take(0) =~= Seq::<JsonValue>::empty());
    while i < n
        invariant
            i <= n,
            n == parts_view.len(),
            parts@ == parts_view,
            (text@, cite_views(citations@)) == parts_fold(t0, cs0, parts_view.take(i as int)),
        decreases n - i,
    {
        let part = &parts[i];
        let is_output_text = match part.get("type") {
            Some(t) => match t.as_str() {
                Some(ty) => str_eq(ty.as_str(), "output_text"),
                None => false,
            },
            None => false,
        };
        if is_output_text {
            match part.get("text") {
                Some(t) => match t.as_str() {
                    Some(s) => text.append(s.as_str()),
                    None => {},
                },
                None => {},
            }
            match part.get("text_delta") {
                Some(t) => match t.as_str() {
                    Some(s) => text.append(s.as_str()),
                    None => {},
                },
                None => {},
            }
            assert(text@ =~= parts_fold(t0, cs0, parts_view.take(i as int)).0 + part_text(
                parts_view[i as int],
            ));
        } else {
            match part.get("text") {
                Some(t) => match t.as_str() {
                    Some(s) => text.append(s.as_str()),
                    None => match part.as_str() {
                        Some(s) => text.append(s.as_str()),
                        None => {},
                    },
                },
                None => match part.as_str() {
                    Some(s) => text.append(s.as_str()),
                    None => {},
                },
            }
            assert(text@ =~= parts_fold(t0, cs0, parts_view.take(i as int)).0 + part_text(
                parts_view[i as int],
            ));
        }
        crate::cite::collect_citations(part, citations);
        proof {
            assert(parts_view.take(i + 1).drop_last() =~= parts_view.take(i as int));
            assert(parts_view.take(i + 1).last() == parts_view[i as int]);
        }
        i = i + 1;
    }
    assert(parts_view.take(n as int) =~= parts_view);
}


/// The text a `message` event aggregates from its `content` parts: each
/// part's `text` then `text_delta` string members, concatenated.
pub open spec fn msg_parts_fold(parts: Seq<JsonValue>) -> Seq<char>
    decreases parts,
{
    if parts.len() == 0 {
        Seq::empty()
    } else {
        msg_parts_fold(parts.drop_last()) + (match spec_get_str(parts.last(), "text"@) {
            Some(s) => s,
            None => Seq::empty(),
        }) + (match spec_get_str(parts.last(), "text_delta"@) {
            Some(s) => s,
            None => Seq::empty(),
        })
    }
}

/// The aggregated text of a `message` event, from its `content` array.
pub open spec fn msg_parts_text(v: JsonValue) -> Seq<char> {
    match spec_get(v, "content"@) {
        Some(JsonValue::Arr(parts)) => msg_parts_fold(parts@),
        _ => Seq::empty(),
    }
}

/// A `message` event: its aggregated text, else the generic walk, else the
/// event's own JSON text; a non-empty outcome seeds the text when nothing
/// streamed yet and becomes the final text; the event itself becomes the
/// response snapshot when none is held.
pub open spec fn message_step(m: AggModel, v: JsonValue) -> AggModel {
    let a1 = msg_parts_text(v);
    let a2 = if a1.len() > 0 {
        a1
    } else {
        match spec_text_from_response(v) {
            Some(t) => t,
            None => Seq::empty(),
        }
    };
    let a3 = if a2.len() > 0 {
        a2
    } else {
        json_text(v)
    };
    let m1 = if a3.len() > 0 {
        AggModel {
            text: if m.text.len() == 0 {
                a3
            } else {
                m.text
            },
            final_text: a3,
            ..m
        }
    } else {
        m
    };
    if m1.final_response is None {
        AggModel { final_response: Some(v), ..m1 }
    } else {
        m1
    }
}

/// The message of an error event: its `error.message` string, or a generic
/// wording.
pub open spec fn err_msg(v: JsonValue) -> Seq<char> {
    match spec_get(v, "error"@) {
        Some(e) => match spec_get_str(e, "message"@) {
            Some(s) => s,
            None => "Unknown error"@,
        },
        None => "Unknown error"@,
    }
}

/// One structured-protocol payload: citations are harvested from the whole
/// payload first, then the event acts according to its `type` string; a
/// payload without a `type` string but with an `output` member is taken as a
/// complete response document.
pub open spec fn structured_step(m: AggModel, v: JsonValue) -> AggModel {
    let m1 = AggModel { cites: cite_walk(m.cites, v), ..m };
    match spec_get_str(v, "type"@) {
        Some(t) => if t == "response.output_text.delta"@ {
            match spec_get(v, "delta"@) {
                Some(d) => emit_all(m1, emits_of_delta(d)),
                None => m1,
            }
        } else if t.len() >= "response.output_text.annotation"@.len() && t.take(
            "response.output_text.annotation"@.len() as int,
        ) == "response.output_text.annotation"@ {
            m1
        } else if t == "response.output_text"@ {
            match spec_get(v, "output"@) {
                Some(o) => emit_all(m1, nonempty_segs(o)),
                None => m1,
            }
        } else if t == "response.completed"@ {
            match spec_get(v, "response"@) {
                Some(r) => AggModel { final_response: Some(r), ..m1 },
                None => m1,
            }
        } else if t == "message"@ {
            message_step(m1, v)
        } else if t == "response.error"@ {
            AggModel { failed: Some(err_msg(v)), done: true, ..m1 }
        } else {
            m1
        },
        None => match spec_get(v, "output"@) {
            Some(_) => {
                let pc = parse_output_spec(v, m1.cites);
                AggModel {
                    cites: pc.1,
                    final_text: if pc.0.len() > 0 {
                        pc.0
                    } else {
                        m1.final_text
                    },
                    final_response: Some(v),
                    ..m1
                }
            },
            None => m1,
        },
    }
}

/// One element of a chat delta's `content` array: its fragments are
/// forwarded, then it feeds the citation walk.
pub open spec fn chat_items_fold(m: AggModel, items: Seq<JsonValue>) -> AggModel
    decreases items,
{
    if items.len() == 0 {
        m
    } else {
        let p = chat_items_fold(m, items.drop_last());
        let pe = emit_all(p, emits_of_delta(items.last()));
        AggModel { cites: cite_walk(pe.cites, items.last()), ..pe }
    }
}

/// One chat `delta` object: its `content` drives the fragment forwarding,
/// and its `citations`, `annotations` and `metadata` members feed the
/// citation walk.
pub open spec fn chat_delta_spec(m: AggModel, delta: JsonValue) -> AggModel {
    let m1 = match spec_get(delta, "content"@) {
        Some(c) => match c {
            JsonValue::Arr(items) => chat_items_fold(m, items@),
            JsonValue::Str(_) => emit_all(m, emits_of_delta(c)),
            _ => {
                let ma = emit_all(m, emits_of_delta(c));
                AggModel { cites: cite_walk(ma.cites, c), ..ma }
            },
        },
        None => m,
    };
    let m2 = match spec_get(delta, "citations"@) {
        Some(cv) => AggModel { cites: cite_walk(m1.cites, cv), ..m1 },
        None => m1,
    };
    let m3 = match spec_get(delta, "annotations"@) {
        Some(cv) => AggModel { cites: cite_walk(m2.cites, cv), ..m2 },
        None => m2,
    };
    match spec_get(delta, "metadata"@) {
        Some(cv) => AggModel { cites: cite_walk(m3.cites, cv), ..m3 },
        None => m3,
    }
}

/// One delta-choice payload: citations are harvested from the whole payload
/// first; the first choice's `delta` forwards fragments and its `message`
/// is retained; a payload without a `choices` array may instead seed the
/// text through the generic walk, when nothing streamed yet.
pub open spec fn chat_step(m: AggModel, v: JsonValue) -> AggModel {
    let mc = AggModel { cites: cite_walk(m.cites, v), ..m };
    match spec_get(v, "choices"@) {
        Some(JsonValue::Arr(choices)) => if choices@.len() > 0 {
            let c = choices@[0];
            let m2 = match spec_get(c, "delta"@) {
                Some(d) => chat_delta_spec(mc, d),
                None => mc,
            };
            match spec_get(c, "message"@) {
                Some(msg) => AggModel { final_message: Some(msg), ..m2 },
                None => m2,
            }
        } else {
            mc
        },
        Some(_) => chat_no_choices(mc, v),
        None => chat_no_choices(mc, v),
    }
}

/// A chat payload without a usable `choices` array: when nothing streamed
/// yet, the generic walk of the whole payload may seed the text, without
/// counting as displayed.
pub open spec fn chat_no_choices(mc: AggModel, v: JsonValue) -> AggModel {
    if mc.text.len() == 0 {
        match spec_text_from_response(v) {
            Some(t) => AggModel { text: t, ..mc },
            None => mc,
        }
    } else {
        mc
    }
}

/// The mutable state of one aggregation run.
pub struct RunState {
    pub accum: TextAccum,
    pub citations: Vec<Citation>,
    pub final_text: String,
    pub final_response: Option<JsonValue>,
    pub final_message: Option<JsonValue>,
    pub failed: Option<String>,
    pub done: bool,
}

/// The model of a run state.
pub open spec fn run_view(st: RunState) -> AggModel {
    AggModel {
        text: st.accum.buffer@,
        frags: views_of(st.accum.emitted@),
        displayed: st.accum.displayed,
        cites: cite_views(st.citations@),
        final_text: st.final_text@,
        final_response: st.final_response,
        final_message: st.final_message,
        failed: match st.failed {
            Some(s) => Some(s@),
            None => None,
        },
        done: st.done,
    }
}

impl RunState {
    /// A fresh run.
    pub fn new() -> (r: RunState)
        ensures
            run_view(r) == init_model(),
    {
        let r = RunState {
            accum: TextAccum::new(),
            citations: Vec::new(),
            final_text: String::new(),
            final_response: None,
            final_message: None,
            failed: None,
            done: false,
        };
        proof {
            assert(run_view(r) =~~= init_model());
        }
        r
    }
}

/// Applies one chat `delta` object to the run, per [`chat_delta_spec`].
pub fn process_chat_delta(delta: &JsonValue, st: &mut RunState)
    ensures
        run_view(*final(st)) == chat_delta_spec(run_view(*old(st)), *delta),
{
    let ghost m0 = run_view(*st);
    match delta.get("content") {
        Some(content) => {
            match content {
                JsonValue::Arr(items) => {
                    let ghost items_view = items@;
                    let n = items.len();
                    let mut i: usize = 0;
                    assert(items_view.take(0) =~= Seq::<JsonValue>::empty());
                    while i < n
                        invariant
                            i <= n,
                            n == items_view.len(),
                            items@ == items_view,
                            run_view(*st) == chat_items_fold(m0, items_view.take(i as int)),
                        decreases n - i,
                    {
                        handle_delta_value(&items[i], &mut st.accum);
                        crate::cite::collect_citations(&items[i], &mut st.citations);
                        proof {
                            assert(items_view.take(i + 1).drop_last() =~= items_view.take(
                                i as int,
                            ));
                            assert(items_view.take(i + 1).last() == items_view[i as int]);
                            assert(run_view(*st) =~~= chat_items_fold(m0, items_view.take(i + 1)));
                        }
                        i = i + 1;
                    }
                    assert(items_view.take(n as int) =~= items_view);
                },
                JsonValue::Str(s) => {
                    if !s.as_str().is_empty() {
                        let ghost prev_em = st.accum.emitted@;
                        let sc = s.clone();
                        let ghost scg = sc;
                        emit_fragment(&mut st.accum, sc);
                        proof {
                            crate::text::lemma_views_push(prev_em, scg);
                            assert(seq![s@].drop_last() =~= Seq::<Seq<char>>::empty());
                            assert(concat_frags(Seq::<Seq<char>>::empty())
                                == Seq::<char>::empty());
                            assert(seq![s@].last() == s@);
                            assert(concat_frags(seq![s@]) =~= s@);
                            assert(run_view(*st) =~~= emit_all(m0, emits_of_delta(*content)));
                        }
                    } else {
                        proof {
                            assert(run_view(*st) =~~= emit_all(m0, emits_of_delta(*content)));
                        }
                    }
                },
                _ => {
                    handle_delta_value(content, &mut st.accum);
                    crate::cite::collect_citations(content, &mut st.citations);
                    proof {
                        assert(run_view(*st) =~~= ({
                            let ma = emit_all(m0, emits_of_delta(*content));
                            AggModel { cites: cite_walk(ma.cites, *content), ..ma }
                        }));
                    }
                },
            }
        },
        None => {},
    }
    match delta.get("citations") {
        Some(cv) => crate::cite::collect_citations(cv, &mut st.citations),
        None => {},
    }
    match delta.get("annotations") {
        Some(cv) => crate::cite::collect_citations(cv, &mut st.citations),
        None => {},
    }
    match delta.get("metadata") {
        Some(cv) => crate::cite::collect_citations(cv, &mut st.citations),
        None => {},
    }
    proof {
        assert(run_view(*st) =~~= chat_delta_spec(m0, *delta));
    }
}

/// Applies a `message` event to the run, per [`message_step`]; consumes the
/// event so it can become the response snapshot.
fn apply_message_event(st: &mut RunState, v: JsonValue)
    ensures
        run_view(*final(st)) == message_step(run_view(*old(st)), v),
{
    let ghost m0 = run_view(*st);
    let mut agg = String::new();
    match v.get("content") {
        Some(content) => match content {
            JsonValue::Arr(parts) => {
                let ghost parts_view = parts@;
                let n = parts.len();
                let mut i: usize = 0;
                assert(parts_view.take(0) =~= Seq::<JsonValue>::empty());
                while i < n
                    invariant
                        i <= n,
                        n == parts_view.len(),
                        parts@ == parts_view,
                        agg@ == msg_parts_fold(parts_view.take(i as int)),
                    decreases n - i,
                {
                    let part = &parts[i];
                    match part.get("text") {
                        Some(t) => match t.as_str() {
                            Some(s) => agg.append(s.as_str()),
                            None => {},
                        },
                        None => {},
                    }
                    match part.get("text_delta") {
                        Some(t) => match t.as_str() {
                            Some(s) => agg.append(s.as_str()),
                            None => {},
                        },
                        None => {},
                    }
                    proof {
                        assert(parts_view.take(i + 1).drop_last() =~= parts_view.take(i as int));
                        assert(parts_view.take(i + 1).last() == parts_view[i as int]);
                        assert(agg@ =~= msg_parts_fold(parts_view.take(i + 1)));
                    }
                    i = i + 1;
                }
                assert(parts_view.take(n as int) =~= parts_view);
            },
            _ => {},
        },
        None => {},
    }
    assert(agg@ == msg_parts_text(v));
    if agg.as_str().is_empty() {
        match crate::text::extract_text_from_response(&v) {
            Some(t) => agg = t,
            None => {},
        }
    }
    if agg.as_str().is_empty() {
        agg = crate::render::to_json_string(&v);
    }
    if !agg.as_str().is_empty() {
        if st.accum.buffer.as_str().is_empty() {
            st.accum.buffer = agg.clone();
        }
        st.final_text = agg;
    }
    let has_response = match st.final_response {
        Some(_) => true,
        None => false,
    };
    if !has_response {
        st.final_response = Some(v);
    }
    proof {
        assert(run_view(*st) =~~= message_step(m0, v));
    }
}

/// Applies one structured-protocol payload to the run, per
/// [`structured_step`]; consumes the payload so that completed events can
/// keep their response snapshot.
pub fn structured_payload_step(st: &mut RunState, v: JsonValue)
    ensures
        run_view(*final(st)) == structured_step(run_view(*old(st)), v),
{
    let ghost m0 = run_view(*st);
    crate::cite::collect_citations(&v, &mut st.citations);
    let ghost m1 = AggModel { cites: cite_walk(m0.cites, v), ..m0 };
    assert(run_view(*st) =~~= m1);
    // decide the branch while only borrowing the payload
    let branch: u8 = {
        match v.get("type") {
            Some(t) => match t.as_str() {
                Some(ty) => {
                    if str_eq(ty.as_str(), "response.output_text.delta") {
                        0
                    } else if str_starts_with(ty.as_str(), "response.output_text.annotation") {
                        1
                    } else if str_eq(ty.as_str(), "response.output_text") {
                        2
                    } else if str_eq(ty.as_str(), "response.completed") {
                        3
                    } else if str_eq(ty.as_str(), "message") {
                        4
                    } else if str_eq(ty.as_str(), "response.error") {
                        5
                    } else {
                        6
                    }
                },
                None => 7,
            },
            None => 7,
        }
    };
    if branch == 0 {
        match v.get("delta") {
            Some(d) => {
                handle_delta_value(d, &mut st.accum);
                assert(run_view(*st) =~~= emit_all(m1, emits_of_delta(*d)));
            },
            None => {},
        }
    } else if branch == 2 {
        match v.get("output") {
            Some(o) => {
                emit_segments(o, &mut st.accum);
                assert(run_view(*st) =~~= emit_all(m1, nonempty_segs(*o)));
            },
            None => {},
        }
    } else if branch == 3 {
        match crate::json::take_member(v, "response") {
            Some(r) => {
                st.final_response = Some(r);
            },
            None => {},
        }
    } else if branch == 4 {
        apply_message_event(st, v);
    } else if branch == 5 {
        let msg: String = {
            match v.get("error") {
                Some(e) => match e.get("message") {
                    Some(mv) => match mv.as_str() {
                        Some(s) => s.clone(),
                        None => String::from_str("Unknown error"),
                    },
                    None => String::from_str("Unknown error"),
                },
                None => String::from_str("Unknown error"),
            }
        };
        st.failed = Some(msg);
        st.done = true;
    } else if branch == 7 {
        let has_output = match v.get("output") {
            Some(_) => true,
            None => false,
        };
        if has_output {
            let parsed = parse_response_output(&v, &mut st.citations);
            if !parsed.as_str().is_empty() {
                st.final_text = parsed;
            }
            st.final_response = Some(v);
        }
    }
    proof {
        assert(run_view(*st) =~~= structured_step(m0, v));
    }
}

/// Applies one delta-choice payload to the run, per [`chat_step`]; consumes
/// the payload so the final message can be retained.
pub fn chat_payload_step(st: &mut RunState, v: JsonValue)
    ensures
        run_view(*final(st)) == chat_step(run_view(*old(st)), v),
{
    let ghost m0 = run_view(*st);
    crate::cite::collect_citations(&v, &mut st.citations);
    let ghost mc = AggModel { cites: cite_walk(m0.cites, v), ..m0 };
    assert(run_view(*st) =~~= mc);
    let shape: u8 = {
        match v.get("choices") {
            Some(choices) => match choices {
                JsonValue::Arr(cv) => if cv.len() > 0 {
                    0
                } else {
                    1
                },
                _ => 2,
            },
            None => 2,
        }
    };
    if shape == 0 {
        match v.get("choices") {
            Some(choices) => match choices {
                JsonValue::Arr(cv) => {
                    let c = &cv[0];
                    match c.get("delta") {
                        Some(d) => process_chat_delta(d, st),
                        None => {},
                    }
                },
                _ => {},
            },
            None => {},
        }
        // retain the final message, taking the payload apart
        match crate::json::take_member(v, "choices") {
            Some(choices_owned) => match crate::json::take_first_elem(choices_owned) {
                Some(c0) => match crate::json::take_member(c0, "message") {
                    Some(msg) => {
                        st.final_message = Some(msg);
                    },
                    None => {},
                },
                None => {},
            },
            None => {},
        }
    } else if shape == 2 {
        if st.accum.buffer.as_str().is_empty() {
            match crate::text::extract_text_from_response(&v) {
                Some(content) => {
                    st.accum.buffer = content;
                },
                None => {},
            }
        }
    }
    proof {
        assert(run_view(*st) =~~= chat_step(m0, v));
    }
}

} // verus!
