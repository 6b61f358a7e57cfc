//! The aggregator's laws, stated and proved once over the model.
//!
//! Each law speaks about the same spec functions the executable functions'
//! contracts use, so what holds here holds of the running code.

use vstd::prelude::*;

use crate::adapter::{
    chat_delta_spec, chat_items_fold, chat_step, emit_all, emits_of_delta, init_model,
    message_step, structured_step, AggModel,
};
use crate::aggregate::{
    accept_byte, after_bytes, block_step, concat_chunks, deliver, feed, flush_model,
    lemma_emits_nonempty, lemma_feed_concat, resolve, resolve_structured, run_model, ResultModel,
    SplitModel,
};
use crate::adapter::{items_fold, parse_output_spec, parts_fold};
use crate::aggregate::resolve_chat;
use crate::cite::{cite_walk, distinct_urls, lemma_cite_walk_distinct};
use crate::events::{block_sem, SpecBlock};
use crate::json::{json_of, lossy_of, spec_get, spec_get_str, JsonValue};

verus! {

/// Chunk-boundary independence: the outcome of a run is a function of the
/// concatenated bytes alone, so two chunkings of the same stream — however
/// fine, even character by character — yield the same result, fragment
/// trace included.
pub proof fn lemma_chunk_boundary_independence(structured: bool, a: Seq<Seq<u8>>, b: Seq<Seq<u8>>)
    requires
        concat_chunks(a) == concat_chunks(b),
    ensures
        run_model(structured, concat_chunks(a)) == run_model(structured, concat_chunks(b)),
        flush_model(structured, after_bytes(structured, concat_chunks(a))).frags == flush_model(
            structured,
            after_bytes(structured, concat_chunks(b)),
        ).frags,
{
}

/// The concatenated views of a list of fragments.
pub open spec fn concat_views(fs: Seq<String>) -> Seq<char>
    decreases fs,
{
    if fs.len() == 0 {
        Seq::empty()
    } else {
        concat_views(fs.drop_last()) + fs.last()@
    }
}

/// A payload that is exactly one incremental text event carrying the
/// string fragment `f`.
pub open spec fn is_plain_delta_event(v: JsonValue, f: String) -> bool {
    &&& spec_get_str(v, "type"@) == Some("response.output_text.delta"@)
    &&& spec_get(v, "delta"@) == Some(JsonValue::Str(f))
}

/// The views of the non-empty fragments, in order.
pub open spec fn nonempty_views(fs: Seq<String>) -> Seq<Seq<char>>
    decreases fs,
{
    if fs.len() == 0 {
        Seq::empty()
    } else if fs.last()@.len() > 0 {
        nonempty_views(fs.drop_last()).push(fs.last()@)
    } else {
        nonempty_views(fs.drop_last())
    }
}

/// The aggregation state after a sequence of payloads, under the
/// structured-event adapter.
pub open spec fn structured_events_fold(m: AggModel, vs: Seq<JsonValue>) -> AggModel
    decreases vs,
{
    if vs.len() == 0 {
        m
    } else {
        structured_step(structured_events_fold(m, vs.drop_last()), vs.last())
    }
}

/// Delta concatenation: a stream of plain text-delta events with fragments
/// `f1 … fn` accumulates exactly `f1 + … + fn`, the sink receives exactly
/// the non-empty fragments in stream order, and — with nothing overriding
/// it — the resolved message is exactly that concatenation.
pub proof fn lemma_delta_concatenation(vs: Seq<JsonValue>, fs: Seq<String>)
    requires
        vs.len() == fs.len(),
        forall|i: int| 0 <= i < vs.len() ==> is_plain_delta_event(#[trigger] vs[i], fs[i]),
    ensures
        structured_events_fold(init_model(), vs).text == concat_views(fs),
        structured_events_fold(init_model(), vs).frags == nonempty_views(fs),
        resolve_structured(structured_events_fold(init_model(), vs)).message == concat_views(fs),
{
    lemma_delta_fold_shape(init_model(), vs, fs);
    let m = structured_events_fold(init_model(), vs);
    if m.text.len() == 0 {
        assert(resolve_structured(m).message =~= concat_views(fs));
    }
}

proof fn lemma_delta_fold_shape(m: AggModel, vs: Seq<JsonValue>, fs: Seq<String>)
    requires
        vs.len() == fs.len(),
        forall|i: int| 0 <= i < vs.len() ==> is_plain_delta_event(#[trigger] vs[i], fs[i]),
    ensures
        structured_events_fold(m, vs).text == m.text + concat_views(fs),
        structured_events_fold(m, vs).frags == m.frags + nonempty_views(fs),
        structured_events_fold(m, vs).final_text == m.final_text,
        structured_events_fold(m, vs).final_response == m.final_response,
        structured_events_fold(m, vs).failed == m.failed,
        structured_events_fold(m, vs).done == m.done,
    decreases vs.len(),
{
    if vs.len() == 0 {
        assert(m.text + concat_views(fs) =~= m.text);
        assert(m.frags + nonempty_views(fs) =~= m.frags);
    } else {
        assert(fs.drop_last().len() == vs.drop_last().len());
        assert(forall|i: int|
            0 <= i < vs.drop_last().len() ==> is_plain_delta_event(
                #[trigger] vs.drop_last()[i],
                fs.drop_last()[i],
            ));
        lemma_delta_fold_shape(m, vs.drop_last(), fs.drop_last());
        let p = structured_events_fold(m, vs.drop_last());
        let v = vs.last();
        let f = fs.last();
        assert(is_plain_delta_event(v, f));
        let p1 = AggModel { cites: crate::cite::cite_walk(p.cites, v), ..p };
        assert(structured_step(p, v) == emit_all(p1, emits_of_delta(JsonValue::Str(f))));
        if f@.len() > 0 {
            assert(emits_of_delta(JsonValue::Str(f)) =~= seq![f@]);
            assert(seq![f@].drop_last() =~= Seq::<Seq<char>>::empty());
            assert(crate::adapter::concat_frags(Seq::<Seq<char>>::empty())
                == Seq::<char>::empty());
            assert(seq![f@].last() == f@);
            assert(crate::adapter::concat_frags(seq![f@]) =~= f@);
            assert(structured_step(p, v).text =~= p.text + f@);
            assert(structured_step(p, v).frags =~= p.frags.push(f@));
            assert(m.frags + nonempty_views(fs) =~= (m.frags + nonempty_views(
                fs.drop_last(),
            )).push(f@));
        } else {
            assert(emits_of_delta(JsonValue::Str(f)) =~= Seq::<Seq<char>>::empty());
            assert(crate::adapter::concat_frags(Seq::<Seq<char>>::empty())
                == Seq::<char>::empty());
            assert(structured_step(p, v).text =~= p.text + f@);
            assert(structured_step(p, v).frags =~= p.frags);
            assert(m.frags + nonempty_views(fs) =~= m.frags + nonempty_views(fs.drop_last()));
        }
        assert(m.text + concat_views(fs) =~= m.text + concat_views(fs.drop_last()) + f@);
    }
}

/// Whether the displayed flag and the fragment trace agree: displayed holds
/// exactly when a fragment was forwarded, and no forwarded fragment is
/// empty.
pub open spec fn frags_wf(m: AggModel) -> bool {
    &&& m.displayed == (m.frags.len() > 0)
    &&& forall|i: int| 0 <= i < m.frags.len() ==> #[trigger] m.frags[i].len() > 0
}

proof fn lemma_emit_all_wf(m: AggModel, fs: Seq<Seq<char>>)
    requires
        frags_wf(m),
        forall|i: int| 0 <= i < fs.len() ==> #[trigger] fs[i].len() > 0,
    ensures
        frags_wf(emit_all(m, fs)),
{
    let m2 = emit_all(m, fs);
    assert(forall|i: int|
        0 <= i < m2.frags.len() ==> #[trigger] m2.frags[i].len() > 0) by {
        assert(forall|i: int|
            0 <= i < m2.frags.len() && i < m.frags.len() ==> #[trigger] m2.frags[i]
                == m.frags[i]);
        assert(forall|i: int|
            m.frags.len() <= i < m2.frags.len() ==> #[trigger] m2.frags[i] == fs[i
                - m.frags.len()]);
    }
}

proof fn lemma_chat_items_wf(m: AggModel, items: Seq<JsonValue>)
    requires
        frags_wf(m),
    ensures
        frags_wf(chat_items_fold(m, items)),
    decreases items,
{
    if items.len() > 0 {
        lemma_chat_items_wf(m, items.drop_last());
        let p = chat_items_fold(m, items.drop_last());
        lemma_emits_nonempty(items.last());
        lemma_emit_all_wf(p, emits_of_delta(items.last()));
    }
}

proof fn lemma_chat_delta_wf(m: AggModel, d: JsonValue)
    requires
        frags_wf(m),
    ensures
        frags_wf(chat_delta_spec(m, d)),
{
    match spec_get(d, "content"@) {
        Some(c) => match c {
            JsonValue::Arr(items) => {
                lemma_chat_items_wf(m, items@);
            },
            _ => {
                lemma_emits_nonempty(c);
                lemma_emit_all_wf(m, emits_of_delta(c));
            },
        },
        None => {},
    }
}

proof fn lemma_chat_step_wf(m: AggModel, v: JsonValue)
    requires
        frags_wf(m),
    ensures
        frags_wf(chat_step(m, v)),
{
    let mc = AggModel { cites: crate::cite::cite_walk(m.cites, v), ..m };
    match spec_get(v, "choices"@) {
        Some(JsonValue::Arr(choices)) => {
            if choices@.len() > 0 {
                match spec_get(choices@[0], "delta"@) {
                    Some(d) => {
                        lemma_chat_delta_wf(mc, d);
                    },
                    None => {},
                }
            }
        },
        Some(_) => {},
        None => {},
    }
}

proof fn lemma_structured_step_wf(m: AggModel, v: JsonValue)
    requires
        frags_wf(m),
    ensures
        frags_wf(structured_step(m, v)),
{
    let m1 = AggModel { cites: crate::cite::cite_walk(m.cites, v), ..m };
    match spec_get_str(v, "type"@) {
        Some(t) => {
            if t == "response.output_text.delta"@ {
                match spec_get(v, "delta"@) {
                    Some(d) => {
                        lemma_emits_nonempty(d);
                        lemma_emit_all_wf(m1, emits_of_delta(d));
                    },
                    None => {},
                }
            } else if t == "response.output_text"@ {
                match spec_get(v, "output"@) {
                    Some(o) => {
                        crate::aggregate::lemma_nonempty_segs_nonempty(o);
                        lemma_emit_all_wf(m1, crate::text::nonempty_segs(o));
                    },
                    None => {},
                }
            }
        },
        None => {},
    }
}

proof fn lemma_block_step_wf(structured: bool, m: AggModel, raw: Seq<u8>)
    requires
        frags_wf(m),
    ensures
        frags_wf(block_step(structured, m, raw)),
{
    if !m.done {
        match block_sem(lossy_of(raw)) {
            SpecBlock::Payload(p) => match json_of(p) {
                Some(v) => {
                    if structured {
                        lemma_structured_step_wf(m, v);
                    } else {
                        lemma_chat_step_wf(m, v);
                    }
                },
                None => {},
            },
            _ => {},
        }
    }
}

proof fn lemma_deliver_wf(structured: bool, s: SplitModel, b: u8)
    requires
        frags_wf(s.agg),
    ensures
        frags_wf(deliver(structured, s, b).agg),
{
    let c = s.carry.push(b);
    if c.len() >= 2 && c[c.len() - 1] == 10 && c[c.len() - 2] == 10 {
        lemma_block_step_wf(structured, s.agg, c.take(c.len() - 2));
    }
}

proof fn lemma_accept_wf(structured: bool, s: SplitModel, b: u8)
    requires
        frags_wf(s.agg),
    ensures
        frags_wf(accept_byte(structured, s, b).agg),
{
    if s.pending_cr {
        let s0 = SplitModel { pending_cr: false, ..s };
        if b == 10 {
            lemma_deliver_wf(structured, s0, 10);
        } else {
            lemma_deliver_wf(structured, s0, 13);
            let s1 = deliver(structured, s0, 13);
            if b != 13 {
                lemma_deliver_wf(structured, s1, b);
            }
        }
    } else if b != 13 {
        lemma_deliver_wf(structured, s, b);
    }
}

proof fn lemma_feed_wf(structured: bool, s: SplitModel, bs: Seq<u8>)
    requires
        frags_wf(s.agg),
    ensures
        frags_wf(feed(structured, s, bs).agg),
    decreases bs,
{
    if bs.len() > 0 {
        lemma_feed_wf(structured, s, bs.drop_last());
        lemma_accept_wf(structured, feed(structured, s, bs.drop_last()), bs.last());
    }
}

/// Displayed-flag correctness: over any stream, the displayed flag of the
/// finished state — the one the result carries — holds exactly when at
/// least one fragment was forwarded to the sink, and every forwarded
/// fragment is non-empty.
pub proof fn lemma_displayed_iff_fragment(structured: bool, bs: Seq<u8>)
    ensures
        frags_wf(flush_model(structured, after_bytes(structured, bs))),
        ({
            match run_model(structured, bs) {
                Ok(rm) => rm.displayed == (flush_model(
                    structured,
                    after_bytes(structured, bs),
                ).frags.len() > 0),
                Err(_) => true,
            }
        }),
{
    lemma_feed_wf(structured, crate::aggregate::init_split(), bs);
    let s = after_bytes(structured, bs);
    if s.pending_cr {
        let s0 = SplitModel { pending_cr: false, ..s };
        lemma_deliver_wf(structured, s0, 13);
        let s1 = deliver(structured, s0, 13);
        lemma_block_step_wf(structured, s1.agg, s1.carry);
    } else {
        lemma_block_step_wf(structured, s.agg, s.carry);
    }
}

proof fn lemma_feed_done(structured: bool, s: SplitModel, bs: Seq<u8>)
    requires
        s.agg.done,
    ensures
        feed(structured, s, bs).agg == s.agg,
    decreases bs,
{
    if bs.len() > 0 {
        lemma_feed_done(structured, s, bs.drop_last());
    }
}

/// Sentinel handling: once the stream is terminated — by the `[DONE]`
/// sentinel or an in-stream error — any bytes that still trail change
/// nothing: the outcome equals that of the stream cut at the termination.
pub proof fn lemma_sentinel_discards_trailing(structured: bool, bs: Seq<u8>, extra: Seq<u8>)
    requires
        after_bytes(structured, bs).agg.done,
    ensures
        run_model(structured, bs + extra) == run_model(structured, bs),
{
    lemma_feed_concat(structured, crate::aggregate::init_split(), bs, extra);
    lemma_feed_done(structured, after_bytes(structured, bs), extra);
}


proof fn lemma_parts_fold_distinct(
    txt: Seq<char>,
    cs: Seq<(Seq<char>, Option<Seq<char>>)>,
    parts: Seq<JsonValue>,
)
    requires
        distinct_urls(cs),
    ensures
        distinct_urls(parts_fold(txt, cs, parts).1),
    decreases parts,
{
    if parts.len() > 0 {
        lemma_parts_fold_distinct(txt, cs, parts.drop_last());
        lemma_cite_walk_distinct(parts_fold(txt, cs, parts.drop_last()).1, parts.last());
    }
}

proof fn lemma_items_fold_distinct(
    txt: Seq<char>,
    cs: Seq<(Seq<char>, Option<Seq<char>>)>,
    items: Seq<JsonValue>,
)
    requires
        distinct_urls(cs),
    ensures
        distinct_urls(items_fold(txt, cs, items).1),
    decreases items,
{
    if items.len() > 0 {
        lemma_items_fold_distinct(txt, cs, items.drop_last());
        let p = items_fold(txt, cs, items.drop_last());
        let item = items.last();
        if spec_get_str(item, "type"@) == Some("message"@) {
            match spec_get(item, "content"@) {
                Some(JsonValue::Arr(parts)) => {
                    lemma_parts_fold_distinct(p.0, p.1, parts@);
                },
                _ => {},
            }
        }
    }
}

proof fn lemma_structured_step_distinct(m: AggModel, v: JsonValue)
    requires
        distinct_urls(m.cites),
    ensures
        distinct_urls(structured_step(m, v).cites),
{
    lemma_cite_walk_distinct(m.cites, v);
    let m1 = AggModel { cites: cite_walk(m.cites, v), ..m };
    match spec_get_str(v, "type"@) {
        Some(_) => {},
        None => {
            if spec_get(v, "output"@) is Some {
                lemma_items_fold_distinct(Seq::empty(), m1.cites, match spec_get(v, "output"@) {
                    Some(JsonValue::Arr(items)) => items@,
                    _ => Seq::empty(),
                });
                if !(spec_get(v, "output"@) matches Some(JsonValue::Arr(_))) {
                    assert(parse_output_spec(v, m1.cites).1 == m1.cites);
                }
            }
        },
    }
}

proof fn lemma_chat_items_fold_distinct(m: AggModel, items: Seq<JsonValue>)
    requires
        distinct_urls(m.cites),
    ensures
        distinct_urls(chat_items_fold(m, items).cites),
    decreases items,
{
    if items.len() > 0 {
        lemma_chat_items_fold_distinct(m, items.drop_last());
        let p = chat_items_fold(m, items.drop_last());
        lemma_cite_walk_distinct(p.cites, items.last());
    }
}

proof fn lemma_chat_delta_distinct(m: AggModel, d: JsonValue)
    requires
        distinct_urls(m.cites),
    ensures
        distinct_urls(chat_delta_spec(m, d).cites),
{
    let m1 = match spec_get(d, "content"@) {
        Some(c) => match c {
            JsonValue::Arr(items) => {
                lemma_chat_items_fold_distinct(m, items@);
                chat_items_fold(m, items@)
            },
            JsonValue::Str(_) => emit_all(m, emits_of_delta(c)),
            _ => {
                lemma_cite_walk_distinct(m.cites, c);
                let ma = emit_all(m, emits_of_delta(c));
                AggModel { cites: cite_walk(ma.cites, c), ..ma }
            },
        },
        None => m,
    };
    let m2 = match spec_get(d, "citations"@) {
        Some(cv) => {
            lemma_cite_walk_distinct(m1.cites, cv);
            AggModel { cites: cite_walk(m1.cites, cv), ..m1 }
        },
        None => m1,
    };
    let m3 = match spec_get(d, "annotations"@) {
        Some(cv) => {
            lemma_cite_walk_distinct(m2.cites, cv);
            AggModel { cites: cite_walk(m2.cites, cv), ..m2 }
        },
        None => m2,
    };
    match spec_get(d, "metadata"@) {
        Some(cv) => {
            lemma_cite_walk_distinct(m3.cites, cv);
        },
        None => {},
    }
}

proof fn lemma_chat_step_distinct(m: AggModel, v: JsonValue)
    requires
        distinct_urls(m.cites),
    ensures
        distinct_urls(chat_step(m, v).cites),
{
    lemma_cite_walk_distinct(m.cites, v);
    let mc = AggModel { cites: cite_walk(m.cites, v), ..m };
    match spec_get(v, "choices"@) {
        Some(JsonValue::Arr(choices)) => {
            if choices@.len() > 0 {
                match spec_get(choices@[0], "delta"@) {
                    Some(d) => {
                        lemma_chat_delta_distinct(mc, d);
                    },
                    None => {},
                }
            }
        },
        Some(_) => {},
        None => {},
    }
}

proof fn lemma_block_step_distinct(structured: bool, m: AggModel, raw: Seq<u8>)
    requires
        distinct_urls(m.cites),
    ensures
        distinct_urls(block_step(structured, m, raw).cites),
{
    if !m.done {
        match block_sem(lossy_of(raw)) {
            SpecBlock::Payload(p) => match json_of(p) {
                Some(v) => {
                    if structured {
                        lemma_structured_step_distinct(m, v);
                    } else {
                        lemma_chat_step_distinct(m, v);
                    }
                },
                None => {},
            },
            _ => {},
        }
    }
}

proof fn lemma_deliver_distinct(structured: bool, s: SplitModel, b: u8)
    requires
        distinct_urls(s.agg.cites),
    ensures
        distinct_urls(deliver(structured, s, b).agg.cites),
{
    let c = s.carry.push(b);
    if c.len() >= 2 && c[c.len() - 1] == 10 && c[c.len() - 2] == 10 {
        lemma_block_step_distinct(structured, s.agg, c.take(c.len() - 2));
    }
}

proof fn lemma_accept_distinct(structured: bool, s: SplitModel, b: u8)
    requires
        distinct_urls(s.agg.cites),
    ensures
        distinct_urls(accept_byte(structured, s, b).agg.cites),
{
    if s.pending_cr {
        let s0 = SplitModel { pending_cr: false, ..s };
        if b == 10 {
            lemma_deliver_distinct(structured, s0, 10);
        } else {
            lemma_deliver_distinct(structured, s0, 13);
            let s1 = deliver(structured, s0, 13);
            if b != 13 {
                lemma_deliver_distinct(structured, s1, b);
            }
        }
    } else if b != 13 {
        lemma_deliver_distinct(structured, s, b);
    }
}

proof fn lemma_feed_distinct(structured: bool, s: SplitModel, bs: Seq<u8>)
    requires
        distinct_urls(s.agg.cites),
    ensures
        distinct_urls(feed(structured, s, bs).agg.cites),
    decreases bs,
{
    if bs.len() > 0 {
        lemma_feed_distinct(structured, s, bs.drop_last());
        lemma_accept_distinct(structured, feed(structured, s, bs.drop_last()), bs.last());
    }
}

/// Citation uniqueness: over any stream, under either protocol, the
/// citations of a successful outcome never carry the same URL twice — the
/// first occurrence of a URL keeps its place and its title, and every later
/// occurrence is skipped.
pub proof fn lemma_result_citations_distinct(structured: bool, bs: Seq<u8>)
    ensures
        match run_model(structured, bs) {
            Ok(rm) => distinct_urls(rm.citations),
            Err(_) => true,
        },
{
    lemma_feed_distinct(structured, crate::aggregate::init_split(), bs);
    let s = after_bytes(structured, bs);
    if s.pending_cr {
        let s0 = SplitModel { pending_cr: false, ..s };
        lemma_deliver_distinct(structured, s0, 13);
        let s1 = deliver(structured, s0, 13);
        lemma_block_step_distinct(structured, s1.agg, s1.carry);
    } else {
        lemma_block_step_distinct(structured, s.agg, s.carry);
    }
    let m = flush_model(structured, s);
    if m.failed is None {
        if structured {
            if m.final_text.len() == 0 && m.text.len() == 0 {
                match m.final_response {
                    Some(r) => {
                        lemma_items_fold_distinct(Seq::empty(), m.cites, match spec_get(
                            r,
                            "output"@,
                        ) {
                            Some(JsonValue::Arr(items)) => items@,
                            _ => Seq::empty(),
                        });
                        if !(spec_get(r, "output"@) matches Some(JsonValue::Arr(_))) {
                            assert(parse_output_spec(r, m.cites).1 == m.cites);
                        }
                        lemma_cite_walk_distinct(parse_output_spec(r, m.cites).1, r);
                    },
                    None => {},
                }
            }
            assert(distinct_urls(resolve_structured(m).citations));
        } else {
            match m.final_message {
                Some(msg) => {
                    lemma_cite_walk_distinct(m.cites, msg);
                },
                None => {},
            }
            assert(distinct_urls(resolve_chat(m).citations));
        }
    }
}


/// `m2`'s text extends `m`'s: the text only ever grows at the end.
pub open spec fn text_extended(m: AggModel, m2: AggModel) -> bool {
    m2.text.len() >= m.text.len() && m2.text.take(m.text.len() as int) == m.text
}

proof fn lemma_text_ext_trans(a: AggModel, b: AggModel, c: AggModel)
    requires
        text_extended(a, b),
        text_extended(b, c),
    ensures
        text_extended(a, c),
{
    assert(c.text.take(a.text.len() as int) =~= b.text.take(a.text.len() as int));
}

proof fn lemma_emit_all_text(m: AggModel, fs: Seq<Seq<char>>)
    ensures
        text_extended(m, emit_all(m, fs)),
{
    assert(emit_all(m, fs).text.take(m.text.len() as int) =~= m.text);
}

proof fn lemma_message_step_text(m: AggModel, v: JsonValue)
    ensures
        text_extended(m, message_step(m, v)),
{
    let m2 = message_step(m, v);
    assert(m2.text.take(m.text.len() as int) =~= m.text);
}

proof fn lemma_chat_items_text(m: AggModel, items: Seq<JsonValue>)
    ensures
        text_extended(m, chat_items_fold(m, items)),
    decreases items,
{
    if items.len() == 0 {
        assert(m.text.take(m.text.len() as int) =~= m.text);
    } else {
        lemma_chat_items_text(m, items.drop_last());
        let p = chat_items_fold(m, items.drop_last());
        lemma_emit_all_text(p, emits_of_delta(items.last()));
        let pe = emit_all(p, emits_of_delta(items.last()));
        lemma_text_ext_trans(m, p, pe);
        assert(chat_items_fold(m, items).text == pe.text);
    }
}

proof fn lemma_chat_delta_text(m: AggModel, d: JsonValue)
    ensures
        text_extended(m, chat_delta_spec(m, d)),
{
    assert(m.text.take(m.text.len() as int) =~= m.text);
    match spec_get(d, "content"@) {
        Some(c) => match c {
            JsonValue::Arr(items) => {
                lemma_chat_items_text(m, items@);
            },
            _ => {
                lemma_emit_all_text(m, emits_of_delta(c));
            },
        },
        None => {},
    }
}

proof fn lemma_structured_step_text(m: AggModel, v: JsonValue)
    ensures
        text_extended(m, structured_step(m, v)),
{
    assert(m.text.take(m.text.len() as int) =~= m.text);
    let m1 = AggModel { cites: cite_walk(m.cites, v), ..m };
    match spec_get_str(v, "type"@) {
        Some(t) => {
            if t == "response.output_text.delta"@ {
                match spec_get(v, "delta"@) {
                    Some(d) => {
                        lemma_emit_all_text(m1, emits_of_delta(d));
                    },
                    None => {},
                }
            } else if t == "response.output_text"@ {
                match spec_get(v, "output"@) {
                    Some(o) => {
                        lemma_emit_all_text(m1, crate::text::nonempty_segs(o));
                    },
                    None => {},
                }
            } else if t == "message"@ {
                lemma_message_step_text(m1, v);
            }
        },
        None => {},
    }
}

proof fn lemma_chat_step_text(m: AggModel, v: JsonValue)
    ensures
        text_extended(m, chat_step(m, v)),
{
    assert(m.text.take(m.text.len() as int) =~= m.text);
    let mc = AggModel { cites: cite_walk(m.cites, v), ..m };
    match spec_get(v, "choices"@) {
        Some(JsonValue::Arr(choices)) => {
            if choices@.len() > 0 {
                match spec_get(choices@[0], "delta"@) {
                    Some(d) => {
                        lemma_chat_delta_text(mc, d);
                    },
                    None => {},
                }
            }
        },
        Some(_) => {
            let r = crate::adapter::chat_no_choices(mc, v);
            assert(r.text.take(m.text.len() as int) =~= m.text);
        },
        None => {
            let r = crate::adapter::chat_no_choices(mc, v);
            assert(r.text.take(m.text.len() as int) =~= m.text);
        },
    }
}

proof fn lemma_block_step_text(structured: bool, m: AggModel, raw: Seq<u8>)
    ensures
        text_extended(m, block_step(structured, m, raw)),
{
    assert(m.text.take(m.text.len() as int) =~= m.text);
    if !m.done {
        match block_sem(lossy_of(raw)) {
            SpecBlock::Payload(p) => match json_of(p) {
                Some(v) => {
                    if structured {
                        lemma_structured_step_text(m, v);
                    } else {
                        lemma_chat_step_text(m, v);
                    }
                },
                None => {},
            },
            _ => {},
        }
    }
}

proof fn lemma_deliver_text(structured: bool, s: SplitModel, b: u8)
    ensures
        text_extended(s.agg, deliver(structured, s, b).agg),
{
    assert(s.agg.text.take(s.agg.text.len() as int) =~= s.agg.text);
    let c = s.carry.push(b);
    if c.len() >= 2 && c[c.len() - 1] == 10 && c[c.len() - 2] == 10 {
        lemma_block_step_text(structured, s.agg, c.take(c.len() - 2));
    }
}

proof fn lemma_accept_text(structured: bool, s: SplitModel, b: u8)
    ensures
        text_extended(s.agg, accept_byte(structured, s, b).agg),
{
    assert(s.agg.text.take(s.agg.text.len() as int) =~= s.agg.text);
    if s.pending_cr {
        let s0 = SplitModel { pending_cr: false, ..s };
        if b == 10 {
            lemma_deliver_text(structured, s0, 10);
        } else {
            lemma_deliver_text(structured, s0, 13);
            let s1 = deliver(structured, s0, 13);
            if b != 13 {
                lemma_deliver_text(structured, s1, b);
                lemma_text_ext_trans(s.agg, s1.agg, deliver(structured, s1, b).agg);
            }
        }
    } else if b != 13 {
        lemma_deliver_text(structured, s, b);
    }
}

/// The text only grows: over any run, each byte fed leaves the text already
/// accumulated unchanged in place — it is never truncated or rewritten.
pub proof fn lemma_text_append_only(structured: bool, s: SplitModel, bs: Seq<u8>)
    ensures
        text_extended(s.agg, feed(structured, s, bs).agg),
    decreases bs,
{
    if bs.len() == 0 {
        assert(s.agg.text.take(s.agg.text.len() as int) =~= s.agg.text);
    } else {
        lemma_text_append_only(structured, s, bs.drop_last());
        let sm = feed(structured, s, bs.drop_last());
        lemma_accept_text(structured, sm, bs.last());
        lemma_text_ext_trans(s.agg, sm.agg, accept_byte(structured, sm, bs.last()).agg);
    }
}

/// No complete block ever waits in the carry: two consecutive line feeds
/// never stand in it.
pub open spec fn carry_incomplete(c: Seq<u8>) -> bool {
    forall|i: int| 0 <= i < c.len() - 1 ==> !(#[trigger] c[i] == 10 && c[i + 1] == 10)
}

proof fn lemma_deliver_carry(structured: bool, s: SplitModel, b: u8)
    requires
        carry_incomplete(s.carry),
    ensures
        carry_incomplete(deliver(structured, s, b).carry),
{
    let c = s.carry.push(b);
    if !(c.len() >= 2 && c[c.len() - 1] == 10 && c[c.len() - 2] == 10) {
        assert forall|i: int|
            0 <= i < c.len() - 1 implies !(#[trigger] c[i] == 10 && c[i + 1] == 10) by {
            if i < c.len() - 2 {
                assert(c[i] == s.carry[i] && c[i + 1] == s.carry[i + 1]);
            }
        }
    }
}

proof fn lemma_accept_carry(structured: bool, s: SplitModel, b: u8)
    requires
        carry_incomplete(s.carry),
    ensures
        carry_incomplete(accept_byte(structured, s, b).carry),
{
    if s.pending_cr {
        let s0 = SplitModel { pending_cr: false, ..s };
        if b == 10 {
            lemma_deliver_carry(structured, s0, 10);
        } else {
            lemma_deliver_carry(structured, s0, 13);
            let s1 = deliver(structured, s0, 13);
            if b != 13 {
                lemma_deliver_carry(structured, s1, b);
            }
        }
    } else if b != 13 {
        lemma_deliver_carry(structured, s, b);
    }
}

/// A complete block is always drained before more bytes are awaited: after
/// any sequence of bytes, the carry holds no blank-line delimiter.
pub proof fn lemma_carry_never_complete(structured: bool, bs: Seq<u8>)
    ensures
        carry_incomplete(after_bytes(structured, bs).carry),
{
    lemma_feed_carry(structured, crate::aggregate::init_split(), bs);
}

proof fn lemma_feed_carry(structured: bool, s: SplitModel, bs: Seq<u8>)
    requires
        carry_incomplete(s.carry),
    ensures
        carry_incomplete(feed(structured, s, bs).carry),
    decreases bs,
{
    if bs.len() > 0 {
        lemma_feed_carry(structured, s, bs.drop_last());
        lemma_accept_carry(structured, feed(structured, s, bs.drop_last()), bs.last());
    }
}

} // verus!
