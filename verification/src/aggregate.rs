//! The streaming aggregator.
//!
//! Bytes arrive in chunks of arbitrary size. A byte-level transducer
//! normalizes `\r\n` to `\n`, a splitter cuts the normalized stream at blank
//! lines into event blocks, and each block feeds the active protocol
//! adapter. When the stream is exhausted, a left-over partial block is
//! flushed, and the final result is resolved with the fallback chain. The
//! whole pipeline is a function of the concatenated bytes alone, never of
//! where the chunks were cut.

use vstd::prelude::*;

use crate::adapter::{
    chat_payload_step, chat_step, init_model, run_view, structured_payload_step, structured_step,
    AggModel, RunState,
};
use crate::cite::{cite_views, Citation};
use crate::events::{block_outcome, block_outcome_view, block_sem, BlockOutcome, SpecBlock};
use crate::json::{json_of, lossy_of, parse_json, JsonValue};
use crate::render::json_text;
use crate::text::{spec_text_from_message, spec_text_from_response, views_of};

verus! {

/// The splitter's state: a pending carriage return, the unfinished block,
/// and the aggregation state behind it.
#[verifier::ext_equal]
pub struct SplitModel {
    pub pending_cr: bool,
    pub carry: Seq<u8>,
    pub agg: AggModel,
}

/// One raw event block reaches the adapter: nothing once the run is over;
/// otherwise the block is decoded and means a sentinel, a payload, or
/// nothing, and a payload that parses feeds the active adapter. A payload
/// that does not parse is skipped and the run goes on.
pub open spec fn block_step(structured: bool, m: AggModel, raw: Seq<u8>) -> AggModel {
    if m.done {
        m
    } else {
        match block_sem(lossy_of(raw)) {
            SpecBlock::Done => AggModel { done: true, ..m },
            SpecBlock::Skip => m,
            SpecBlock::Payload(p) => match json_of(p) {
                None => m,
                Some(v) => if structured {
                    structured_step(m, v)
                } else {
                    chat_step(m, v)
                },
            },
        }
    }
}

/// One normalized byte joins the carry; a second consecutive line feed
/// completes a block, which is processed at once.
pub open spec fn deliver(structured: bool, s: SplitModel, b: u8) -> SplitModel {
    let c = s.carry.push(b);
    if c.len() >= 2 && c[c.len() - 1] == 10 && c[c.len() - 2] == 10 {
        SplitModel {
            pending_cr: s.pending_cr,
            carry: Seq::empty(),
            agg: block_step(structured, s.agg, c.take(c.len() - 2)),
        }
    } else {
        SplitModel { carry: c, ..s }
    }
}

/// One raw byte: a carriage return is withheld; followed by a line feed the
/// pair collapses to one line feed, otherwise the carriage return passes
/// through unchanged.
pub open spec fn accept_byte(structured: bool, s: SplitModel, b: u8) -> SplitModel {
    if s.pending_cr {
        let s0 = SplitModel { pending_cr: false, ..s };
        if b == 10 {
            deliver(structured, s0, 10)
        } else {
            let s1 = deliver(structured, s0, 13);
            if b == 13 {
                SplitModel { pending_cr: true, ..s1 }
            } else {
                deliver(structured, s1, b)
            }
        }
    } else if b == 13 {
        SplitModel { pending_cr: true, ..s }
    } else {
        deliver(structured, s, b)
    }
}

/// The splitter state after a sequence of raw bytes.
pub open spec fn feed(structured: bool, s: SplitModel, bs: Seq<u8>) -> SplitModel
    decreases bs,
{
    if bs.len() == 0 {
        s
    } else {
        accept_byte(structured, feed(structured, s, bs.drop_last()), bs.last())
    }
}

/// The state a stream starts from.
pub open spec fn init_split() -> SplitModel {
    SplitModel { pending_cr: false, carry: Seq::empty(), agg: init_model() }
}

/// The splitter state after the whole stream so far.
pub open spec fn after_bytes(structured: bool, bs: Seq<u8>) -> SplitModel {
    feed(structured, init_split(), bs)
}

/// Feeding bytes composes: cutting a stream anywhere changes nothing.
pub proof fn lemma_feed_concat(structured: bool, s: SplitModel, a: Seq<u8>, b: Seq<u8>)
    ensures
        feed(structured, s, a + b) == feed(structured, feed(structured, s, a), b),
    decreases b.len(),
{
    if b.len() == 0 {
        assert(a + b =~= a);
    } else {
        assert((a + b).drop_last() =~= a + b.drop_last());
        assert((a + b).last() == b.last());
        lemma_feed_concat(structured, s, a, b.drop_last());
    }
}

/// At stream end: a withheld carriage return joins the carry, and the carry
/// is flushed as one final block (the block step ignores a blank one).
pub open spec fn flush_model(structured: bool, s: SplitModel) -> AggModel {
    let s1 = if s.pending_cr {
        deliver(structured, SplitModel { pending_cr: false, ..s }, 13)
    } else {
        s
    };
    block_step(structured, s1.agg, s1.carry)
}

/// The terminal outcome of one run.
#[verifier::ext_equal]
pub struct ResultModel {
    pub message: Seq<char>,
    pub citations: Seq<(Seq<char>, Option<Seq<char>>)>,
    pub displayed: bool,
}

/// The structured protocol's fallback chain: an established final text
/// wins; else non-empty streamed text; else the response snapshot is mined,
/// first by the output parse, then by the generic walk, then by serializing
/// it whole, and its citations are harvested once more.
pub open spec fn resolve_structured(m: AggModel) -> ResultModel {
    let stage1: (Seq<char>, Seq<(Seq<char>, Option<Seq<char>>)>) = if m.final_text.len() == 0 {
        if m.text.len() == 0 {
            match m.final_response {
                Some(r) => {
                    let pc = crate::adapter::parse_output_spec(r, m.cites);
                    let ft = if pc.0.len() > 0 {
                        pc.0
                    } else {
                        match spec_text_from_response(r) {
                            Some(t) => t,
                            None => Seq::empty(),
                        }
                    };
                    (ft, crate::cite::cite_walk(pc.1, r))
                },
                None => (Seq::empty(), m.cites),
            }
        } else {
            (m.text, m.cites)
        }
    } else {
        (m.final_text, m.cites)
    };
    let message = if stage1.0.len() == 0 {
        match m.final_response {
            Some(r) => match spec_text_from_response(r) {
                Some(t) => t,
                None => json_text(r),
            },
            None => Seq::empty(),
        }
    } else {
        stage1.0
    };
    ResultModel { message, citations: stage1.1, displayed: m.displayed }
}

/// The delta protocol's fallback chain: streamed text wins; else the final
/// message's content, then its generic walk, then its whole JSON text; the
/// final message is harvested for citations.
pub open spec fn resolve_chat(m: AggModel) -> ResultModel {
    match m.final_message {
        Some(msg) => {
            let t1 = if m.text.len() == 0 {
                match spec_text_from_message(msg) {
                    Some(c) => if c.len() > 0 {
                        c
                    } else {
                        m.text
                    },
                    None => m.text,
                }
            } else {
                m.text
            };
            let t2 = if t1.len() == 0 {
                match spec_text_from_response(msg) {
                    Some(t) => t,
                    None => json_text(msg),
                }
            } else {
                t1
            };
            ResultModel {
                message: t2,
                citations: crate::cite::cite_walk(m.cites, msg),
                displayed: m.displayed,
            }
        },
        None => ResultModel { message: m.text, citations: m.cites, displayed: m.displayed },
    }
}

/// What a finished run yields: the in-stream error where one arrived, else
/// the protocol's resolved result.
pub open spec fn resolve(structured: bool, m: AggModel) -> Result<ResultModel, Seq<char>> {
    match m.failed {
        Some(e) => Err(e),
        None => Ok(
            if structured {
                resolve_structured(m)
            } else {
                resolve_chat(m)
            },
        ),
    }
}

/// The outcome of one whole run over the concatenated stream bytes.
pub open spec fn run_model(structured: bool, bs: Seq<u8>) -> Result<ResultModel, Seq<char>> {
    resolve(structured, flush_model(structured, after_bytes(structured, bs)))
}


/// The terminal, immutable outcome of one aggregation run.
#[derive(Debug)]
pub struct WebSearchResult {
    /// The final message text.
    pub message: String,
    /// The harvested citations, URLs distinct, in first-seen order.
    pub citations: Vec<Citation>,
    /// Whether any fragment reached the caller's sink during the run.
    pub displayed: bool,
}

/// The view of a terminal result.
pub open spec fn result_view(r: WebSearchResult) -> ResultModel {
    ResultModel {
        message: r.message@,
        citations: cite_views(r.citations@),
        displayed: r.displayed,
    }
}

/// One streaming aggregation in progress: feed it chunks, then finish it.
pub struct WebAggregator {
    structured: bool,
    pending_cr: bool,
    carry: Vec<u8>,
    st: RunState,
    taken: usize,
    fed: Ghost<Seq<u8>>,
}

impl WebAggregator {
    /// Which protocol adapter this run interprets.
    pub closed spec fn protocol_structured(&self) -> bool {
        self.structured
    }

    /// Every byte fed so far, in order.
    pub closed spec fn stream_bytes(&self) -> Seq<u8> {
        self.fed@
    }

    /// The splitter state the aggregator is in.
    pub closed spec fn split_state(&self) -> SplitModel {
        SplitModel { pending_cr: self.pending_cr, carry: self.carry@, agg: run_view(self.st) }
    }

    /// How many fragments were already handed back from `push_chunk`.
    pub closed spec fn taken_count(&self) -> int {
        self.taken as int
    }

    /// The aggregator tracks its stream faithfully: its state is exactly the
    /// model state of the bytes fed so far, and it has handed back exactly
    /// the fragments emitted so far.
    pub open spec fn inv(&self) -> bool {
        &&& self.split_state() == after_bytes(self.protocol_structured(), self.stream_bytes())
        &&& self.taken_count() == self.split_state().agg.frags.len()
    }

    /// A fresh run for the chosen protocol.
    pub fn new(structured: bool) -> (r: WebAggregator)
        ensures
            r.inv(),
            r.protocol_structured() == structured,
            r.stream_bytes() == Seq::<u8>::empty(),
    {
        let r = WebAggregator {
            structured,
            pending_cr: false,
            carry: Vec::new(),
            st: RunState::new(),
            taken: 0,
            fed: Ghost(Seq::empty()),
        };
        proof {
            assert(r.split_state() =~~= init_split());
        }
        r
    }

    /// Whether the run is over: the sentinel arrived or an error event did.
    pub fn is_done(&self) -> (r: bool)
        ensures
            r == self.split_state().agg.done,
    {
        self.st.done
    }

    /// One completed raw block reaches the adapter.
    fn process_block(&mut self, block: &[u8])
        ensures
            run_view(final(self).st) == block_step(
                old(self).structured,
                run_view(old(self).st),
                block@,
            ),
            final(self).structured == old(self).structured,
            final(self).pending_cr == old(self).pending_cr,
            final(self).carry == old(self).carry,
            final(self).taken == old(self).taken,
            final(self).fed == old(self).fed,
    {
        if self.st.done {
            return ;
        }
        match block_outcome(block) {
            BlockOutcome::Done => {
                self.st.done = true;
                proof {
                    assert(run_view(self.st) =~~= AggModel {
                        done: true,
                        ..run_view(old(self).st)
                    });
                }
            },
            BlockOutcome::Skip => {},
            BlockOutcome::Payload(p) => {
                match parse_json(p.as_slice()) {
                    None => {},
                    Some(v) => {
                        if self.structured {
                            structured_payload_step(&mut self.st, v);
                        } else {
                            chat_payload_step(&mut self.st, v);
                        }
                    },
                }
            },
        }
    }

    /// One normalized byte joins the carry; a completed block is processed.
    fn deliver_byte(&mut self, b: u8)
        ensures
            final(self).split_state() == deliver(old(self).structured, old(self).split_state(), b),
            final(self).structured == old(self).structured,
            final(self).taken == old(self).taken,
            final(self).fed == old(self).fed,
    {
        self.carry.push(b);
        let n = self.carry.len();
        if n >= 2 && self.carry[n - 1] == 10 && self.carry[n - 2] == 10 {
            let block = crate::events::copy_range(self.carry.as_slice(), 0, n - 2);
            proof {
                assert(block@ =~= old(self).carry@.push(b).take(n - 2));
            }
            self.carry = Vec::new();
            self.process_block(block.as_slice());
            proof {
                assert(final(self).split_state() =~~= deliver(
                    old(self).structured,
                    old(self).split_state(),
                    b,
                ));
            }
        } else {
            proof {
                assert(final(self).split_state() =~~= deliver(
                    old(self).structured,
                    old(self).split_state(),
                    b,
                ));
            }
        }
    }

    /// One raw byte runs through the carriage-return transducer.
    fn accept_one(&mut self, b: u8)
        ensures
            final(self).split_state() == accept_byte(
                old(self).structured,
                old(self).split_state(),
                b,
            ),
            final(self).structured == old(self).structured,
            final(self).taken == old(self).taken,
            final(self).fed == old(self).fed,
    {
        if self.pending_cr {
            self.pending_cr = false;
            proof {
                assert(self.split_state() =~~= SplitModel {
                    pending_cr: false,
                    ..old(self).split_state()
                });
            }
            if b == 10 {
                self.deliver_byte(10);
            } else {
                self.deliver_byte(13);
                if b == 13 {
                    self.pending_cr = true;
                    proof {
                        assert(final(self).split_state() =~~= accept_byte(
                            old(self).structured,
                            old(self).split_state(),
                            b,
                        ));
                    }
                } else {
                    self.deliver_byte(b);
                }
            }
        } else if b == 13 {
            self.pending_cr = true;
            proof {
                assert(final(self).split_state() =~~= accept_byte(
                    old(self).structured,
                    old(self).split_state(),
                    b,
                ));
            }
        } else {
            self.deliver_byte(b);
        }
    }

    /// Hands back the fragments not yet drained.
    fn drain_new(&mut self) -> (frags: Vec<String>)
        requires
            old(self).taken as int <= old(self).st.accum.emitted@.len(),
        ensures
            final(self).structured == old(self).structured,
            final(self).pending_cr == old(self).pending_cr,
            final(self).carry == old(self).carry,
            final(self).st == old(self).st,
            final(self).fed == old(self).fed,
            final(self).taken as int == final(self).st.accum.emitted@.len(),
            views_of(frags@) == views_of(final(self).st.accum.emitted@).skip(
                old(self).taken as int,
            ),
    {
        let mut frags: Vec<String> = Vec::new();
        let ghost t0 = self.taken as int;
        let m = self.st.accum.emitted.len();
        proof {
            assert(views_of(frags@) =~= views_of(self.st.accum.emitted@).subrange(t0, t0));
        }
        while self.taken < m
            invariant
                t0 <= self.taken as int <= m,
                m == self.st.accum.emitted@.len(),
                self.structured == old(self).structured,
                self.pending_cr == old(self).pending_cr,
                self.carry == old(self).carry,
                self.st == old(self).st,
                self.fed == old(self).fed,
                views_of(frags@) == views_of(self.st.accum.emitted@).subrange(
                    t0,
                    self.taken as int,
                ),
            decreases m - self.taken,
        {
            let s = self.st.accum.emitted[self.taken].clone();
            let ghost sg = s;
            let ghost prev = frags@;
            frags.push(s);
            proof {
                crate::text::lemma_views_push(prev, sg);
                assert(views_of(frags@) =~= views_of(self.st.accum.emitted@).subrange(
                    t0,
                    self.taken + 1,
                ));
            }
            self.taken = self.taken + 1;
        }
        proof {
            assert(views_of(self.st.accum.emitted@).subrange(t0, m as int) =~= views_of(
                self.st.accum.emitted@,
            ).skip(t0));
        }
        frags
    }

    /// Feeds one chunk of raw bytes and returns the fragments this chunk
    /// caused, in the order they were forwarded.
    pub fn push_chunk(&mut self, chunk: &[u8]) -> (frags: Vec<String>)
        requires
            old(self).inv(),
        ensures
            final(self).inv(),
            final(self).protocol_structured() == old(self).protocol_structured(),
            final(self).stream_bytes() == old(self).stream_bytes() + chunk@,
            views_of(frags@) == final(self).split_state().agg.frags.skip(
                old(self).split_state().agg.frags.len() as int,
            ),
    {
        let ghost s0 = self.split_state();
        let ghost structured = self.structured;
        let n = chunk.len();
        let mut i: usize = 0;
        assert(chunk@.take(0) =~= Seq::<u8>::empty());
        while i < n
            invariant
                i <= n,
                n == chunk@.len(),
                self.split_state() == feed(structured, s0, chunk@.take(i as int)),
                self.structured == structured,
                self.taken == old(self).taken,
                self.fed == old(self).fed,
            decreases n - i,
        {
            self.accept_one(chunk[i]);
            proof {
                assert(chunk@.take(i + 1).drop_last() =~= chunk@.take(i as int));
                assert(chunk@.take(i + 1).last() == chunk@[i as int]);
            }
            i = i + 1;
        }
        proof {
            assert(chunk@.take(n as int) =~= chunk@);
            lemma_feed_concat(structured, init_split(), old(self).fed@, chunk@);
            lemma_feed_frags(structured, s0, chunk@);
        }
        self.fed = Ghost(self.fed@ + chunk@);
        self.drain_new()
    }

    /// Ends the stream: flushes a withheld carriage return and the final
    /// partial block, resolves the fallbacks, and yields the result together
    /// with any fragments the flush still caused — or the error that ended
    /// the run.
    pub fn finish(self) -> (r: Result<(WebSearchResult, Vec<String>), String>)
        requires
            self.inv(),
        ensures
            ({
                let outcome = run_model(self.protocol_structured(), self.stream_bytes());
                match r {
                    Ok((res, frags)) => {
                        &&& outcome matches Ok(rm) && result_view(res) == rm
                        &&& views_of(frags@) == flush_model(
                            self.protocol_structured(),
                            self.split_state(),
                        ).frags.skip(self.taken_count())
                    },
                    Err(e) => outcome matches Err(em) && em == e@,
                }
            }),
    {
        let WebAggregator { structured, pending_cr, carry, st, taken, fed } = self;
        let mut work = WebAggregator { structured, pending_cr, carry, st, taken, fed };
        let ghost s0 = work.split_state();
        if work.pending_cr {
            work.pending_cr = false;
            proof {
                assert(work.split_state() =~~= SplitModel { pending_cr: false, ..s0 });
            }
            work.deliver_byte(13);
        }
        let ghost s1 = work.split_state();
        let block = crate::events::copy_range(work.carry.as_slice(), 0, work.carry.len());
        proof {
            assert(block@ =~= s1.carry);
        }
        work.process_block(block.as_slice());
        proof {
            assert(run_view(work.st) == flush_model(structured, s0));
            lemma_flush_frags(structured, s0);
        }
        // hand back what the flush still emitted
        let mut frags: Vec<String> = Vec::new();
        let ghost t0 = work.taken as int;
        let m = work.st.accum.emitted.len();
        proof {
            assert(views_of(frags@) =~= views_of(work.st.accum.emitted@).subrange(t0, t0));
        }
        let mut k: usize = work.taken;
        while k < m
            invariant
                t0 <= k as int <= m,
                m == work.st.accum.emitted@.len(),
                views_of(frags@) == views_of(work.st.accum.emitted@).subrange(t0, k as int),
            decreases m - k,
        {
            let s = work.st.accum.emitted[k].clone();
            let ghost sg = s;
            let ghost prev = frags@;
            frags.push(s);
            proof {
                crate::text::lemma_views_push(prev, sg);
                assert(views_of(frags@) =~= views_of(work.st.accum.emitted@).subrange(
                    t0,
                    k + 1,
                ));
            }
            k = k + 1;
        }
        proof {
            assert(views_of(work.st.accum.emitted@).subrange(t0, m as int) =~= views_of(
                work.st.accum.emitted@,
            ).skip(t0));
        }
        let ghost fm = run_view(work.st);
        let RunState {
            accum,
            mut citations,
            mut final_text,
            final_response,
            final_message,
            failed,
            done: _,
        } = work.st;
        match failed {
            Some(e) => {
                return Err(e);
            },
            None => {},
        }
        if structured {
            if final_text.as_str().is_empty() {
                if accum.buffer.as_str().is_empty() {
                    match &final_response {
                        Some(resp) => {
                            let parsed = crate::adapter::parse_response_output(
                                resp,
                                &mut citations,
                            );
                            if !parsed.as_str().is_empty() {
                                final_text = parsed;
                            } else {
                                match crate::text::extract_text_from_response(resp) {
                                    Some(f) => {
                                        final_text = f;
                                    },
                                    None => {},
                                }
                            }
                            crate::cite::collect_citations(resp, &mut citations);
                        },
                        None => {},
                    }
                } else {
                    final_text = accum.buffer.clone();
                }
            }
            if final_text.as_str().is_empty() {
                match &final_response {
                    Some(resp) => {
                        match crate::text::extract_text_from_response(resp) {
                            Some(t) => {
                                final_text = t;
                            },
                            None => {
                                final_text = crate::render::to_json_string(resp);
                            },
                        }
                    },
                    None => {},
                }
            }
            let res = WebSearchResult {
                message: final_text,
                citations,
                displayed: accum.displayed,
            };
            proof {
                assert(result_view(res) =~~= resolve_structured(fm));
            }
            Ok((res, frags))
        } else {
            let mut message = accum.buffer;
            match &final_message {
                Some(msg) => {
                    if message.as_str().is_empty() {
                        match crate::text::extract_text_from_message(msg) {
                            Some(content) => {
                                if !content.as_str().is_empty() {
                                    message = content;
                                }
                            },
                            None => {},
                        }
                    }
                    if message.as_str().is_empty() {
                        match crate::text::extract_text_from_response(msg) {
                            Some(t) => {
                                message = t;
                            },
                            None => {
                                message = crate::render::to_json_string(msg);
                            },
                        }
                    }
                    crate::cite::collect_citations(msg, &mut citations);
                },
                None => {},
            }
            let res = WebSearchResult { message, citations, displayed: accum.displayed };
            proof {
                assert(result_view(res) =~~= resolve_chat(fm));
            }
            Ok((res, frags))
        }
    }
}

/// `m2` carries every fragment of `m`, unchanged and in place.
pub open spec fn frags_extended(m: AggModel, m2: AggModel) -> bool {
    &&& m2.frags.len() >= m.frags.len()
    &&& forall|i: int| 0 <= i < m.frags.len() ==> m2.frags[i] == m.frags[i]
}

pub proof fn lemma_emits_nonempty(d: JsonValue)
    ensures
        forall|i: int|
            0 <= i < crate::adapter::emits_of_delta(d).len()
                ==> #[trigger] crate::adapter::emits_of_delta(d)[i].len() > 0,
{
    match d {
        JsonValue::Str(_) => {},
        _ => {
            lemma_nonempty_segs_nonempty(d);
        },
    }
}

pub proof fn lemma_nonempty_segs_nonempty(v: JsonValue)
    ensures
        forall|i: int|
            0 <= i < crate::text::nonempty_segs(v).len()
                ==> #[trigger] crate::text::nonempty_segs(v)[i].len() > 0,
{
    assert forall|i: int|
        0 <= i < crate::text::nonempty_segs(v).len() implies #[trigger] crate::text::nonempty_segs(
        v,
    )[i].len() > 0 by {
        crate::text::seg_walk(v).lemma_filter_pred(
            |s: Seq<char>| crate::text::nonempty(s),
            i,
        );
    }
}


proof fn lemma_ext_trans(a: AggModel, b: AggModel, c: AggModel)
    requires
        frags_extended(a, b),
        frags_extended(b, c),
    ensures
        frags_extended(a, c),
{
}

proof fn lemma_emit_all_ext(m: AggModel, fs: Seq<Seq<char>>)
    ensures
        frags_extended(m, crate::adapter::emit_all(m, fs)),
{
}

proof fn lemma_chat_items_ext(m: AggModel, items: Seq<JsonValue>)
    ensures
        frags_extended(m, crate::adapter::chat_items_fold(m, items)),
    decreases items,
{
    if items.len() > 0 {
        lemma_chat_items_ext(m, items.drop_last());
        let p = crate::adapter::chat_items_fold(m, items.drop_last());
        lemma_emit_all_ext(p, crate::adapter::emits_of_delta(items.last()));
    }
}

proof fn lemma_chat_delta_ext(m: AggModel, d: JsonValue)
    ensures
        frags_extended(m, crate::adapter::chat_delta_spec(m, d)),
{
    match crate::json::spec_get(d, "content"@) {
        Some(c) => match c {
            JsonValue::Arr(items) => {
                lemma_chat_items_ext(m, items@);
            },
            _ => {
                lemma_emit_all_ext(m, crate::adapter::emits_of_delta(c));
            },
        },
        None => {},
    }
}

proof fn lemma_chat_step_ext(m: AggModel, v: JsonValue)
    ensures
        frags_extended(m, chat_step(m, v)),
{
    let mc = AggModel { cites: crate::cite::cite_walk(m.cites, v), ..m };
    match crate::json::spec_get(v, "choices"@) {
        Some(JsonValue::Arr(choices)) => {
            if choices@.len() > 0 {
                let c = choices@[0];
                match crate::json::spec_get(c, "delta"@) {
                    Some(d) => {
                        lemma_chat_delta_ext(mc, d);
                    },
                    None => {},
                }
            }
        },
        Some(_) => {},
        None => {},
    }
}

proof fn lemma_structured_step_ext(m: AggModel, v: JsonValue)
    ensures
        frags_extended(m, structured_step(m, v)),
{
    let m1 = AggModel { cites: crate::cite::cite_walk(m.cites, v), ..m };
    match crate::json::spec_get_str(v, "type"@) {
        Some(t) => {
            if t == "response.output_text.delta"@ {
                match crate::json::spec_get(v, "delta"@) {
                    Some(d) => {
                        lemma_emit_all_ext(m1, crate::adapter::emits_of_delta(d));
                    },
                    None => {},
                }
            } else if t == "response.output_text"@ {
                match crate::json::spec_get(v, "output"@) {
                    Some(o) => {
                        lemma_emit_all_ext(m1, crate::text::nonempty_segs(o));
                    },
                    None => {},
                }
            }
        },
        None => {},
    }
}

proof fn lemma_block_step_ext(structured: bool, m: AggModel, raw: Seq<u8>)
    ensures
        frags_extended(m, block_step(structured, m, raw)),
{
    if !m.done {
        match block_sem(lossy_of(raw)) {
            SpecBlock::Payload(p) => match json_of(p) {
                Some(v) => {
                    if structured {
                        lemma_structured_step_ext(m, v);
                    } else {
                        lemma_chat_step_ext(m, v);
                    }
                },
                None => {},
            },
            _ => {},
        }
    }
}

proof fn lemma_deliver_ext(structured: bool, s: SplitModel, b: u8)
    ensures
        frags_extended(s.agg, deliver(structured, s, b).agg),
{
    let c = s.carry.push(b);
    if c.len() >= 2 && c[c.len() - 1] == 10 && c[c.len() - 2] == 10 {
        lemma_block_step_ext(structured, s.agg, c.take(c.len() - 2));
    }
}

proof fn lemma_accept_ext(structured: bool, s: SplitModel, b: u8)
    ensures
        frags_extended(s.agg, accept_byte(structured, s, b).agg),
{
    if s.pending_cr {
        let s0 = SplitModel { pending_cr: false, ..s };
        if b == 10 {
            lemma_deliver_ext(structured, s0, 10);
        } else {
            lemma_deliver_ext(structured, s0, 13);
            let s1 = deliver(structured, s0, 13);
            if b != 13 {
                lemma_deliver_ext(structured, s1, b);
                lemma_ext_trans(s.agg, s1.agg, deliver(structured, s1, b).agg);
            }
        }
    } else if b != 13 {
        lemma_deliver_ext(structured, s, b);
    }
}

/// Feeding bytes only ever appends fragments: every fragment already
/// forwarded stays, unchanged and in place.
pub proof fn lemma_feed_frags(structured: bool, s: SplitModel, bs: Seq<u8>)
    ensures
        frags_extended(s.agg, feed(structured, s, bs).agg),
    decreases bs,
{
    if bs.len() > 0 {
        lemma_feed_frags(structured, s, bs.drop_last());
        let sm = feed(structured, s, bs.drop_last());
        lemma_accept_ext(structured, sm, bs.last());
        lemma_ext_trans(s.agg, sm.agg, accept_byte(structured, sm, bs.last()).agg);
    }
}

/// The final flush only ever appends fragments.
pub proof fn lemma_flush_frags(structured: bool, s: SplitModel)
    ensures
        frags_extended(s.agg, flush_model(structured, s)),
{
    if s.pending_cr {
        let s0 = SplitModel { pending_cr: false, ..s };
        lemma_deliver_ext(structured, s0, 13);
        let s1 = deliver(structured, s0, 13);
        lemma_block_step_ext(structured, s1.agg, s1.carry);
        lemma_ext_trans(s.agg, s1.agg, block_step(structured, s1.agg, s1.carry));
    } else {
        lemma_block_step_ext(structured, s.agg, s.carry);
    }
}


/// The concatenation of a sequence of chunks.
pub open spec fn concat_chunks(cs: Seq<Seq<u8>>) -> Seq<u8>
    decreases cs,
{
    if cs.len() == 0 {
        Seq::empty()
    } else {
        concat_chunks(cs.drop_last()) + cs.last()
    }
}

/// Runs one whole aggregation over a list of byte chunks: the result, and
/// the full sink trace, are those of the concatenated bytes — the chunk
/// boundaries leave no mark.
#[verifier::rlimit(100)]
pub fn aggregate_stream(chunks: &Vec<Vec<u8>>, structured: bool) -> (r: Result<
    (WebSearchResult, Vec<String>),
    String,
>)
    ensures
        ({
            let bs = concat_chunks(crate::events::byte_views(chunks@));
            let outcome = run_model(structured, bs);
            match r {
                Ok((res, frags)) => {
                    &&& outcome matches Ok(rm) && result_view(res) == rm
                    &&& views_of(frags@) == flush_model(
                        structured,
                        after_bytes(structured, bs),
                    ).frags
                },
                Err(e) => outcome matches Err(em) && em == e@,
            }
        }),
{
    let ghost chunk_views = crate::events::byte_views(chunks@);
    let mut agg = WebAggregator::new(structured);
    let mut all: Vec<String> = Vec::new();
    let n = chunks.len();
    let mut i: usize = 0;
    proof {
        assert(chunk_views.take(0) =~= Seq::<Seq<u8>>::empty());
        assert(agg.stream_bytes() =~= concat_chunks(chunk_views.take(0)));
        assert(agg.split_state() =~~= init_split());
        assert(views_of(all@) =~= agg.split_state().agg.frags);
    }
    while i < n
        invariant
            i <= n,
            n == chunk_views.len(),
            crate::events::byte_views(chunks@) == chunk_views,
            agg.inv(),
            agg.protocol_structured() == structured,
            agg.stream_bytes() == concat_chunks(chunk_views.take(i as int)),
            views_of(all@) == agg.split_state().agg.frags,
        decreases n - i,
    {
        let ghost pre_bytes = agg.stream_bytes();
        let ghost pre_frags = agg.split_state().agg.frags;
        let mut fs = agg.push_chunk(chunks[i].as_slice());
        let ghost fs_views = views_of(fs@);
        let ghost prev_all = views_of(all@);
        proof {
            assert(chunk_views.take(i + 1).drop_last() =~= chunk_views.take(i as int));
            assert(chunk_views.take(i + 1).last() == chunks@[i as int]@);
            lemma_feed_concat(structured, init_split(), pre_bytes, chunks@[i as int]@);
            lemma_feed_frags(structured, after_bytes(structured, pre_bytes), chunks@[i as int]@);
        }
        all.append(&mut fs);
        proof {
            let newf = agg.split_state().agg.frags;
            assert(views_of(all@) =~= prev_all + fs_views);
            assert(newf =~= pre_frags + newf.skip(pre_frags.len() as int));
            assert(views_of(all@) =~= newf);
        }
        i = i + 1;
    }
    proof {
        assert(chunk_views.take(n as int) =~= chunk_views);
    }
    let ghost split_end = agg.split_state();
    let ghost taken_end = agg.taken_count();
    match agg.finish() {
        Ok((res, mut fl)) => {
            let ghost fl_views = views_of(fl@);
            let ghost prev_all = views_of(all@);
            proof {
                lemma_flush_frags(structured, split_end);
            }
            all.append(&mut fl);
            proof {
                let fm = flush_model(structured, split_end);
                assert(views_of(all@) =~= prev_all + fl_views);
                assert(fm.frags =~= split_end.agg.frags + fm.frags.skip(taken_end));
                assert(views_of(all@) =~= fm.frags);
            }
            Ok((res, all))
        },
        Err(e) => Err(e),
    }
}

} // verus!
