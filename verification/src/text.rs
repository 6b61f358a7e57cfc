//! The generic text-segment walk.
//!
//! Both protocol adapters and the end-of-stream fallback pull human-readable
//! text out of arbitrary JSON payloads with the same recursive walk: strings
//! under a `text` key (when the sibling `type` does not mark them as something
//! else) and under a `text_delta` key are collected in document order.

use vstd::prelude::*;

use crate::json::{spec_get, spec_get_str, spec_obj_get, str_eq, JsonValue};

verus! {

/// The views of a sequence of strings.
pub open spec fn views_of(ss: Seq<String>) -> Seq<Seq<char>> {
    ss.map_values(|s: String| s@)
}

/// Appending one string appends its view.
pub proof fn lemma_views_push(ss: Seq<String>, s: String)
    ensures
        views_of(ss.push(s)) == views_of(ss).push(s@),
{
    assert(views_of(ss.push(s)) =~= views_of(ss).push(s@));
}

/// Whether an object's `type` member lets its `text` member count as a
/// segment: yes when `type` is absent or not a string, empty, or one of the
/// text-bearing kinds.
pub open spec fn seg_type_ok(entries: Seq<(String, JsonValue)>) -> bool {
    match spec_obj_get(entries, "type"@) {
        Some(JsonValue::Str(ty)) => ty@.len() == 0 || ty@ == "output_text"@ || ty@ == "text"@
            || ty@ == "summary_text"@ || ty@ == "output"@,
        Some(_) => true,
        None => true,
    }
}

/// The segments an object contributes by itself: its `text` member (subject
/// to the `type` check), then its `text_delta` member, both only when they
/// are strings.
pub open spec fn own_segs(entries: Seq<(String, JsonValue)>) -> Seq<Seq<char>> {
    let t: Seq<Seq<char>> = match spec_obj_get(entries, "text"@) {
        Some(JsonValue::Str(s)) => if seg_type_ok(entries) {
            seq![s@]
        } else {
            Seq::empty()
        },
        _ => Seq::empty(),
    };
    let d: Seq<Seq<char>> = match spec_obj_get(entries, "text_delta"@) {
        Some(JsonValue::Str(s)) => seq![s@],
        _ => Seq::empty(),
    };
    t + d
}

/// Whether the walk recurses into a member by its name alone.
pub open spec fn rec_key(k: Seq<char>) -> bool {
    k == "content"@ || k == "messages"@ || k == "output"@ || k == "choices"@ || k == "items"@
        || k == "parts"@
}

/// Every text segment below `v`, in document order; empty strings included.
pub open spec fn seg_walk(v: JsonValue) -> Seq<Seq<char>>
    decreases v,
{
    match v {
        JsonValue::Obj(entries) => own_segs(entries@) + seg_walk_entries(entries@),
        JsonValue::Arr(items) => seg_walk_items(items@),
        _ => Seq::empty(),
    }
}

/// The segments the members of an object contribute, member by member.
pub open spec fn seg_walk_entries(entries: Seq<(String, JsonValue)>) -> Seq<Seq<char>>
    decreases entries,
{
    if entries.len() == 0 {
        Seq::empty()
    } else {
        seg_walk_entries(entries.drop_last()) + entry_segs(entries.last())
    }
}

/// What one object member contributes: nothing for the `text` and
/// `text_delta` members themselves, a recursive walk for the container-like
/// member names, and a recursive walk of any other object or array value.
pub open spec fn entry_segs(e: (String, JsonValue)) -> Seq<Seq<char>>
    decreases e,
{
    if e.0@ == "text"@ || e.0@ == "text_delta"@ {
        Seq::empty()
    } else if rec_key(e.0@) {
        seg_walk(e.1)
    } else {
        match e.1 {
            JsonValue::Arr(_) => seg_walk(e.1),
            JsonValue::Obj(_) => seg_walk(e.1),
            _ => Seq::empty(),
        }
    }
}

/// The segments of the elements of an array, element by element.
pub open spec fn seg_walk_items(items: Seq<JsonValue>) -> Seq<Seq<char>>
    decreases items,
{
    if items.len() == 0 {
        Seq::empty()
    } else {
        seg_walk_items(items.drop_last()) + seg_walk(items.last())
    }
}

/// Whether a segment is non-empty.
pub open spec fn nonempty(s: Seq<char>) -> bool {
    s.len() > 0
}

/// The non-empty text segments below `v`, in document order.
pub open spec fn nonempty_segs(v: JsonValue) -> Seq<Seq<char>> {
    seg_walk(v).filter(|s: Seq<char>| nonempty(s))
}

/// The segments joined by one blank line.
pub open spec fn join_blank(segs: Seq<Seq<char>>) -> Seq<char>
    decreases segs,
{
    if segs.len() == 0 {
        Seq::empty()
    } else if segs.len() == 1 {
        segs[0]
    } else {
        join_blank(segs.drop_last()) + seq!['\n', '\n'] + segs.last()
    }
}

/// The text the generic walk recovers from a whole value: the non-empty
/// segments joined by blank lines, or `None` where there are none.
pub open spec fn spec_text_from_response(v: JsonValue) -> Option<Seq<char>> {
    if nonempty_segs(v).len() == 0 {
        None
    } else {
        Some(join_blank(nonempty_segs(v)))
    }
}

/// The text recovered from a final chat message: its `content` member taken
/// verbatim when it is a string, otherwise whatever the generic walk finds in
/// it.
pub open spec fn spec_text_from_message(m: JsonValue) -> Option<Seq<char>> {
    match spec_get(m, "content"@) {
        Some(JsonValue::Str(s)) => Some(s@),
        Some(c) => spec_text_from_response(c),
        None => None,
    }
}

impl JsonValue {
    /// Whether the generic walk recurses into this value at all.
    fn is_container(&self) -> (r: bool)
        ensures
            r == (self matches JsonValue::Arr(_) || self matches JsonValue::Obj(_)),
    {
        match self {
            JsonValue::Arr(_) => true,
            JsonValue::Obj(_) => true,
            _ => false,
        }
    }
}

/// Decides [`seg_type_ok`] for an object's members.
fn seg_type_ok_exec(v: &JsonValue, Ghost(entries): Ghost<Seq<(String, JsonValue)>>) -> (r: bool)
    requires
        *v matches JsonValue::Obj(e) && e@ == entries,
    ensures
        r == seg_type_ok(entries),
{
    match v.get("type") {
        Some(t) => match t.as_str() {
            Some(ty) => {
                ty.as_str().is_empty() || str_eq(ty.as_str(), "output_text") || str_eq(
                    ty.as_str(),
                    "text",
                ) || str_eq(ty.as_str(), "summary_text") || str_eq(ty.as_str(), "output")
            },
            None => true,
        },
        None => true,
    }
}

/// Appends every text segment below `v` to `segments`, in document order,
/// exactly as [`seg_walk`] lays them out.
pub fn collect_text_segments(v: &JsonValue, segments: &mut Vec<String>)
    ensures
        views_of(final(segments)@) == views_of(old(segments)@) + seg_walk(*v),
    decreases *v,
{
    match v {
        JsonValue::Obj(entries) => {
            let ghost entries_view = entries@;
            match v.get("text") {
                Some(t) => match t.as_str() {
                    Some(s) => {
                        if seg_type_ok_exec(v, Ghost(entries_view)) {
                            let c = s.clone();
                            segments.push(c);
                        }
                    },
                    None => {},
                },
                None => {},
            }
            match v.get("text_delta") {
                Some(t) => match t.as_str() {
                    Some(s) => {
                        let c = s.clone();
                        segments.push(c);
                    },
                    None => {},
                },
                None => {},
            }
            assert(views_of(segments@) =~= views_of(old(segments)@) + own_segs(entries_view));
            let ghost mid = segments@;
            let n = entries.len();
            let mut i: usize = 0;
            assert(entries_view.take(0) =~= Seq::<(String, JsonValue)>::empty());
            while i < n
                invariant
                    i <= n,
                    n == entries_view.len(),
                    entries@ == entries_view,
                    views_of(segments@) == views_of(mid) + seg_walk_entries(
                        entries_view.take(i as int),
                    ),
                decreases n - i,
            {
                let k = &entries[i].0;
                let val = &entries[i].1;
                if str_eq(k.as_str(), "text") || str_eq(k.as_str(), "text_delta") {
                    // contributes nothing beyond the object's own segments
                } else if str_eq(k.as_str(), "content") || str_eq(k.as_str(), "messages")
                    || str_eq(k.as_str(), "output") || str_eq(k.as_str(), "choices") || str_eq(
                    k.as_str(),
                    "items",
                ) || str_eq(k.as_str(), "parts") {
                    collect_text_segments(val, segments);
                } else if val.is_container() {
                    collect_text_segments(val, segments);
                }
                proof {
                    assert(entries_view.take(i + 1).drop_last() =~= entries_view.take(i as int));
                    assert(entries_view.take(i + 1).last() == entries_view[i as int]);
                    assert(seg_walk_entries(entries_view.take(i + 1)) == seg_walk_entries(
                        entries_view.take(i as int),
                    ) + entry_segs(entries_view[i as int]));
                    assert(views_of(segments@) =~= views_of(mid) + seg_walk_entries(
                        entries_view.take(i + 1),
                    ));
                }
                i = i + 1;
            }
            assert(entries_view.take(n as int) =~= entries_view);
            assert(views_of(segments@) =~= views_of(old(segments)@) + seg_walk(*v));
        },
        JsonValue::Arr(items) => {
            let ghost items_view = items@;
            let n = items.len();
            let mut i: usize = 0;
            assert(items_view.take(0) =~= Seq::<JsonValue>::empty());
            while i < n
                invariant
                    i <= n,
                    n == items_view.len(),
                    items@ == items_view,
                    views_of(segments@) == views_of(old(segments)@) + seg_walk_items(
                        items_view.take(i as int),
                    ),
                decreases n - i,
            {
                collect_text_segments(&items[i], segments);
                proof {
                    assert(items_view.take(i + 1).drop_last() =~= items_view.take(i as int));
                    assert(items_view.take(i + 1).last() == items_view[i as int]);
                    assert(views_of(segments@) =~= views_of(old(segments)@) + seg_walk_items(
                        items_view.take(i + 1),
                    ));
                }
                i = i + 1;
            }
            assert(items_view.take(n as int) =~= items_view);
        },
        _ => {
            assert(views_of(segments@) =~= views_of(old(segments)@) + seg_walk(*v));
        },
    }
}

proof fn lemma_filter_push(s: Seq<Seq<char>>, x: Seq<char>)
    ensures
        s.push(x).filter(|t: Seq<char>| nonempty(t)) == if nonempty(x) {
            s.filter(|t: Seq<char>| nonempty(t)).push(x)
        } else {
            s.filter(|t: Seq<char>| nonempty(t))
        },
{
    reveal(Seq::filter);
    assert(s.push(x).drop_last() =~= s);
    assert(s.push(x).last() == x);
}

/// The non-empty text segments below `v`, in document order.
pub fn extract_text_segments_list(v: &JsonValue) -> (r: Vec<String>)
    ensures
        views_of(r@) == nonempty_segs(*v),
{
    let mut all: Vec<String> = Vec::new();
    collect_text_segments(v, &mut all);
    assert(views_of(all@) =~= seg_walk(*v));
    let mut out: Vec<String> = Vec::new();
    let n = all.len();
    let mut i: usize = 0;
    proof {
        reveal(Seq::filter);
        assert(views_of(all@).take(0) =~= Seq::<Seq<char>>::empty());
    }
    while i < n
        invariant
            i <= n,
            n == all@.len(),
            views_of(all@) == seg_walk(*v),
            views_of(out@) == views_of(all@).take(i as int).filter(|t: Seq<char>| nonempty(t)),
        decreases n - i,
    {
        let s = &all[i];
        proof {
            assert(views_of(all@).take(i + 1).drop_last() =~= views_of(all@).take(i as int));
            assert(views_of(all@).take(i + 1).last() == all@[i as int]@);
            lemma_filter_push(views_of(all@).take(i as int), all@[i as int]@);
        }
        if !s.as_str().is_empty() {
            let c = s.clone();
            out.push(c);
            assert(views_of(out@) =~= views_of(all@).take(i + 1).filter(
                |t: Seq<char>| nonempty(t),
            ));
        } else {
            assert(views_of(out@) =~= views_of(all@).take(i + 1).filter(
                |t: Seq<char>| nonempty(t),
            ));
        }
        i = i + 1;
    }
    assert(views_of(all@).take(n as int) =~= views_of(all@));
    out
}

/// Joins segments with one blank line between each pair, as [`join_blank`].
pub fn join_segments(segs: &Vec<String>) -> (r: String)
    ensures
        r@ == join_blank(views_of(segs@)),
{
    let mut out = String::new();
    let n = segs.len();
    let mut i: usize = 0;
    assert(views_of(segs@).take(0) =~= Seq::<Seq<char>>::empty());
    while i < n
        invariant
            i <= n,
            n == segs@.len(),
            out@ == join_blank(views_of(segs@).take(i as int)),
        decreases n - i,
    {
        if i > 0 {
            crate::json::push_char(&mut out, '\n');
            crate::json::push_char(&mut out, '\n');
        }
        out.append(segs[i].as_str());
        proof {
            assert(views_of(segs@).take(i + 1).drop_last() =~= views_of(segs@).take(i as int));
            assert(views_of(segs@).take(i + 1).last() == segs@[i as int]@);
            assert(out@ =~= join_blank(views_of(segs@).take(i + 1)));
        }
        i = i + 1;
    }
    assert(views_of(segs@).take(n as int) =~= views_of(segs@));
    out
}

/// The text the generic walk recovers from `v`, per
/// [`spec_text_from_response`].
pub fn extract_text_from_response(v: &JsonValue) -> (r: Option<String>)
    ensures
        match r {
            Some(s) => spec_text_from_response(*v) == Some(s@),
            None => spec_text_from_response(*v) is None,
        },
{
    let segments = extract_text_segments_list(v);
    if segments.is_empty() {
        None
    } else {
        Some(join_segments(&segments))
    }
}

/// The text recovered from a final chat message, per
/// [`spec_text_from_message`].
pub fn extract_text_from_message(message: &JsonValue) -> (r: Option<String>)
    ensures
        match r {
            Some(s) => spec_text_from_message(*message) == Some(s@),
            None => spec_text_from_message(*message) is None,
        },
{
    match message.get("content") {
        Some(content) => match content.as_str() {
            Some(s) => Some(s.clone()),
            None => extract_text_from_response(content),
        },
        None => None,
    }
}

} // verus!
