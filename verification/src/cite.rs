//! Citation harvesting.
//!
//! A recursive walk over a parsed JSON value collects every URL-bearing
//! object as a citation, deduplicated by URL in first-seen order; the title
//! of the first occurrence stays, later occurrences of the same URL are
//! skipped entirely.

use vstd::prelude::*;

use crate::json::{spec_obj_get, str_eq, JsonValue};

verus! {

/// A source reference: a URL and, when the source offered one, a title.
#[derive(Debug, Clone)]
pub struct Citation {
    pub url: String,
    pub title: Option<String>,
}

/// The view of one citation: its URL's and title's character sequences.
pub open spec fn cite_view(c: Citation) -> (Seq<char>, Option<Seq<char>>) {
    (
        c.url@,
        match c.title {
            Some(t) => Some(t@),
            None => None,
        },
    )
}

/// The views of a citation list.
pub open spec fn cite_views(cs: Seq<Citation>) -> Seq<(Seq<char>, Option<Seq<char>>)> {
    cs.map_values(|c: Citation| cite_view(c))
}

/// Whether some entry of `cs` already carries `url`.
pub open spec fn has_url(cs: Seq<(Seq<char>, Option<Seq<char>>)>, url: Seq<char>) -> bool {
    exists|i: int| 0 <= i < cs.len() && cs[i].0 == url
}

/// The string content of the first present member among the URL-shaped
/// names: `url`, else `source_url`, else `href`, else `uri`. Presence is
/// decided before the string check, so an object whose `url` member is not a
/// string yields nothing.
pub open spec fn url_of(entries: Seq<(String, JsonValue)>) -> Option<Seq<char>> {
    let picked = if spec_obj_get(entries, "url"@) is Some {
        spec_obj_get(entries, "url"@)
    } else if spec_obj_get(entries, "source_url"@) is Some {
        spec_obj_get(entries, "source_url"@)
    } else if spec_obj_get(entries, "href"@) is Some {
        spec_obj_get(entries, "href"@)
    } else {
        spec_obj_get(entries, "uri"@)
    };
    match picked {
        Some(JsonValue::Str(s)) => Some(s@),
        _ => None,
    }
}

/// The string content of the first present member among the title-shaped
/// names: `title`, else `name`, else `source`, else `page_title`.
pub open spec fn title_of(entries: Seq<(String, JsonValue)>) -> Option<Seq<char>> {
    let picked = if spec_obj_get(entries, "title"@) is Some {
        spec_obj_get(entries, "title"@)
    } else if spec_obj_get(entries, "name"@) is Some {
        spec_obj_get(entries, "name"@)
    } else if spec_obj_get(entries, "source"@) is Some {
        spec_obj_get(entries, "source"@)
    } else {
        spec_obj_get(entries, "page_title"@)
    };
    match picked {
        Some(JsonValue::Str(s)) => Some(s@),
        _ => None,
    }
}

/// What one object contributes by itself: a new entry when it carries a URL
/// not seen before; a seen URL leaves the list untouched.
pub open spec fn cite_obj(
    cs: Seq<(Seq<char>, Option<Seq<char>>)>,
    entries: Seq<(String, JsonValue)>,
) -> Seq<(Seq<char>, Option<Seq<char>>)> {
    match url_of(entries) {
        Some(u) => if has_url(cs, u) {
            cs
        } else {
            cs.push((u, title_of(entries)))
        },
        None => cs,
    }
}

/// The citation list after walking `v`: each object contributes its own
/// citation first, then its member values are walked in document order; the
/// walk descends into every nested value.
pub open spec fn cite_walk(
    cs: Seq<(Seq<char>, Option<Seq<char>>)>,
    v: JsonValue,
) -> Seq<(Seq<char>, Option<Seq<char>>)>
    decreases v,
{
    match v {
        JsonValue::Obj(entries) => cite_walk_entries(cite_obj(cs, entries@), entries@),
        JsonValue::Arr(items) => cite_walk_items(cs, items@),
        _ => cs,
    }
}

/// Walks the values of an object's members, left to right.
pub open spec fn cite_walk_entries(
    cs: Seq<(Seq<char>, Option<Seq<char>>)>,
    entries: Seq<(String, JsonValue)>,
) -> Seq<(Seq<char>, Option<Seq<char>>)>
    decreases entries,
{
    if entries.len() == 0 {
        cs
    } else {
        cite_walk(cite_walk_entries(cs, entries.drop_last()), entries.last().1)
    }
}

/// Walks the elements of an array, left to right.
pub open spec fn cite_walk_items(
    cs: Seq<(Seq<char>, Option<Seq<char>>)>,
    items: Seq<JsonValue>,
) -> Seq<(Seq<char>, Option<Seq<char>>)>
    decreases items,
{
    if items.len() == 0 {
        cs
    } else {
        cite_walk(cite_walk_items(cs, items.drop_last()), items.last())
    }
}

/// Whether `citations` already carries `url`.
fn contains_url(citations: &Vec<Citation>, url: &str) -> (r: bool)
    ensures
        r == has_url(cite_views(citations@), url@),
{
    let n = citations.len();
    let mut i: usize = 0;
    while i < n
        invariant
            i <= n,
            n == citations@.len(),
            forall|j: int| 0 <= j < i ==> cite_views(citations@)[j].0 != url@,
        decreases n - i,
    {
        if str_eq(citations[i].url.as_str(), url) {
            assert(cite_views(citations@)[i as int].0 == url@);
            return true;
        }
        i = i + 1;
    }
    false
}

/// The first present member among the given names, in order.
fn pick_member<'a>(v: &'a JsonValue, k1: &str, k2: &str, k3: &str, k4: &str) -> (r: Option<
    &'a JsonValue,
>)
    ensures
        ({
            let picked = if crate::json::spec_get(*v, k1@) is Some {
                crate::json::spec_get(*v, k1@)
            } else if crate::json::spec_get(*v, k2@) is Some {
                crate::json::spec_get(*v, k2@)
            } else if crate::json::spec_get(*v, k3@) is Some {
                crate::json::spec_get(*v, k3@)
            } else {
                crate::json::spec_get(*v, k4@)
            };
            match r {
                Some(w) => picked == Some(*w),
                None => picked is None,
            }
        }),
{
    match v.get(k1) {
        Some(w) => Some(w),
        None => match v.get(k2) {
            Some(w) => Some(w),
            None => match v.get(k3) {
                Some(w) => Some(w),
                None => v.get(k4),
            },
        },
    }
}

/// Appends to `citations` every citation found below `value`, in document
/// order, skipping URLs already present, exactly as [`cite_walk`].
pub fn collect_citations(value: &JsonValue, citations: &mut Vec<Citation>)
    ensures
        cite_views(final(citations)@) == cite_walk(cite_views(old(citations)@), *value),
    decreases *value,
{
    match value {
        JsonValue::Obj(entries) => {
            let ghost entries_view = entries@;
            match pick_member(value, "url", "source_url", "href", "uri") {
                Some(u) => match u.as_str() {
                    Some(url) => {
                        if !contains_url(citations, url.as_str()) {
                            let title: Option<String> = match pick_member(
                                value,
                                "title",
                                "name",
                                "source",
                                "page_title",
                            ) {
                                Some(t) => match t.as_str() {
                                    Some(s) => Some(s.clone()),
                                    None => None,
                                },
                                None => None,
                            };
                            let c = Citation { url: url.clone(), title };
                            citations.push(c);
                            assert(cite_views(citations@) =~= cite_obj(
                                cite_views(old(citations)@),
                                entries_view,
                            ));
                        }
                    },
                    None => {},
                },
                None => {},
            }
            assert(cite_views(citations@) =~= cite_obj(cite_views(old(citations)@), entries_view));
            let ghost mid = cite_views(citations@);
            let n = entries.len();
            let mut i: usize = 0;
            assert(entries_view.take(0) =~= Seq::<(String, JsonValue)>::empty());
            while i < n
                invariant
                    i <= n,
                    n == entries_view.len(),
                    entries@ == entries_view,
                    cite_views(citations@) == cite_walk_entries(mid, entries_view.take(i as int)),
                decreases n - i,
            {
                collect_citations(&entries[i].1, citations);
                proof {
                    assert(entries_view.take(i + 1).drop_last() =~= entries_view.take(i as int));
                    assert(entries_view.take(i + 1).last() == entries_view[i as int]);
                }
                i = i + 1;
            }
            assert(entries_view.take(n as int) =~= entries_view);
        },
        JsonValue::Arr(items) => {
            let ghost items_view = items@;
            let n = items.len();
            let mut i: usize = 0;
            assert(items_view.take(0) =~= Seq::<JsonValue>::empty());
            while i < n
                invariant
                    i <= n,
                    n == items_view.len(),
                    items@ == items_view,
                    cite_views(citations@) == cite_walk_items(
                        cite_views(old(citations)@),
                        items_view.take(i as int),
                    ),
                decreases n - i,
            {
                collect_citations(&items[i], citations);
                proof {
                    assert(items_view.take(i + 1).drop_last() =~= items_view.take(i as int));
                    assert(items_view.take(i + 1).last() == items_view[i as int]);
                }
                i = i + 1;
            }
            assert(items_view.take(n as int) =~= items_view);
        },
        _ => {},
    }
}

/// No two entries share a URL.
pub open spec fn distinct_urls(cs: Seq<(Seq<char>, Option<Seq<char>>)>) -> bool {
    forall|i: int, j: int| 0 <= i < j < cs.len() ==> cs[i].0 != cs[j].0
}

/// Walking any value only appends: every citation already in the list stays,
/// unchanged and in place. In particular the title recorded at the first
/// encounter of a URL is never overridden by a later encounter.
pub proof fn lemma_cite_walk_append_only(cs: Seq<(Seq<char>, Option<Seq<char>>)>, v: JsonValue)
    ensures
        cite_walk(cs, v).len() >= cs.len(),
        forall|i: int| 0 <= i < cs.len() ==> cite_walk(cs, v)[i] == cs[i],
    decreases v,
{
    match v {
        JsonValue::Obj(entries) => {
            assert(cite_obj(cs, entries@).len() >= cs.len());
            assert(forall|i: int| 0 <= i < cs.len() ==> cite_obj(cs, entries@)[i] == cs[i]);
            lemma_cite_walk_entries_append_only(cite_obj(cs, entries@), entries@);
        },
        JsonValue::Arr(items) => {
            lemma_cite_walk_items_append_only(cs, items@);
        },
        _ => {},
    }
}

proof fn lemma_cite_walk_entries_append_only(
    cs: Seq<(Seq<char>, Option<Seq<char>>)>,
    entries: Seq<(String, JsonValue)>,
)
    ensures
        cite_walk_entries(cs, entries).len() >= cs.len(),
        forall|i: int| 0 <= i < cs.len() ==> cite_walk_entries(cs, entries)[i] == cs[i],
    decreases entries,
{
    if entries.len() > 0 {
        lemma_cite_walk_entries_append_only(cs, entries.drop_last());
        lemma_cite_walk_append_only(cite_walk_entries(cs, entries.drop_last()), entries.last().1);
    }
}

proof fn lemma_cite_walk_items_append_only(
    cs: Seq<(Seq<char>, Option<Seq<char>>)>,
    items: Seq<JsonValue>,
)
    ensures
        cite_walk_items(cs, items).len() >= cs.len(),
        forall|i: int| 0 <= i < cs.len() ==> cite_walk_items(cs, items)[i] == cs[i],
    decreases items,
{
    if items.len() > 0 {
        lemma_cite_walk_items_append_only(cs, items.drop_last());
        lemma_cite_walk_append_only(cite_walk_items(cs, items.drop_last()), items.last());
    }
}

/// Walking any value keeps the URLs pairwise distinct: the list never takes a
/// second entry for a URL it already carries.
pub proof fn lemma_cite_walk_distinct(cs: Seq<(Seq<char>, Option<Seq<char>>)>, v: JsonValue)
    requires
        distinct_urls(cs),
    ensures
        distinct_urls(cite_walk(cs, v)),
    decreases v,
{
    match v {
        JsonValue::Obj(entries) => {
            assert(distinct_urls(cite_obj(cs, entries@)));
            lemma_cite_walk_entries_distinct(cite_obj(cs, entries@), entries@);
        },
        JsonValue::Arr(items) => {
            lemma_cite_walk_items_distinct(cs, items@);
        },
        _ => {},
    }
}

proof fn lemma_cite_walk_entries_distinct(
    cs: Seq<(Seq<char>, Option<Seq<char>>)>,
    entries: Seq<(String, JsonValue)>,
)
    requires
        distinct_urls(cs),
    ensures
        distinct_urls(cite_walk_entries(cs, entries)),
    decreases entries,
{
    if entries.len() > 0 {
        lemma_cite_walk_entries_distinct(cs, entries.drop_last());
        lemma_cite_walk_distinct(cite_walk_entries(cs, entries.drop_last()), entries.last().1);
    }
}

proof fn lemma_cite_walk_items_distinct(
    cs: Seq<(Seq<char>, Option<Seq<char>>)>,
    items: Seq<JsonValue>,
)
    requires
        distinct_urls(cs),
    ensures
        distinct_urls(cite_walk_items(cs, items)),
    decreases items,
{
    if items.len() > 0 {
        lemma_cite_walk_items_distinct(cs, items.drop_last());
        lemma_cite_walk_distinct(cite_walk_items(cs, items.drop_last()), items.last());
    }
}

} // verus!
