//! Session files.
//!
//! A session is a numbered JSON file holding a name, an optional summary and
//! the messages so far. The file system work lives in the application shell;
//! here are the file names, the session JSON in both directions, the next
//! free identifier and the ordering of session listings.

use vstd::prelude::*;

use crate::json::{push_char, spec_get, spec_get_str, JsonValue};
use vstd::multiset::Multiset;

verus! {

/// One stored chat message.
#[derive(Clone, Debug)]
pub struct SessionMessage {
    pub role: String,
    pub content: String,
}

/// The decoded content of one session file.
pub struct SessionFile {
    pub name: String,
    pub summary: Option<String>,
    pub messages: Vec<SessionMessage>,
}

/// The decimal digit character for `d < 10`.
pub open spec fn digit_char(d: nat) -> char {
    ((48 + d) as u8) as char
}

/// The decimal digits of `n`, most significant first.
pub open spec fn dec_str(n: nat) -> Seq<char>
    decreases n,
{
    if n < 10 {
        seq![digit_char(n)]
    } else {
        dec_str(n / 10).push(digit_char(n % 10))
    }
}

/// The decimal text of a signed number.
pub open spec fn spec_i64_str(n: int) -> Seq<char> {
    if n < 0 {
        seq!['-'] + dec_str((-n) as nat)
    } else {
        dec_str(n as nat)
    }
}

/// Appends the decimal digits of `n`.
fn push_dec(n: u64, out: &mut String)
    ensures
        final(out)@ == old(out)@ + dec_str(n as nat),
    decreases n,
{
    if n < 10 {
        push_char(out, ((48 + n as u8)) as char);
        proof {
            assert(final(out)@ =~= old(out)@ + dec_str(n as nat));
        }
    } else {
        push_dec(n / 10, out);
        push_char(out, ((48 + (n % 10) as u8)) as char);
        proof {
            assert(final(out)@ =~= old(out)@ + dec_str(n as nat));
        }
    }
}

/// The decimal text of `n`.
pub fn i64_to_string(n: i64) -> (r: String)
    ensures
        r@ == spec_i64_str(n as int),
{
    let mut out = String::new();
    if n < 0 {
        push_char(&mut out, '-');
        let m: u64 = ((-(n + 1)) as u64) + 1;
        assert(m as nat == (-(n as int)) as nat);
        push_dec(m, &mut out);
        proof {
            assert(out@ =~= spec_i64_str(n as int));
        }
    } else {
        push_dec(n as u64, &mut out);
    }
    out
}

/// The session manager: it owns the directory the session files live in.
pub struct SessionManager {
    sessions_dir: String,
}

impl SessionManager {
    /// The directory the sessions live in.
    pub closed spec fn dir(&self) -> Seq<char> {
        self.sessions_dir@
    }

    /// A manager over the given directory.
    pub fn new(sessions_dir: String) -> (r: SessionManager)
        ensures
            r.dir() == sessions_dir@,
    {
        SessionManager { sessions_dir }
    }

    /// The directory the sessions live in.
    pub fn sessions_dir(&self) -> (r: &String)
        ensures
            r@ == self.dir(),
    {
        &self.sessions_dir
    }

    /// The path of the session file for `id`: the directory, a slash, the
    /// decimal identifier, and the `.json` ending.
    pub fn session_path(&self, id: i64) -> (r: String)
        ensures
            r@ == self.dir() + seq!['/'] + spec_i64_str(id as int) + ".json"@,
    {
        let mut out = self.sessions_dir.clone();
        push_char(&mut out, '/');
        let num = i64_to_string(id);
        out.append(num.as_str());
        out.append(".json");
        proof {
            assert(out@ =~= self.dir() + seq!['/'] + spec_i64_str(id as int) + ".json"@);
        }
        out
    }
}

/// What parsing the messages array of a session file yields: each element
/// must be an object with string `role` and `content` members.
pub open spec fn spec_parse_messages(items: Seq<JsonValue>) -> Option<Seq<(Seq<char>, Seq<char>)>>
    decreases items,
{
    if items.len() == 0 {
        Some(Seq::empty())
    } else {
        match spec_parse_messages(items.drop_last()) {
            Some(rest) => match (spec_get_str(items.last(), "role"@), spec_get_str(
                items.last(),
                "content"@,
            )) {
                (Some(role), Some(content)) => Some(rest.push((role, content))),
                _ => None,
            },
            None => None,
        }
    }
}

/// What parsing one session document yields: a string `name`, an optional
/// string `summary` (absent or null both mean none), and a well-formed
/// `messages` array; anything else fails.
pub open spec fn spec_parse_session(v: JsonValue) -> Option<
    (Seq<char>, Option<Seq<char>>, Seq<(Seq<char>, Seq<char>)>),
> {
    match spec_get_str(v, "name"@) {
        Some(name) => {
            let summary_ok: Option<Option<Seq<char>>> = match spec_get(v, "summary"@) {
                None => Some(None),
                Some(JsonValue::Null) => Some(None),
                Some(JsonValue::Str(s)) => Some(Some(s@)),
                Some(_) => None,
            };
            match summary_ok {
                Some(summary) => match spec_get(v, "messages"@) {
                    Some(JsonValue::Arr(items)) => match spec_parse_messages(items@) {
                        Some(msgs) => Some((name, summary, msgs)),
                        None => None,
                    },
                    _ => None,
                },
                None => None,
            }
        },
        None => None,
    }
}

/// The views of a message list.
pub open spec fn msg_views(ms: Seq<SessionMessage>) -> Seq<(Seq<char>, Seq<char>)> {
    ms.map_values(|m: SessionMessage| (m.role@, m.content@))
}

/// Decodes one session document, per [`spec_parse_session`].
pub fn parse_session_file(v: &JsonValue) -> (r: Option<SessionFile>)
    ensures
        match r {
            Some(f) => spec_parse_session(*v) == Some(
                (
                    f.name@,
                    match f.summary {
                        Some(s) => Some(s@),
                        None => None,
                    },
                    msg_views(f.messages@),
                ),
            ),
            None => spec_parse_session(*v) is None,
        },
{
    let name: String = match v.get("name") {
        Some(nv) => match nv.as_str() {
            Some(s) => s.clone(),
            None => {
                return None;
            },
        },
        None => {
            return None;
        },
    };
    let summary: Option<String> = match v.get("summary") {
        None => None,
        Some(sv) => match sv {
            JsonValue::Null => None,
            JsonValue::Str(s) => Some(s.clone()),
            _ => {
                return None;
            },
        },
    };
    let items = match v.get("messages") {
        Some(mv) => match mv {
            JsonValue::Arr(items) => items,
            _ => {
                return None;
            },
        },
        None => {
            return None;
        },
    };
    let ghost items_view = items@;
    let mut messages: Vec<SessionMessage> = Vec::new();
    let n = items.len();
    let mut i: usize = 0;
    proof {
        assert(items_view.take(0) =~= Seq::<JsonValue>::empty());
        assert(msg_views(messages@) =~= Seq::<(Seq<char>, Seq<char>)>::empty());
    }
    while i < n
        invariant
            i <= n,
            n == items_view.len(),
            items@ == items_view,
            spec_parse_messages(items_view.take(i as int)) == Some(msg_views(messages@)),
        decreases n - i,
    {
        let item = &items[i];
        let role: String = match item.get("role") {
            Some(rv) => match rv.as_str() {
                Some(s) => s.clone(),
                None => {
                    proof {
                        lemma_parse_messages_prefix_fail(items_view, i as int);
                    }
                    return None;
                },
            },
            None => {
                proof {
                    lemma_parse_messages_prefix_fail(items_view, i as int);
                }
                return None;
            },
        };
        let content: String = match item.get("content") {
            Some(cv) => match cv.as_str() {
                Some(s) => s.clone(),
                None => {
                    proof {
                        lemma_parse_messages_prefix_fail(items_view, i as int);
                    }
                    return None;
                },
            },
            None => {
                proof {
                    lemma_parse_messages_prefix_fail(items_view, i as int);
                }
                return None;
            },
        };
        let ghost prev = messages@;
        messages.push(SessionMessage { role, content });
        proof {
            assert(items_view.take(i + 1).drop_last() =~= items_view.take(i as int));
            assert(items_view.take(i + 1).last() == items_view[i as int]);
            assert(msg_views(messages@) =~= msg_views(prev).push(
                (messages@.last().role@, messages@.last().content@),
            ));
        }
        i = i + 1;
    }
    assert(items_view.take(n as int) =~= items_view);
    Some(SessionFile { name, summary, messages })
}

/// When a message item fails to parse, the whole prefix from there fails.
proof fn lemma_parse_messages_prefix_fail(items: Seq<JsonValue>, i: int)
    requires
        0 <= i < items.len(),
        !(spec_get_str(items[i], "role"@) is Some && spec_get_str(items[i], "content"@) is Some),
    ensures
        spec_parse_messages(items) is None,
    decreases items.len(),
{
    if items.len() > 0 {
        if i == items.len() - 1 {
            assert(items.last() == items[i]);
        } else {
            assert(items.drop_last()[i] == items[i]);
            lemma_parse_messages_prefix_fail(items.drop_last(), i);
        }
    }
}

/// The session JSON for the given parts: a `name` string, a `summary` that
/// is the string or null, and the messages as objects with `role` and
/// `content` strings, in order.
pub fn session_file_json(name: &str, summary: &Option<String>, messages: &Vec<SessionMessage>) -> (r:
    JsonValue)
    ensures
        spec_parse_session(r) == Some(
            (
                name@,
                match *summary {
                    Some(s) => Some(s@),
                    None => None,
                },
                msg_views(messages@),
            ),
        ),
{
    let mut items: Vec<JsonValue> = Vec::new();
    let n = messages.len();
    let mut i: usize = 0;
    proof {
        assert(messages@.take(0) =~= Seq::<SessionMessage>::empty());
        assert(spec_parse_messages(Seq::<JsonValue>::empty()) == Some(
            Seq::<(Seq<char>, Seq<char>)>::empty(),
        ));
        assert(msg_views(messages@.take(0)) =~= Seq::<(Seq<char>, Seq<char>)>::empty());
    }
    while i < n
        invariant
            i <= n,
            n == messages@.len(),
            spec_parse_messages(items@.map_values(|x: JsonValue| x)) == Some(
                msg_views(messages@.take(i as int)),
            ),
            items@.len() == i,
        decreases n - i,
    {
        let mut entries: Vec<(String, JsonValue)> = Vec::new();
        entries.push((String::from_str("role"), JsonValue::Str(messages[i].role.clone())));
        entries.push((String::from_str("content"), JsonValue::Str(messages[i].content.clone())));
        let obj = JsonValue::Obj(entries);
        proof {
            reveal_strlit("role");
            reveal_strlit("content");
            reveal_with_fuel(crate::json::spec_obj_get, 3);
            let e = entries@;
            assert(e.len() == 2);
            assert(e[0].0@ == "role"@);
            assert(e[1].0@ == "content"@);
            assert("role"@.len() != "content"@.len());
            assert(e.drop_first() =~= seq![e[1]]);
            assert(crate::json::spec_obj_get(e, "role"@) == Some(e[0].1));
            assert(crate::json::spec_obj_get(e, "content"@) == crate::json::spec_obj_get(
                e.drop_first(),
                "content"@,
            ));
            assert(crate::json::spec_obj_get(e.drop_first(), "content"@) == Some(e[1].1));
            assert(spec_get_str(obj, "role"@) == Some(messages@[i as int].role@));
            assert(spec_get_str(obj, "content"@) == Some(messages@[i as int].content@));
        }
        let ghost prev_items = items@;
        items.push(obj);
        proof {
            assert(items@.map_values(|x: JsonValue| x) =~= items@);
            assert(prev_items.map_values(|x: JsonValue| x) =~= prev_items);
            assert(items@.drop_last() =~= prev_items);
            assert(messages@.take(i + 1).drop_last() =~= messages@.take(i as int));
            assert(msg_views(messages@.take(i + 1)) =~= msg_views(messages@.take(i as int)).push(
                (messages@[i as int].role@, messages@[i as int].content@),
            ));
        }
        i = i + 1;
    }
    proof {
        assert(messages@.take(n as int) =~= messages@);
        assert(items@.map_values(|x: JsonValue| x) =~= items@);
    }
    let ghost items_ghost = items@;
    let summary_value = match summary {
        Some(s) => JsonValue::Str(s.clone()),
        None => JsonValue::Null,
    };
    let mut entries: Vec<(String, JsonValue)> = Vec::new();
    entries.push((String::from_str("name"), JsonValue::Str(String::from_str(name))));
    entries.push((String::from_str("summary"), summary_value));
    entries.push((String::from_str("messages"), JsonValue::Arr(items)));
    let r = JsonValue::Obj(entries);
    proof {
        reveal_strlit("name");
        reveal_strlit("summary");
        reveal_strlit("messages");
        reveal_with_fuel(crate::json::spec_obj_get, 4);
        let e = entries@;
        assert(e.len() == 3);
        assert(e[0].0@ == "name"@);
        assert(e[1].0@ == "summary"@);
        assert(e[2].0@ == "messages"@);
        assert("name"@.len() != "summary"@.len());
        assert("name"@.len() != "messages"@.len());
        assert("summary"@.len() != "messages"@.len());
        assert(e.drop_first() =~= seq![e[1], e[2]]);
        assert(e.drop_first().drop_first() =~= seq![e[2]]);
        assert(crate::json::spec_obj_get(e, "name"@) == Some(e[0].1));
        assert(crate::json::spec_obj_get(e, "summary"@) == Some(e[1].1));
        assert(crate::json::spec_obj_get(e, "messages"@) == Some(e[2].1));
        assert(spec_get_str(r, "name"@) == Some(name@));
        assert(spec_parse_messages(items_ghost) == Some(msg_views(messages@)));
        assert(spec_parse_session(r) == Some(
            (
                name@,
                match *summary {
                    Some(s) => Some(s@),
                    None => None,
                },
                msg_views(messages@),
            ),
        ));
    }
    r
}

/// The largest identifier, or zero for an empty listing.
pub open spec fn spec_max_id(ids: Seq<i64>) -> int
    decreases ids,
{
    if ids.len() == 0 {
        0
    } else {
        let m = spec_max_id(ids.drop_last());
        if ids.last() as int > m || ids.len() == 1 {
            ids.last() as int
        } else {
            m
        }
    }
}

/// The identifier a new session gets: one past the largest in use, and 1
/// for the first session.
pub fn next_session_id(ids: &Vec<i64>) -> (r: i64)
    requires
        spec_max_id(ids@) < i64::MAX,
    ensures
        r as int == spec_max_id(ids@) + 1,
{
    let n = ids.len();
    let mut best: i64 = 0;
    let mut i: usize = 0;
    assert(ids@.take(0) =~= Seq::<i64>::empty());
    while i < n
        invariant
            i <= n,
            n == ids@.len(),
            best as int == spec_max_id(ids@.take(i as int)),
            i > 0 ==> best as int <= spec_max_id(ids@),
        decreases n - i,
    {
        proof {
            assert(ids@.take(i + 1).drop_last() =~= ids@.take(i as int));
            assert(ids@.take(i + 1).last() == ids@[i as int]);
            lemma_max_id_prefix(ids@, i + 1);
        }
        if i == 0 {
            best = ids[i];
        } else if ids[i] > best {
            best = ids[i];
        }
        i = i + 1;
    }
    proof {
        assert(ids@.take(n as int) =~= ids@);
    }
    best + 1
}

/// The largest identifier of a prefix never exceeds the whole listing's.
proof fn lemma_max_id_prefix(ids: Seq<i64>, k: int)
    requires
        0 <= k <= ids.len(),
    ensures
        spec_max_id(ids.take(k)) <= spec_max_id(ids) || k == 0,
    decreases ids.len() - k,
{
    if k < ids.len() {
        lemma_max_id_prefix(ids, k + 1);
        assert(ids.take(k + 1).drop_last() =~= ids.take(k));
    } else {
        assert(ids.take(k) =~= ids);
    }
}


/// Whether a listing is ordered by ascending identifier.
pub open spec fn sorted_by_id(ss: Seq<(i64, String, Option<String>)>) -> bool {
    forall|i: int, j: int| 0 <= i < j < ss.len() ==> ss[i].0 <= ss[j].0
}

/// Orders a session listing by ascending identifier; the entries are
/// exactly those given.
pub fn sort_sessions_by_id(sessions: Vec<(i64, String, Option<String>)>) -> (r: Vec<
    (i64, String, Option<String>),
>)
    ensures
        sorted_by_id(r@),
        r@.to_multiset() == sessions@.to_multiset(),
{
    broadcast use vstd::seq_lib::group_seq_properties;

    let mut rest = sessions;
    let ghost whole = rest@;
    let mut out: Vec<(i64, String, Option<String>)> = Vec::new();
    proof {
        assert(out@.to_multiset().add(rest@.to_multiset()) =~= whole.to_multiset());
    }
    while rest.len() > 0
        invariant
            out@.to_multiset().add(rest@.to_multiset()) == whole.to_multiset(),
            sorted_by_id(out@),
            forall|i: int, k: int|
                0 <= i < out@.len() && 0 <= k < rest@.len() ==> #[trigger] out@[i].0
                    <= #[trigger] rest@[k].0,
        decreases rest.len(),
    {
        let n = rest.len();
        let mut mi: usize = 0;
        let mut j: usize = 1;
        while j < n
            invariant
                mi < j <= n,
                n == rest@.len(),
                forall|k: int| 0 <= k < j ==> rest@[mi as int].0 <= #[trigger] rest@[k].0,
            decreases n - j,
        {
            if rest[j].0 < rest[mi].0 {
                mi = j;
            }
            j = j + 1;
        }
        let ghost rest_before = rest@;
        let item = rest.remove(mi);
        let ghost out_before = out@;
        out.push(item);
        proof {
            rest_before.to_multiset_ensures();
            out_before.to_multiset_ensures();
            assert(rest_before.remove(mi as int).to_multiset() =~= rest_before.to_multiset()
                .remove(rest_before[mi as int]));
            assert(out_before.push(rest_before[mi as int]).to_multiset() =~= out_before
                .to_multiset().insert(rest_before[mi as int]));
            assert(out@.to_multiset().add(rest@.to_multiset()) =~= whole.to_multiset());
            assert forall|i: int, k: int|
                0 <= i < out@.len() && 0 <= k < rest@.len() implies #[trigger] out@[i].0
                <= #[trigger] rest@[k].0 by {
                if k < mi {
                    assert(rest@[k] == rest_before[k]);
                } else {
                    assert(rest@[k] == rest_before[k + 1]);
                }
            }
        }
    }
    proof {
        assert(rest@.to_multiset() =~= Multiset::<(i64, String, Option<String>)>::empty());
        assert(out@.to_multiset() =~= whole.to_multiset());
    }
    out
}

/// Whether one stored message takes part in a summary request: the leading
/// system prompt does not, and only user and assistant turns do.
pub open spec fn summary_kept(i: int, m: (Seq<char>, Seq<char>)) -> bool {
    &&& !(i == 0 && m.0 == "system"@)
    &&& (m.0 == "user"@ || m.0 == "assistant"@)
}

/// The role a kept message carries in the summary request.
pub open spec fn summary_role(r: Seq<char>) -> Seq<char> {
    if r == "assistant"@ {
        "assistant"@
    } else {
        "user"@
    }
}

/// The kept messages of the first `k` stored ones, in order.
pub open spec fn summary_msgs(ms: Seq<(Seq<char>, Seq<char>)>, k: int) -> Seq<
    (Seq<char>, Seq<char>),
>
    decreases k,
{
    if k <= 0 || k > ms.len() {
        Seq::empty()
    } else if summary_kept(k - 1, ms[k - 1]) {
        summary_msgs(ms, k - 1).push((summary_role(ms[k - 1].0), ms[k - 1].1))
    } else {
        summary_msgs(ms, k - 1)
    }
}

/// The messages of a summary request: the summarization prompt, then the
/// conversation's user and assistant turns, the leading system prompt
/// dropped, per [`summary_msgs`].
pub fn summary_request_messages(session_msgs: &Vec<SessionMessage>) -> (r: Vec<SessionMessage>)
    ensures
        msg_views(r@) == seq![
            ("system"@, "次の会話内容を一文で簡潔に日本語で要約してください："@),
        ] + summary_msgs(msg_views(session_msgs@), session_msgs@.len() as int),
{
    let mut out: Vec<SessionMessage> = Vec::new();
    out.push(
        SessionMessage {
            role: String::from_str("system"),
            content: String::from_str("次の会話内容を一文で簡潔に日本語で要約してください："),
        },
    );
    let ghost base = msg_views(out@);
    proof {
        assert(base =~= seq![
            ("system"@, "次の会話内容を一文で簡潔に日本語で要約してください："@),
        ]);
    }
    let n = session_msgs.len();
    let mut i: usize = 0;
    proof {
        assert(msg_views(out@) =~= base + summary_msgs(msg_views(session_msgs@), 0));
    }
    while i < n
        invariant
            i <= n,
            n == session_msgs@.len(),
            msg_views(out@) == base + summary_msgs(msg_views(session_msgs@), i as int),
        decreases n - i,
    {
        let m = &session_msgs[i];
        let is_system = crate::json::str_eq(m.role.as_str(), "system");
        let is_user = crate::json::str_eq(m.role.as_str(), "user");
        let is_assistant = crate::json::str_eq(m.role.as_str(), "assistant");
        if !(i == 0 && is_system) && (is_user || is_assistant) {
            let role = if is_assistant {
                String::from_str("assistant")
            } else {
                String::from_str("user")
            };
            let ghost prev = out@;
            out.push(SessionMessage { role, content: m.content.clone() });
            proof {
                assert(msg_views(out@) =~= msg_views(prev).push(
                    (summary_role(msg_views(session_msgs@)[i as int].0), m.content@),
                ));
            }
        }
        proof {
            assert(msg_views(out@) =~= base + summary_msgs(
                msg_views(session_msgs@),
                i + 1,
            ));
        }
        i = i + 1;
    }
    out
}

} // verus!
