//! Model identifiers and the helpers around them.
//!
//! The known chat models with their wire names, the string transforms that
//! turn a wire name into an enum variant name, and the filters that decide
//! which advertised model identifiers the generated list keeps.

use vstd::prelude::*;

use crate::json::push_char;

verus! {

/// A known chat model.
#[allow(non_camel_case_types)]
#[derive(Clone, Copy, PartialEq, Eq, Structural, Debug)]
pub enum Model {
    Gpt_4,
    Gpt_4_0314,
    Gpt_4_32k,
    Gpt_4_32k_0314,
    Gpt_3_5_Turbo,
    Gpt_3_5_Turbo_0301,
    Gpt_4o,
}

/// The wire name of each model.
pub open spec fn model_str(m: Model) -> Seq<char> {
    match m {
        Model::Gpt_4 => "gpt-4"@,
        Model::Gpt_4_0314 => "gpt-4-0314"@,
        Model::Gpt_4_32k => "gpt-4-32k"@,
        Model::Gpt_4_32k_0314 => "gpt-4-32k-0314"@,
        Model::Gpt_3_5_Turbo => "gpt-3.5-turbo"@,
        Model::Gpt_3_5_Turbo_0301 => "gpt-3.5-turbo-0301"@,
        Model::Gpt_4o => "gpt-4o"@,
    }
}

impl Model {
    /// The model's wire name.
    pub fn as_str(&self) -> (r: &'static str)
        ensures
            r@ == model_str(*self),
    {
        match self {
            Model::Gpt_4 => "gpt-4",
            Model::Gpt_4_0314 => "gpt-4-0314",
            Model::Gpt_4_32k => "gpt-4-32k",
            Model::Gpt_4_32k_0314 => "gpt-4-32k-0314",
            Model::Gpt_3_5_Turbo => "gpt-3.5-turbo",
            Model::Gpt_3_5_Turbo_0301 => "gpt-3.5-turbo-0301",
            Model::Gpt_4o => "gpt-4o",
        }
    }

    /// The model with the given wire name, if any.
    pub fn parse(s: &str) -> (r: Option<Model>)
        ensures
            match r {
                Some(m) => model_str(m) == s@,
                None => forall|m: Model| model_str(m) != s@,
            },
    {
        if crate::json::str_eq(s, "gpt-4") {
            Some(Model::Gpt_4)
        } else if crate::json::str_eq(s, "gpt-4-0314") {
            Some(Model::Gpt_4_0314)
        } else if crate::json::str_eq(s, "gpt-4-32k") {
            Some(Model::Gpt_4_32k)
        } else if crate::json::str_eq(s, "gpt-4-32k-0314") {
            Some(Model::Gpt_4_32k_0314)
        } else if crate::json::str_eq(s, "gpt-3.5-turbo") {
            Some(Model::Gpt_3_5_Turbo)
        } else if crate::json::str_eq(s, "gpt-3.5-turbo-0301") {
            Some(Model::Gpt_3_5_Turbo_0301)
        } else if crate::json::str_eq(s, "gpt-4o") {
            Some(Model::Gpt_4o)
        } else {
            proof {
                assert forall|m: Model| model_str(m) != s@ by {
                    match m {
                        Model::Gpt_4 => {},
                        Model::Gpt_4_0314 => {},
                        Model::Gpt_4_32k => {},
                        Model::Gpt_4_32k_0314 => {},
                        Model::Gpt_3_5_Turbo => {},
                        Model::Gpt_3_5_Turbo_0301 => {},
                        Model::Gpt_4o => {},
                    }
                }
            }
            None
        }
    }
}

/// The model used when neither the arguments nor the configuration name one.
pub const DEFAULT_MODEL: Model = Model::Gpt_4o;

/// What Unicode uppercasing makes of one character.
pub uninterp spec fn upper_of(c: char) -> Seq<char>;

/// Relies on `char::to_uppercase`: the result depends on the character
/// alone; an ASCII lowercase letter maps to its uppercase letter, and any
/// other ASCII character stays as it is.
#[verifier::external_body]
fn upper_first_char(c: char) -> (r: String)
    ensures
        r@ == upper_of(c),
        97 <= (c as u32) <= 122 ==> r@ == seq![((c as u32) - 32) as u8 as char],
        (c as u32) < 128 && !(97 <= (c as u32) <= 122) ==> r@ == seq![c],
{
    c.to_uppercase().collect::<String>()
}

/// A word with its first character uppercased.
pub open spec fn spec_capitalize(w: Seq<char>) -> Seq<char> {
    if w.len() == 0 {
        Seq::empty()
    } else {
        upper_of(w[0]) + w.skip(1)
    }
}

/// Uppercases the first character of a word.
pub fn capitalize(word: &str) -> (r: String)
    ensures
        r@ == spec_capitalize(word@),
{
    let n = word.unicode_len();
    if n == 0 {
        String::new()
    } else {
        let mut s = upper_first_char(word.get_char(0));
        let rest = word.substring_char(1, n);
        s.append(rest);
        proof {
            assert(rest@ =~= word@.skip(1));
        }
        s
    }
}

/// `s` with every `.` replaced by `_`.
pub open spec fn dots_to_underscores(s: Seq<char>) -> Seq<char> {
    s.map_values(|c: char| if c == '.' { '_' } else { c })
}

/// The index of the first `-`, or `-1`.
pub open spec fn find_dash(s: Seq<char>) -> int
    decreases s.len(),
{
    if s.len() == 0 {
        -1
    } else if s[0] == '-' {
        0
    } else {
        let r = find_dash(s.drop_first());
        if r < 0 {
            -1
        } else {
            r + 1
        }
    }
}

/// The `-`-separated words of `s`; a word may be empty, and there is always
/// at least one.
pub open spec fn split_dash(s: Seq<char>) -> Seq<Seq<char>>
    decreases s.len(),
{
    let i = find_dash(s);
    if i < 0 || i + 1 > s.len() {
        seq![s]
    } else {
        seq![s.take(i)] + split_dash(s.skip(i + 1))
    }
}

/// The words, each capitalized, joined by `_`.
pub open spec fn join_capitalized(ws: Seq<Seq<char>>) -> Seq<char>
    decreases ws,
{
    if ws.len() == 0 {
        Seq::empty()
    } else if ws.len() == 1 {
        spec_capitalize(ws[0])
    } else {
        join_capitalized(ws.drop_last()) + seq!['_'] + spec_capitalize(ws.last())
    }
}

/// The variant name for a model identifier: dots become underscores, and
/// the dash-separated words are capitalized and joined by underscores.
pub open spec fn spec_camel_case(s: Seq<char>) -> Seq<char> {
    join_capitalized(split_dash(dots_to_underscores(s)))
}

proof fn lemma_find_dash_at(s: Seq<char>, i: int)
    requires
        0 <= i < s.len(),
        s[i] == '-',
        forall|j: int| 0 <= j < i ==> s[j] != '-',
    ensures
        find_dash(s) == i,
    decreases s.len(),
{
    if s[0] != '-' {
        assert(forall|j: int| 0 <= j < i - 1 ==> s.drop_first()[j] == s[j + 1]);
        lemma_find_dash_at(s.drop_first(), i - 1);
    }
}

proof fn lemma_find_dash_none(s: Seq<char>)
    requires
        forall|j: int| 0 <= j < s.len() ==> s[j] != '-',
    ensures
        find_dash(s) == -1,
    decreases s.len(),
{
    if s.len() > 0 {
        assert(forall|j: int| 0 <= j < s.drop_first().len() ==> s.drop_first()[j] == s[j + 1]);
        lemma_find_dash_none(s.drop_first());
    }
}

/// `s` with every `.` replaced by `_`.
fn replace_dots(s: &str) -> (r: String)
    ensures
        r@ == dots_to_underscores(s@),
{
    let n = s.unicode_len();
    let mut out = String::new();
    let mut i: usize = 0;
    assert(out@ =~= dots_to_underscores(s@.take(0)));
    while i < n
        invariant
            i <= n,
            n == s@.len(),
            out@ == dots_to_underscores(s@.take(i as int)),
        decreases n - i,
    {
        let c = s.get_char(i);
        if c == '.' {
            push_char(&mut out, '_');
        } else {
            push_char(&mut out, c);
        }
        proof {
            assert(out@ =~= dots_to_underscores(s@.take(i + 1)));
        }
        i = i + 1;
    }
    assert(s@.take(n as int) =~= s@);
    out
}

/// The `-`-separated words of `s`, as [`split_dash`] lays them out.
fn split_dash_exec(s: &str) -> (r: Vec<String>)
    ensures
        crate::text::views_of(r@) == split_dash(s@),
{
    let n = s.unicode_len();
    let mut out: Vec<String> = Vec::new();
    let mut pos: usize = 0;
    let ghost whole = s@;
    proof {
        assert(crate::text::views_of(out@) =~= Seq::<Seq<char>>::empty());
        assert(s@.skip(0) =~= s@);
        assert(split_dash(whole) =~= crate::text::views_of(out@) + split_dash(s@.skip(0)));
    }
    loop
        invariant
            pos <= n,
            n == s@.len(),
            split_dash(whole) == crate::text::views_of(out@) + split_dash(s@.skip(pos as int)),
        decreases n - pos,
    {
        let ghost tail = s@.skip(pos as int);
        let mut j: usize = pos;
        while j < n && s.get_char(j) != '-'
            invariant
                pos <= j <= n,
                n == s@.len(),
                forall|k: int| pos <= k < j ==> s@[k] != '-',
            decreases n - j,
        {
            j = j + 1;
        }
        proof {
            assert(forall|k: int| 0 <= k < j - pos ==> tail[k] == s@[pos + k]);
            if j < n {
                assert(tail[j - pos] == s@[j as int]);
                lemma_find_dash_at(tail, j - pos);
            } else {
                lemma_find_dash_none(tail);
            }
        }
        let word = s.substring_char(pos, j);
        let owned_word = word.to_owned();
        let ghost word_ghost = owned_word;
        let ghost prev = out@;
        out.push(owned_word);
        proof {
            crate::text::lemma_views_push(prev, word_ghost);
        }
        if j == n {
            proof {
                assert(tail =~= s@.subrange(pos as int, n as int));
                assert(word@ =~= tail);
                assert(split_dash(tail) == seq![tail]);
                assert(crate::text::views_of(out@) =~= crate::text::views_of(prev).push(word@));
                assert(split_dash(whole) =~= crate::text::views_of(out@));
            }
            break ;
        }
        proof {
            assert(word@ =~= tail.take(j - pos));
            assert(tail.skip(j - pos + 1) =~= s@.skip(j + 1));
            assert(split_dash(tail) == seq![tail.take(j - pos)] + split_dash(s@.skip(j + 1)));
            assert(crate::text::views_of(out@) =~= crate::text::views_of(prev).push(word@));
            assert(split_dash(whole) =~= crate::text::views_of(out@) + split_dash(
                s@.skip(j + 1),
            ));
        }
        pos = j + 1;
    }
    out
}

/// The CamelCase variant name for a model identifier, per
/// [`spec_camel_case`]: `.` becomes `_`, and each `-`-separated word is
/// capitalized and joined by `_`.
pub fn to_camel_case(s: &str) -> (r: String)
    ensures
        r@ == spec_camel_case(s@),
{
    let replaced = replace_dots(s);
    let words = split_dash_exec(replaced.as_str());
    let ghost wviews = crate::text::views_of(words@);
    let mut out = String::new();
    let n = words.len();
    let mut i: usize = 0;
    assert(wviews.take(0) =~= Seq::<Seq<char>>::empty());
    while i < n
        invariant
            i <= n,
            n == wviews.len(),
            crate::text::views_of(words@) == wviews,
            out@ == join_capitalized(wviews.take(i as int)),
        decreases n - i,
    {
        if i > 0 {
            push_char(&mut out, '_');
        }
        let cap = capitalize(words[i].as_str());
        out.append(cap.as_str());
        proof {
            assert(wviews.take(i + 1).drop_last() =~= wviews.take(i as int));
            assert(wviews.take(i + 1).last() == words@[i as int]@);
            assert(out@ =~= join_capitalized(wviews.take(i + 1)));
        }
        i = i + 1;
    }
    assert(wviews.take(n as int) =~= wviews);
    out
}


/// Whether `p` occurs in `s` as a contiguous substring.
pub open spec fn contains_sub(s: Seq<char>, p: Seq<char>) -> bool {
    exists|i: int| 0 <= i <= s.len() - p.len() && #[trigger] s.subrange(i, i + p.len()) == p
}

/// Decides [`contains_sub`].
pub fn str_contains(s: &str, p: &str) -> (r: bool)
    ensures
        r == contains_sub(s@, p@),
{
    let n = s.unicode_len();
    let m = p.unicode_len();
    if m > n {
        return false;
    }
    let mut i: usize = 0;
    while i <= n - m
        invariant
            m <= n,
            n == s@.len(),
            m == p@.len(),
            i <= n - m + 1,
            forall|k: int| 0 <= k < i ==> #[trigger] s@.subrange(k, k + p@.len()) != p@,
        decreases n - m - i + 1,
    {
        let mut j: usize = 0;
        let mut matched = true;
        while j < m
            invariant
                j <= m,
                i <= n - m,
                n == s@.len(),
                m == p@.len(),
                matched ==> forall|l: int| 0 <= l < j ==> s@[i + l] == p@[l],
                !matched ==> s@.subrange(i as int, i + p@.len()) != p@,
            decreases m - j,
        {
            if s.get_char(i + j) != p.get_char(j) {
                proof {
                    assert(s@.subrange(i as int, i + p@.len())[j as int] != p@[j as int]);
                }
                matched = false;
                j = m;
            } else {
                j = j + 1;
            }
        }
        if matched {
            proof {
                assert(s@.subrange(i as int, i + p@.len()) =~= p@);
            }
            return true;
        }
        if i == n - m {
            return false;
        }
        i = i + 1;
    }
    false
}

/// `s` with ASCII uppercase letters lowered.
pub open spec fn lower_ascii(s: Seq<char>) -> Seq<char> {
    s.map_values(
        |c: char|
            if 65 <= (c as u32) && (c as u32) <= 90 {
                (((c as u32) + 32) as u8) as char
            } else {
                c
            },
    )
}

/// Lowers the ASCII uppercase letters of `s`.
pub fn to_lower_ascii(s: &str) -> (r: String)
    ensures
        r@ == lower_ascii(s@),
{
    let n = s.unicode_len();
    let mut out = String::new();
    let mut i: usize = 0;
    assert(out@ =~= lower_ascii(s@.take(0)));
    while i < n
        invariant
            i <= n,
            n == s@.len(),
            out@ == lower_ascii(s@.take(i as int)),
        decreases n - i,
    {
        let c = s.get_char(i);
        let code: u32 = c as u32;
        if 65 <= code && code <= 90 {
            push_char(&mut out, ((code + 32) as u8) as char);
        } else {
            push_char(&mut out, c);
        }
        proof {
            assert(out@ =~= lower_ascii(s@.take(i + 1)));
        }
        i = i + 1;
    }
    assert(s@.take(n as int) =~= s@);
    out
}

/// Whether an advertised model identifier is kept for the generated model
/// list: a chat-capable family, no audio or realtime variants, of the
/// `gpt-5` family only the chat alias, and no image models.
pub open spec fn spec_model_id_accepted(id: Seq<char>) -> bool {
    &&& (contains_sub(id, "gpt"@) || contains_sub(id, "o1"@) || contains_sub(id, "o3"@)
        || contains_sub(id, "o4"@))
    &&& !contains_sub(id, "audio"@)
    &&& !contains_sub(id, "realtime"@)
    &&& (!contains_sub(id, "gpt-5"@) || id == "gpt-5-chat-latest"@)
    &&& !(id.len() >= "gpt-image-"@.len() && id.take("gpt-image-"@.len() as int)
        == "gpt-image-"@)
}

/// Decides [`spec_model_id_accepted`].
pub fn model_id_accepted(id: &str) -> (r: bool)
    ensures
        r == spec_model_id_accepted(id@),
{
    (str_contains(id, "gpt") || str_contains(id, "o1") || str_contains(id, "o3") || str_contains(
        id,
        "o4",
    )) && !str_contains(id, "audio") && !str_contains(id, "realtime") && (!str_contains(
        id,
        "gpt-5",
    ) || crate::json::str_eq(id, "gpt-5-chat-latest")) && !crate::json::str_starts_with(
        id,
        "gpt-image-",
    )
}

/// Whether a model name needs the explicit web-search tool: only the
/// dedicated search models, recognized by `search-api` in their lowercased
/// name, search without it.
pub open spec fn spec_needs_web_tool(model: Seq<char>) -> bool {
    !contains_sub(lower_ascii(model), "search-api"@)
}

/// Decides [`spec_needs_web_tool`].
pub fn needs_web_tool(model: &str) -> (r: bool)
    ensures
        r == spec_needs_web_tool(model@),
{
    let low = to_lower_ascii(model);
    !str_contains(low.as_str(), "search-api")
}

} // verus!
