//! Image-endpoint payloads.
//!
//! The HTTP calls live in the application shell. Here the request body for
//! image generation is built, and the response body of both the generation
//! and the edit endpoint is interpreted: an `error` member aborts with its
//! message, otherwise the `data` array yields the image records.

use vstd::prelude::*;

use crate::json::{spec_get, spec_get_str, JsonValue};
use crate::session::dec_str;

verus! {

/// One returned image: a URL or inline base64 data, as the endpoint chose.
#[derive(Clone, Debug)]
pub struct ImageData {
    pub url: Option<String>,
    pub b64_json: Option<String>,
}

/// Why an image response was rejected.
#[derive(Debug)]
pub enum ImagesError {
    /// The response carried an `error` member; the payload is its message.
    Api(String),
    /// The response carried no `data` member.
    MissingData,
    /// The `data` member was not an array of well-formed image records.
    BadData,
}

/// An optional string member: absent or null mean none, a string means
/// itself, anything else fails the record.
pub open spec fn spec_opt_str_member(v: JsonValue, key: Seq<char>) -> Option<Option<Seq<char>>> {
    match spec_get(v, key) {
        None => Some(None),
        Some(JsonValue::Null) => Some(None),
        Some(JsonValue::Str(s)) => Some(Some(s@)),
        Some(_) => None,
    }
}

/// What one `data` element yields: its `url` and `b64_json` members.
pub open spec fn spec_parse_image_item(v: JsonValue) -> Option<
    (Option<Seq<char>>, Option<Seq<char>>),
> {
    match (spec_opt_str_member(v, "url"@), spec_opt_str_member(v, "b64_json"@)) {
        (Some(u), Some(b)) => Some((u, b)),
        _ => None,
    }
}

/// What the `data` array yields, element by element.
pub open spec fn spec_parse_image_items(items: Seq<JsonValue>) -> Option<
    Seq<(Option<Seq<char>>, Option<Seq<char>>)>,
>
    decreases items,
{
    if items.len() == 0 {
        Some(Seq::empty())
    } else {
        match (spec_parse_image_items(items.drop_last()), spec_parse_image_item(items.last())) {
            (Some(rest), Some(it)) => Some(rest.push(it)),
            _ => None,
        }
    }
}

/// The error message of an `error` member: its `message` string, or a
/// generic wording.
pub open spec fn spec_images_err_msg(e: JsonValue) -> Seq<char> {
    match spec_get_str(e, "message"@) {
        Some(s) => s,
        None => "Unknown error"@,
    }
}

/// What an image response means: an `error` member aborts with its message;
/// without one, a well-formed `data` array yields the images, a missing or
/// ill-formed one its own failure.
pub open spec fn spec_images_response(v: JsonValue) -> Result<
    Seq<(Option<Seq<char>>, Option<Seq<char>>)>,
    JsonValue,
> {
    match spec_get(v, "error"@) {
        Some(e) => Err(e),
        None => match spec_get(v, "data"@) {
            Some(JsonValue::Arr(items)) => match spec_parse_image_items(items@) {
                Some(list) => Ok(list),
                None => Err(JsonValue::Null),
            },
            Some(_) => Err(JsonValue::Null),
            None => Err(JsonValue::Null),
        },
    }
}

/// The view of one image record.
pub open spec fn image_view(d: ImageData) -> (Option<Seq<char>>, Option<Seq<char>>) {
    (
        match d.url {
            Some(s) => Some(s@),
            None => None,
        },
        match d.b64_json {
            Some(s) => Some(s@),
            None => None,
        },
    )
}

/// The views of an image list.
pub open spec fn image_views(ds: Seq<ImageData>) -> Seq<(Option<Seq<char>>, Option<Seq<char>>)> {
    ds.map_values(|d: ImageData| image_view(d))
}

/// Reads one optional string member off a record.
fn opt_str_member(v: &JsonValue, key: &str) -> (r: Result<Option<String>, ()>)
    ensures
        match r {
            Ok(o) => spec_opt_str_member(*v, key@) == Some(
                match o {
                    Some(s) => Some(s@),
                    None => None,
                },
            ),
            Err(_) => spec_opt_str_member(*v, key@) is None,
        },
{
    match v.get(key) {
        None => Ok(None),
        Some(w) => match w {
            JsonValue::Null => Ok(None),
            JsonValue::Str(s) => Ok(Some(s.clone())),
            _ => Err(()),
        },
    }
}

/// Interprets an image response, per [`spec_images_response`]: `Ok` exactly
/// on a payload without `error` whose `data` is a well-formed array, with
/// the records in order; the error cases are told apart as the
/// [`ImagesError`] variants.
pub fn parse_images_response(v: &JsonValue) -> (r: Result<Vec<ImageData>, ImagesError>)
    ensures
        match r {
            Ok(items) => spec_images_response(*v) matches Ok(list) && image_views(items@) == list,
            Err(ImagesError::Api(m)) => spec_get(*v, "error"@) matches Some(e) && m@
                == spec_images_err_msg(e),
            Err(ImagesError::MissingData) => spec_get(*v, "error"@) is None && spec_get(
                *v,
                "data"@,
            ) is None,
            Err(ImagesError::BadData) => spec_get(*v, "error"@) is None && match spec_get(
                *v,
                "data"@,
            ) {
                Some(JsonValue::Arr(items)) => spec_parse_image_items(items@) is None,
                Some(_) => true,
                None => false,
            },
        },
{
    match v.get("error") {
        Some(e) => {
            let msg: String = match e.get("message") {
                Some(mv) => match mv.as_str() {
                    Some(s) => s.clone(),
                    None => String::from_str("Unknown error"),
                },
                None => String::from_str("Unknown error"),
            };
            return Err(ImagesError::Api(msg));
        },
        None => {},
    }
    let items = match v.get("data") {
        Some(dv) => match dv {
            JsonValue::Arr(items) => items,
            _ => {
                return Err(ImagesError::BadData);
            },
        },
        None => {
            return Err(ImagesError::MissingData);
        },
    };
    let ghost items_view = items@;
    let mut out: Vec<ImageData> = Vec::new();
    let n = items.len();
    let mut i: usize = 0;
    proof {
        assert(items_view.take(0) =~= Seq::<JsonValue>::empty());
        assert(image_views(out@) =~= Seq::<(Option<Seq<char>>, Option<Seq<char>>)>::empty());
    }
    while i < n
        invariant
            i <= n,
            n == items_view.len(),
            items@ == items_view,
            spec_parse_image_items(items_view.take(i as int)) == Some(image_views(out@)),
        decreases n - i,
    {
        let item = &items[i];
        let url = match opt_str_member(item, "url") {
            Ok(u) => u,
            Err(_) => {
                proof {
                    lemma_image_items_prefix_fail(items_view, i as int);
                }
                return Err(ImagesError::BadData);
            },
        };
        let b64_json = match opt_str_member(item, "b64_json") {
            Ok(b) => b,
            Err(_) => {
                proof {
                    lemma_image_items_prefix_fail(items_view, i as int);
                }
                return Err(ImagesError::BadData);
            },
        };
        let ghost prev = out@;
        out.push(ImageData { url, b64_json });
        proof {
            assert(items_view.take(i + 1).drop_last() =~= items_view.take(i as int));
            assert(items_view.take(i + 1).last() == items_view[i as int]);
            assert(image_views(out@) =~= image_views(prev).push(image_view(out@.last())));
        }
        i = i + 1;
    }
    assert(items_view.take(n as int) =~= items_view);
    Ok(out)
}

/// When one record fails, the whole array fails.
proof fn lemma_image_items_prefix_fail(items: Seq<JsonValue>, i: int)
    requires
        0 <= i < items.len(),
        spec_parse_image_item(items[i]) is None,
    ensures
        spec_parse_image_items(items) is None,
    decreases items.len(),
{
    if items.len() > 0 {
        if i == items.len() - 1 {
        } else {
            assert(items.drop_last()[i] == items[i]);
            lemma_image_items_prefix_fail(items.drop_last(), i);
        }
    }
}

/// The request body for image generation: the model, prompt, count and
/// size, and the response format only when one was asked for.
pub fn build_generate_request(
    model: &str,
    prompt: &str,
    n: u32,
    size: &str,
    response_format: Option<&str>,
) -> (r: JsonValue)
    ensures
        spec_get_str(r, "model"@) == Some(model@),
        spec_get_str(r, "prompt"@) == Some(prompt@),
        spec_get(r, "n"@) matches Some(JsonValue::Num(s)) && s@ == dec_str(n as nat),
        spec_get_str(r, "size"@) == Some(size@),
        match response_format {
            Some(f) => spec_get_str(r, "response_format"@) == Some(f@),
            None => spec_get(r, "response_format"@) is None,
        },
{
    let mut digits = String::new();
    push_dec_u32(n, &mut digits);
    let mut entries: Vec<(String, JsonValue)> = Vec::new();
    entries.push((String::from_str("model"), JsonValue::Str(String::from_str(model))));
    entries.push((String::from_str("prompt"), JsonValue::Str(String::from_str(prompt))));
    entries.push((String::from_str("n"), JsonValue::Num(digits)));
    entries.push((String::from_str("size"), JsonValue::Str(String::from_str(size))));
    match response_format {
        Some(f) => {
            entries.push((
                String::from_str("response_format"),
                JsonValue::Str(String::from_str(f)),
            ));
        },
        None => {},
    }
    let r = JsonValue::Obj(entries);
    proof {
        reveal_strlit("model");
        reveal_strlit("prompt");
        reveal_strlit("n");
        reveal_strlit("size");
        reveal_strlit("response_format");
        reveal_with_fuel(crate::json::spec_obj_get, 6);
        let e = entries@;
        assert(e[0].0@ == "model"@ && (e[0].1 matches JsonValue::Str(s) && s@ == model@));
        assert(e[1].0@ == "prompt"@ && (e[1].1 matches JsonValue::Str(s) && s@ == prompt@));
        assert(e[2].0@ == "n"@);
        assert(e[3].0@ == "size"@ && (e[3].1 matches JsonValue::Str(s) && s@ == size@));
        assert("model"@.len() == 5 && "prompt"@.len() == 6 && "n"@.len() == 1 && "size"@.len()
            == 4 && "response_format"@.len() == 15);
        assert(e.drop_first() =~= e.skip(1));
        assert(e.skip(1).drop_first() =~= e.skip(2));
        assert(e.skip(2).drop_first() =~= e.skip(3));
        assert(e.skip(3).drop_first() =~= e.skip(4));
        if response_format is Some {
            assert(e.skip(4).drop_first() =~= e.skip(5));
        }
    }
    r
}

/// Appends the decimal digits of `n`.
fn push_dec_u32(n: u32, out: &mut String)
    ensures
        final(out)@ == old(out)@ + dec_str(n as nat),
    decreases n,
{
    if n < 10 {
        crate::json::push_char(out, ((48 + n as u8)) as char);
        proof {
            assert(final(out)@ =~= old(out)@ + dec_str(n as nat));
        }
    } else {
        push_dec_u32(n / 10, out);
        crate::json::push_char(out, ((48 + (n % 10) as u8)) as char);
        proof {
            assert(final(out)@ =~= old(out)@ + dec_str(n as nat));
        }
    }
}

} // verus!
