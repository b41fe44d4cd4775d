//! The text of a form: its fields as TOML or JSON, and back.

use crate::display;
use crate::json::{self, Json, JsonV};
use crate::strmap::{Data, StrMap};
use crate::text;
use vstd::prelude::*;

verus! {

/// The TOML that the `toml` crate writes for a value, or the message of its
/// error.
pub uninterp spec fn toml_written(v: JsonV) -> Result<Seq<char>, Seq<char>>;

/// What the `toml` crate reads from the TOML `t` as an object, or the message of
/// its error.
pub uninterp spec fn toml_read(t: Seq<char>) -> Result<JsonV, Seq<char>>;

/// What `serde_json` reads from `t` as an object, or the message of its error.
pub uninterp spec fn json_read(t: Seq<char>) -> Result<JsonV, Seq<char>>;

/// `toml::to_string_pretty`. What it writes depends on what the value holds
/// alone; neither the layout nor which values TOML cannot hold is stated.
#[verifier::external_body]
fn write_toml(v: &serde_json::Value) -> (r: Result<String, String>)
    ensures
        toml_written(json::json_content(*v)) == (match r {
            Ok(s) => Ok::<Seq<char>, Seq<char>>(s@),
            Err(e) => Err::<Seq<char>, Seq<char>>(e@),
        }),
{
    toml::to_string_pretty(v).map_err(|e| e.to_string())
}

/// `toml::from_str` into an object of `serde_json` values. What it reads depends
/// on `t` alone, and is an object where it reads anything.
#[verifier::external_body]
fn read_toml(t: &str) -> (r: Result<serde_json::Value, String>)
    ensures
        match r {
            Ok(v) => toml_read(t@) == Ok::<JsonV, Seq<char>>(json::json_content(v))
                && json::json_content(v) is Obj,
            Err(e) => toml_read(t@) == Err::<JsonV, Seq<char>>(e@),
        },
{
    let read: Result<serde_json::Map<String, serde_json::Value>, toml::de::Error> =
        toml::from_str(t);
    read.map(serde_json::Value::Object).map_err(|e| e.to_string())
}

/// `serde_json::from_str` into an object. What it reads depends on `t` alone,
/// and is an object where it reads anything.
#[verifier::external_body]
fn read_json(t: &str) -> (r: Result<serde_json::Value, String>)
    ensures
        match r {
            Ok(v) => json_read(t@) == Ok::<JsonV, Seq<char>>(json::json_content(v))
                && json::json_content(v) is Obj,
            Err(e) => json_read(t@) == Err::<JsonV, Seq<char>>(e@),
        },
{
    let read: Result<serde_json::Map<String, serde_json::Value>, serde_json::Error> =
        serde_json::from_str(t);
    read.map(serde_json::Value::Object).map_err(|e| e.to_string())
}

/// The text of a form: indented JSON, or TOML, or the hint to use JSON for a
/// value TOML cannot hold.
pub open spec fn form_text(fields: Map<Seq<char>, JsonV>, as_json: bool) -> Result<
    Seq<char>,
    Seq<char>,
> {
    let v = json::object(fields);
    if as_json {
        Ok(display::pretty(v))
    } else {
        match toml_written(v) {
            Ok(s) => Ok(s),
            Err(e) => Err(
                "cannot represent this"@ + " task as TOML ("@ + e
                    + "); edit it with `--json` instead"@,
            ),
        }
    }
}

/// The text of a form.
pub fn serialize_fields(fields: &StrMap<Json>, as_json: bool) -> (r: Result<String, String>)
    ensures
        form_text(fields@, as_json) == (match r {
            Ok(s) => Ok::<Seq<char>, Seq<char>>(s@),
            Err(e) => Err::<Seq<char>, Seq<char>>(e@),
        }),
{
    let v = json::make_object(fields.copy());
    if as_json {
        return Ok(display::pretty_text(&v));
    }
    match write_toml(&json::value_of(&v)) {
        Ok(s) => Ok(s),
        Err(e) => Err(
            text::cat2(
                text::cat3("cannot represent this", " task as TOML (", e.as_str()).as_str(),
                "); edit it with `--json` instead",
            ),
        ),
    }
}

/// What a reader made of a saved form, with its message behind `lead` where it
/// failed.
pub open spec fn form_read(read: Result<JsonV, Seq<char>>, lead: Seq<char>) -> Result<
    JsonV,
    Seq<char>,
> {
    match read {
        Ok(v) => Ok(v),
        Err(e) => Err(lead + e),
    }
}

/// The fields of a saved form, or the reader's message.
pub open spec fn saved_form(t: Seq<char>, as_json: bool) -> Result<JsonV, Seq<char>> {
    if as_json {
        form_read(json_read(t), "invalid JSON: "@)
    } else {
        form_read(toml_read(t), "invalid TOML: "@)
    }
}

/// Takes the fields out of what a reader made of a form.
fn fields_of(
    read: Result<serde_json::Value, String>,
    lead: &str,
) -> (r: Result<StrMap<Json>, String>)
    requires
        read matches Ok(v) ==> json::json_content(v) is Obj,
    ensures
        match (read, r) {
            (Ok(v), Ok(m)) => json::json_content(v) == json::object(m@),
            (Err(e), Err(f)) => f@ == lead@ + e@,
            _ => false,
        },
{
    match read {
        Ok(v) => {
            let whole = json::json_of(v);
            match whole {
                Json::Obj(m) => {
                    json::relate(&m);
                    Ok(m)
                },
                _ => Ok(StrMap::new()),
            }
        },
        Err(e) => Err(text::cat2(lead, e.as_str())),
    }
}

/// The fields of a saved form.
pub fn parse_fields(t: &str, as_json: bool) -> (r: Result<StrMap<Json>, String>)
    ensures
        saved_form(t@, as_json) == (match r {
            Ok(m) => Ok::<JsonV, Seq<char>>(json::object(m@)),
            Err(e) => Err::<JsonV, Seq<char>>(e@),
        }),
{
    if as_json {
        fields_of(read_json(t), "invalid JSON: ")
    } else {
        fields_of(read_toml(t), "invalid TOML: ")
    }
}

/// A form is written and read in the format that is asked for.
pub proof fn forms_keep_their_format(
    fields: StrMap<Json>,
    w: Result<String, String>,
    t: &str,
    r: Result<StrMap<Json>, String>,
    as_json: bool,
)
    requires
        call_ensures(serialize_fields, (&fields, as_json), w),
        call_ensures(parse_fields, (t, as_json), r),
    ensures
        as_json ==> w is Ok && w->Ok_0@ == display::pretty(json::object(fields@)),
        !as_json ==> (w is Ok <==> toml_written(json::object(fields@)) is Ok),
        !as_json && w is Ok ==> toml_written(json::object(fields@)) == Ok::<Seq<char>, Seq<char>>(
            w->Ok_0@,
        ),
        as_json ==> (r is Ok <==> json_read(t@) is Ok),
        !as_json ==> (r is Ok <==> toml_read(t@) is Ok),
        as_json && r is Ok ==> json_read(t@) == Ok::<JsonV, Seq<char>>(json::object(r->Ok_0@)),
        !as_json && r is Ok ==> toml_read(t@) == Ok::<JsonV, Seq<char>>(json::object(r->Ok_0@)),
{
}

} // verus!
