//! Telling the layout of a difficulty table from its header, data and URLs.
use crate::json::{json_as_array, json_get, json_get_exec, json_items, JsonValue};
use crate::text::{find_chars, find_seq, str_to_chars};
use vstd::prelude::*;

verus! {

/// The layouts of difficulty tables.
#[derive(Clone, Copy, Debug, PartialEq, Eq, Structural)]
pub enum TablePattern {
    /// Classic: a flat header and an array of entries.
    A,
    /// Analyzer: courses in the header and a score catalogue as data.
    B,
    /// Extended header: grades or `mode`/`attr`/`tag` keys.
    C,
    /// API: data served by a script endpoint.
    D,
}

/// `str::contains` with a string pattern.
pub open spec fn contains_text(h: Seq<char>, n: Seq<char>) -> bool {
    find_seq(h, n) is Some
}

pub open spec fn has_member(v: JsonValue, key: Seq<char>) -> bool {
    json_get(v, key) is Some
}

/// The layout that a table's header, data and URLs point to: a data URL that looks
/// like a script or API endpoint means D; a `grade`, `mode`, `attr` or `tag` key
/// in the header means C; a `course` key means B; array data means A; else D.
pub open spec fn classify_spec(header: JsonValue, data: JsonValue, data_final_url: Seq<char>, data_url: Seq<char>) -> TablePattern {
    let has_course = has_member(header, "course"@);
    let has_grade = has_member(header, "grade"@);
    let has_ext = has_member(header, "mode"@) || has_member(header, "attr"@) || has_member(header, "tag"@);
    let likely_api = contains_text(data_url, "script"@) || contains_text(data_final_url, "script"@)
        || contains_text(data_final_url, "exec"@) || contains_text(data_final_url, "api"@);
    if likely_api {
        TablePattern::D
    } else if has_grade || has_ext {
        TablePattern::C
    } else if has_course && !has_grade {
        TablePattern::B
    } else if json_items(data) is Some {
        TablePattern::A
    } else {
        TablePattern::D
    }
}

/// The layout follows the first rule that applies, in this order: a data URL that
/// mentions `script`, or a final data URL that mentions `script`, `exec` or `api`,
/// gives D; a header with a `grade`, `mode`, `attr` or `tag` member gives C; one
/// with a `course` member gives B; array data gives A; anything else gives D.
pub proof fn lemma_classify_rules(header: JsonValue, data: JsonValue, data_final_url: Seq<char>, data_url: Seq<char>)
    ensures
        ({
            let r = classify_spec(header, data, data_final_url, data_url);
            let api = find_seq(data_url, "script"@) is Some || find_seq(data_final_url, "script"@) is Some
                || find_seq(data_final_url, "exec"@) is Some || find_seq(data_final_url, "api"@) is Some;
            let ext = json_get(header, "grade"@) is Some || json_get(header, "mode"@) is Some
                || json_get(header, "attr"@) is Some || json_get(header, "tag"@) is Some;
            &&& api ==> r == TablePattern::D
            &&& !api && ext ==> r == TablePattern::C
            &&& !api && !ext && json_get(header, "course"@) is Some ==> r == TablePattern::B
            &&& !api && !ext && json_get(header, "course"@) is None && json_items(data) is Some ==> r == TablePattern::A
            &&& !api && !ext && json_get(header, "course"@) is None && json_items(data) is None ==> r == TablePattern::D
        }),
{
}

fn contains(h: &str, n: &str) -> (r: bool)
    ensures
        r == contains_text(h@, n@),
{
    find_chars(&str_to_chars(h), &str_to_chars(n)).is_some()
}

fn has_key(v: &JsonValue, key: &str) -> (r: bool)
    ensures
        r == has_member(*v, key@),
{
    json_get_exec(v, key).is_some()
}

/// Classifies a table's layout (see `classify_spec`).
pub fn classify(header: &JsonValue, data: &JsonValue, data_final_url: &str, data_url: &str) -> (r: TablePattern)
    ensures
        r == classify_spec(*header, *data, data_final_url@, data_url@),
{
    let has_course = has_key(header, "course");
    let has_grade = has_key(header, "grade");
    let has_ext = has_key(header, "mode") || has_key(header, "attr") || has_key(header, "tag");
    let likely_api = contains(data_url, "script") || contains(data_final_url, "script")
        || contains(data_final_url, "exec") || contains(data_final_url, "api");
    if likely_api {
        return TablePattern::D;
    }
    if has_grade || has_ext {
        return TablePattern::C;
    }
    if has_course && !has_grade {
        return TablePattern::B;
    }
    if json_as_array(data).is_some() {
        return TablePattern::A;
    }
    TablePattern::D
}

pub open spec fn pattern_label(p: TablePattern) -> Seq<char> {
    match p {
        TablePattern::A => "A"@,
        TablePattern::B => "B"@,
        TablePattern::C => "C"@,
        TablePattern::D => "D"@,
    }
}

/// The one-letter name of a layout.
pub fn pattern_name(p: TablePattern) -> (r: &'static str)
    ensures
        r@ == pattern_label(p),
{
    match p {
        TablePattern::A => "A",
        TablePattern::B => "B",
        TablePattern::C => "C",
        TablePattern::D => "D",
    }
}

}
