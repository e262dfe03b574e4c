//! Difficulty tables: the parsed form of a table, and the readings of JSON entries
//! and groups that every table layout shares.
use crate::json::{items_text, json_as_array, json_as_str, json_get, json_get_exec, json_items, json_str, json_text, to_raw_json, write_json, JsonValue};
use crate::song_norm::{nonempty, opt_view};
use crate::text::{ascii_lower, ascii_lowercase, ascii_lowercase_chars, chars_to_string, str_to_chars, trim_chars, trim_ws};
use vstd::prelude::*;

pub mod classify;
pub mod parse_a;
pub mod parse_b;
pub mod parse_c;
pub mod parse_d;
pub mod fetch;
pub mod upsert;

verus! {

/// One chart entry of a table, keyed by its lowercase MD5.
pub struct TableEntryParsed {
    pub md5: String,
    pub sha256: Option<String>,
    pub level_text: Option<String>,
    pub title: Option<String>,
    pub artist: Option<String>,
    pub charter: Option<String>,
    pub url: Option<String>,
    pub url_diff: Option<String>,
    pub comment: Option<String>,
    pub raw_json: String,
}

/// One chart of a course or grade.
pub struct GroupItemParsed {
    pub md5: String,
    pub title_hint: Option<String>,
}

/// A course or grade of a table.
pub struct TableGroupParsed {
    pub group_type: String,
    pub group_set_index: i64,
    pub name: Option<String>,
    pub style: Option<String>,
    pub constraints_json: Option<String>,
    pub trophies_json: Option<String>,
    pub raw_json: String,
    pub items: Vec<GroupItemParsed>,
}

/// A table as read from its header and data.
pub struct ParsedTable {
    pub name: Option<String>,
    pub symbol: Option<String>,
    pub tag: Option<String>,
    pub mode: Option<String>,
    pub level_order_json: Option<String>,
    pub attr_json: Option<String>,
    pub entries: Vec<TableEntryParsed>,
    pub groups: Vec<TableGroupParsed>,
}

// ---------------------------------------------------------------------
// Specification

/// The trimmed text of a string member, when present and not blank.
pub open spec fn field_text(v: JsonValue, key: Seq<char>) -> Option<Seq<char>> {
    match json_get(v, key) {
        Some(x) => match json_str(x) {
            Some(s) => nonempty(trim_ws(s)),
            None => None,
        },
        None => None,
    }
}

/// An MD5 as a table holds it: trimmed and ASCII-lowercased, when not empty.
pub open spec fn md5_text(s: Seq<char>) -> Option<Seq<char>> {
    nonempty(ascii_lowercase(trim_ws(s)))
}

/// The normalised `"md5"` member of an entry.
pub open spec fn entry_md5(v: JsonValue) -> Option<Seq<char>> {
    match json_get(v, "md5"@) {
        Some(x) => match json_str(x) {
            Some(s) => md5_text(s),
            None => None,
        },
        None => None,
    }
}

/// The text of the member, when present.
pub open spec fn member_json(v: JsonValue, key: Seq<char>) -> Option<Seq<char>> {
    match json_get(v, key) {
        Some(x) => Some(json_text(x)),
        None => None,
    }
}

/// The text of the first of two members that is present.
pub open spec fn either_member_json(v: JsonValue, k1: Seq<char>, k2: Seq<char>) -> Option<Seq<char>> {
    match json_get(v, k1) {
        Some(x) => Some(json_text(x)),
        None => member_json(v, k2),
    }
}

/// The items of an array member, none when absent or not an array.
pub open spec fn member_items(v: JsonValue, key: Seq<char>) -> Seq<JsonValue> {
    match json_get(v, key) {
        Some(x) => match json_items(x) {
            Some(a) => a,
            None => seq![],
        },
        None => seq![],
    }
}

/// The items of an array value, none for other values.
pub open spec fn array_items(v: JsonValue) -> Seq<JsonValue> {
    match json_items(v) {
        Some(a) => a,
        None => seq![],
    }
}

/// The items that have an MD5, in order.
pub open spec fn md5_entries(items: Seq<JsonValue>) -> Seq<JsonValue>
    decreases items.len(),
{
    if items.len() == 0 {
        seq![]
    } else if entry_md5(items.last()) is Some {
        md5_entries(items.drop_last()).push(items.last())
    } else {
        md5_entries(items.drop_last())
    }
}

pub open spec fn or_else(a: Option<Seq<char>>, b: Option<Seq<char>>) -> Option<Seq<char>> {
    match a {
        Some(x) => Some(x),
        None => b,
    }
}

/// `e` is what the entry `v` reads as; with `song_artist_fallback`, a missing
/// artist is taken from `song_artist`.
pub open spec fn entry_fits(e: TableEntryParsed, v: JsonValue, song_artist_fallback: bool) -> bool {
    &&& entry_md5(v) == Some(e.md5@)
    &&& opt_view(e.sha256) == field_text(v, "sha256"@)
    &&& opt_view(e.level_text) == field_text(v, "level"@)
    &&& opt_view(e.title) == field_text(v, "title"@)
    &&& opt_view(e.artist) == if song_artist_fallback {
        or_else(field_text(v, "artist"@), field_text(v, "song_artist"@))
    } else {
        field_text(v, "artist"@)
    }
    &&& opt_view(e.charter) == field_text(v, "charter"@)
    &&& opt_view(e.url) == field_text(v, "url"@)
    &&& opt_view(e.url_diff) == field_text(v, "url_diff"@)
    &&& opt_view(e.comment) == field_text(v, "comment"@)
    &&& e.raw_json@ == json_text(v)
}

/// The entries are exactly the data items that have an MD5, each read as `entry_fits` says.
pub open spec fn entries_fit(entries: Seq<TableEntryParsed>, data: JsonValue, song_artist_fallback: bool) -> bool {
    &&& entries.len() == md5_entries(array_items(data)).len()
    &&& forall|k: int| 0 <= k < entries.len() ==> entry_fits(#[trigger] entries[k], md5_entries(array_items(data))[k], song_artist_fallback)
}

/// The header-level fields of `t` are those that `header` gives.
pub open spec fn header_fits(t: ParsedTable, header: JsonValue) -> bool {
    &&& opt_view(t.name) == field_text(header, "name"@)
    &&& opt_view(t.symbol) == field_text(header, "symbol"@)
    &&& opt_view(t.tag) == field_text(header, "tag"@)
    &&& opt_view(t.mode) == field_text(header, "mode"@)
    &&& opt_view(t.level_order_json) == member_json(header, "level_order"@)
    &&& opt_view(t.attr_json) == member_json(header, "attr"@)
}

/// The items of a JSON array other than empty strings, in order.
pub open spec fn without_empty_strings(items: Seq<JsonValue>) -> Seq<JsonValue>
    decreases items.len(),
{
    if items.len() == 0 {
        seq![]
    } else {
        let rest = without_empty_strings(items.drop_last());
        if json_str(items.last()) == Some(Seq::<char>::empty()) {
            rest
        } else {
            rest.push(items.last())
        }
    }
}

/// The stored text of a constraint list: an array without its empty-string items;
/// any other value as it is.
pub open spec fn constraints_text(v: JsonValue) -> Seq<char> {
    match json_items(v) {
        Some(a) => seq!['['] + items_text(without_empty_strings(a)) + seq![']'],
        None => json_text(v),
    }
}

/// The stored constraints of a group: its `constraint` member, or its
/// `constraints` member when it has no `constraint`, without empty strings.
pub open spec fn group_constraints(v: JsonValue) -> Option<Seq<char>> {
    let m = match json_get(v, "constraint"@) {
        Some(x) => Some(x),
        None => json_get(v, "constraints"@),
    };
    match m {
        Some(x) => Some(constraints_text(x)),
        None => None,
    }
}

// ---------------------------------------------------------------------
// Laws

/// An ASCII-lowercased character is no ASCII capital.
pub proof fn lemma_ascii_lower_not_upper(c: char)
    ensures
        !('A' <= ascii_lower(c) <= 'Z'),
{
    if 'A' <= c <= 'Z' {
        assert(((c as u8) + 32) as char as u32 == c as u32 + 32);
    }
}

/// Every MD5 of a table is stored in lowercase: a normalised MD5 is non-empty and
/// holds no ASCII capital.
pub proof fn lemma_md5_text_lowercase(s: Seq<char>)
    ensures
        md5_text(s) matches Some(m) ==> m.len() > 0 && forall|i: int| 0 <= i < m.len() ==> !('A' <= #[trigger] m[i] <= 'Z'),
{
    let m = ascii_lowercase(trim_ws(s));
    assert forall|i: int| 0 <= i < m.len() implies !('A' <= #[trigger] m[i] <= 'Z') by {
        lemma_ascii_lower_not_upper(trim_ws(s)[i]);
    }
}

/// The MD5 of every parsed entry is stored in lowercase.
pub proof fn lemma_entries_md5_lowercase(entries: Seq<TableEntryParsed>, data: JsonValue, song_artist_fallback: bool)
    requires
        entries_fit(entries, data, song_artist_fallback),
    ensures
        forall|k: int, i: int| 0 <= k < entries.len() && 0 <= i < entries[k].md5@.len() ==> !('A' <= #[trigger] entries[k].md5@[i] <= 'Z'),
{
    assert forall|k: int, i: int| 0 <= k < entries.len() && 0 <= i < entries[k].md5@.len() implies !('A' <= #[trigger] entries[k].md5@[i] <= 'Z') by {
        let v = md5_entries(array_items(data))[k];
        assert(entry_fits(entries[k], v, song_artist_fallback));
        let s = json_str(json_get(v, "md5"@)->0)->0;
        lemma_md5_text_lowercase(s);
    }
}

/// A member that is a string with something besides white space, trimmed.
pub open spec fn nonblank_string(m: Option<JsonValue>) -> Option<Seq<char>> {
    match m {
        Some(JsonValue::Str(s)) => if trim_ws(s@).len() > 0 {
            Some(trim_ws(s@))
        } else {
            None
        },
        _ => None,
    }
}

/// A table's own fields read its header's members: the name from `"name"`, the
/// symbol from `"symbol"`, the tag from `"tag"` and the mode from `"mode"`, each the
/// member's string trimmed where it is one and not blank; the level order and the
/// attributes as the JSON text of `"level_order"` and of `"attr"`.
pub proof fn lemma_header_reads_members(t: ParsedTable, header: JsonValue)
    requires
        header_fits(t, header),
    ensures
        opt_view(t.name) == nonblank_string(json_get(header, "name"@)),
        opt_view(t.symbol) == nonblank_string(json_get(header, "symbol"@)),
        opt_view(t.tag) == nonblank_string(json_get(header, "tag"@)),
        opt_view(t.mode) == nonblank_string(json_get(header, "mode"@)),
        opt_view(t.level_order_json) == match json_get(header, "level_order"@) {
            Some(x) => Some(json_text(x)),
            None => None,
        },
        opt_view(t.attr_json) == match json_get(header, "attr"@) {
            Some(x) => Some(json_text(x)),
            None => None,
        },
{
}

/// Every item that keeps an entry is one of the data's items.
proof fn lemma_md5_entries_from_items(items: Seq<JsonValue>, k: int)
    requires
        0 <= k < md5_entries(items).len(),
    ensures
        exists|j: int| 0 <= j < items.len() && items[j] == md5_entries(items)[k],
    decreases items.len(),
{
    let rest = md5_entries(items.drop_last());
    if k < rest.len() {
        lemma_md5_entries_from_items(items.drop_last(), k);
        let j = choose|j: int| 0 <= j < items.drop_last().len() && items.drop_last()[j] == rest[k];
        assert(items[j] == md5_entries(items)[k]);
    } else {
        assert(items[items.len() - 1] == md5_entries(items)[k]);
    }
}

/// Every item with an MD5 keeps an entry.
proof fn lemma_md5_entries_complete(items: Seq<JsonValue>, j: int)
    requires
        0 <= j < items.len(),
        nonblank_string(json_get(items[j], "md5"@)) is Some,
    ensures
        exists|k: int| 0 <= k < md5_entries(items).len() && md5_entries(items)[k] == items[j],
    decreases items.len(),
{
    let rest = md5_entries(items.drop_last());
    if j == items.len() - 1 {
        assert(entry_md5(items.last()) is Some);
        assert(md5_entries(items)[rest.len() as int] == items[j]);
    } else {
        assert(items.drop_last()[j] == items[j]);
        lemma_md5_entries_complete(items.drop_last(), j);
        let k = choose|k: int| 0 <= k < rest.len() && rest[k] == items[j];
        assert(md5_entries(items)[k] == items[j]);
    }
}

/// No chart of a table is lost: every data item whose `"md5"` is a string that is
/// not blank has an entry, which holds that item's JSON text and its MD5 trimmed
/// and lowercased.
pub proof fn lemma_item_has_entry(entries: Seq<TableEntryParsed>, data: JsonValue, song_artist_fallback: bool, j: int)
    requires
        entries_fit(entries, data, song_artist_fallback),
        json_items(data) is Some,
        0 <= j < json_items(data)->0.len(),
        nonblank_string(json_get(json_items(data)->0[j], "md5"@)) is Some,
    ensures
        exists|k: int| 0 <= k < entries.len() && (#[trigger] entries[k]).raw_json@ == json_text(json_items(data)->0[j])
            && entries[k].md5@ == ascii_lowercase(nonblank_string(json_get(json_items(data)->0[j], "md5"@))->0),
{
    let items = json_items(data)->0;
    lemma_md5_entries_complete(items, j);
    let k = choose|k: int| 0 <= k < md5_entries(items).len() && md5_entries(items)[k] == items[j];
    assert(entry_fits(entries[k], items[j], song_artist_fallback));
}

/// Each parsed entry reads its data item's members: the MD5 from `"md5"`, trimmed
/// and lowercased; the title from `"title"`, the level from `"level"` and so on,
/// each the member's string trimmed where it is one and not blank; the artist from
/// `"artist"`, else, where the layout allows it, from `"song_artist"`; and the
/// item's JSON text.
pub proof fn lemma_entry_reads_members(entries: Seq<TableEntryParsed>, data: JsonValue, song_artist_fallback: bool, k: int)
    requires
        entries_fit(entries, data, song_artist_fallback),
        0 <= k < entries.len(),
    ensures
        ({
            let v = md5_entries(array_items(data))[k];
            let e = entries[k];
            &&& json_items(data) matches Some(items) && exists|j: int| 0 <= j < items.len() && items[j] == v
            &&& json_get(v, "md5"@) matches Some(JsonValue::Str(m)) && e.md5@ == ascii_lowercase(trim_ws(m@))
            &&& e.md5@.len() > 0
            &&& opt_view(e.title) == nonblank_string(json_get(v, "title"@))
            &&& opt_view(e.level_text) == nonblank_string(json_get(v, "level"@))
            &&& opt_view(e.sha256) == nonblank_string(json_get(v, "sha256"@))
            &&& opt_view(e.charter) == nonblank_string(json_get(v, "charter"@))
            &&& opt_view(e.url) == nonblank_string(json_get(v, "url"@))
            &&& opt_view(e.url_diff) == nonblank_string(json_get(v, "url_diff"@))
            &&& opt_view(e.comment) == nonblank_string(json_get(v, "comment"@))
            &&& opt_view(e.artist) == match nonblank_string(json_get(v, "artist"@)) {
                Some(a) => Some(a),
                None => if song_artist_fallback {
                    nonblank_string(json_get(v, "song_artist"@))
                } else {
                    None
                },
            }
            &&& e.raw_json@ == json_text(v)
        }),
{
    let v = md5_entries(array_items(data))[k];
    assert(entry_fits(entries[k], v, song_artist_fallback));
    lemma_md5_entries_from_items(array_items(data), k);
    if json_items(data) is None {
        assert(array_items(data).len() == 0);
    }
}

// ---------------------------------------------------------------------
// Implementation

/// The trimmed text of a string member, `None` when absent, not a string or blank.
pub fn string_field(v: &JsonValue, key: &str) -> (r: Option<String>)
    ensures
        opt_view(r) == field_text(*v, key@),
{
    match json_get_exec(v, key) {
        Some(x) => match json_as_str(x) {
            Some(s) => {
                let t = trim_chars(&str_to_chars(s.as_str()));
                if t.len() == 0 {
                    None
                } else {
                    Some(chars_to_string(&t))
                }
            },
            None => None,
        },
        None => None,
    }
}

fn md5_of_text(s: &String) -> (r: Option<String>)
    ensures
        opt_view(r) == md5_text(s@),
{
    let t = ascii_lowercase_chars(&trim_chars(&str_to_chars(s.as_str())));
    if t.len() == 0 {
        None
    } else {
        Some(chars_to_string(&t))
    }
}

/// The `"md5"` member, trimmed and lowercased; `None` when absent or empty.
pub fn lower_md5(v: &JsonValue) -> (r: Option<String>)
    ensures
        opt_view(r) == entry_md5(*v),
{
    match json_get_exec(v, "md5") {
        Some(x) => match json_as_str(x) {
            Some(s) => md5_of_text(s),
            None => None,
        },
        None => None,
    }
}

/// The text of a member, when present.
pub fn member_raw(v: &JsonValue, key: &str) -> (r: Option<String>)
    ensures
        opt_view(r) == member_json(*v, key@),
{
    match json_get_exec(v, key) {
        Some(x) => Some(to_raw_json(x)),
        None => None,
    }
}

/// The text of the first of two members that is present.
pub fn either_member_raw(v: &JsonValue, k1: &str, k2: &str) -> (r: Option<String>)
    ensures
        opt_view(r) == either_member_json(*v, k1@, k2@),
{
    match json_get_exec(v, k1) {
        Some(x) => Some(to_raw_json(x)),
        None => member_raw(v, k2),
    }
}

/// Reads every data item that has an MD5 as a table entry.
pub fn parse_entries(data: &JsonValue, song_artist_fallback: bool) -> (r: Vec<TableEntryParsed>)
    ensures
        entries_fit(r@, *data, song_artist_fallback),
{
    let mut out: Vec<TableEntryParsed> = Vec::new();
    match json_as_array(data) {
        None => {
            assert(md5_entries(array_items(*data)) =~= Seq::<JsonValue>::empty());
            out
        },
        Some(items) => {
            let ghost all = items@;
            let mut i: usize = 0;
            while i < items.len()
                invariant
                    all == items@,
                    all == array_items(*data),
                    i <= items.len(),
                    out@.len() == md5_entries(all.take(i as int)).len(),
                    forall|k: int| 0 <= k < out@.len() ==> entry_fits(#[trigger] out@[k], md5_entries(all.take(i as int))[k], song_artist_fallback),
                decreases items.len() - i,
            {
                let v = &items[i];
                assert(all.take(i + 1).drop_last() =~= all.take(i as int));
                assert(all.take(i + 1).last() == *v);
                match lower_md5(v) {
                    Some(md5) => {
                        let artist = if song_artist_fallback {
                            match string_field(v, "artist") {
                                Some(a) => Some(a),
                                None => string_field(v, "song_artist"),
                            }
                        } else {
                            string_field(v, "artist")
                        };
                        let e = TableEntryParsed {
                            md5,
                            sha256: string_field(v, "sha256"),
                            level_text: string_field(v, "level"),
                            title: string_field(v, "title"),
                            artist,
                            charter: string_field(v, "charter"),
                            url: string_field(v, "url"),
                            url_diff: string_field(v, "url_diff"),
                            comment: string_field(v, "comment"),
                            raw_json: to_raw_json(v),
                        };
                        let ghost prev = out@;
                        out.push(e);
                        proof {
                            let me = md5_entries(all.take(i + 1));
                            assert(me == md5_entries(all.take(i as int)).push(*v));
                            assert forall|k: int| 0 <= k < out@.len() implies entry_fits(#[trigger] out@[k], me[k], song_artist_fallback) by {
                                if k < prev.len() {
                                    assert(out@[k] == prev[k]);
                                }
                            }
                        }
                    },
                    None => {},
                }
                i += 1;
            }
            assert(all.take(items.len() as int) =~= all);
            out
        },
    }
}


/// The text of an array without its empty-string items.
fn array_text_without_empty(a: &Vec<JsonValue>) -> (r: String)
    ensures
        r@ == seq!['['] + items_text(without_empty_strings(a@)) + seq![']'],
{
    let mut out: Vec<char> = Vec::new();
    out.push('[');
    let mut first = true;
    let mut i: usize = 0;
    while i < a.len()
        invariant
            i <= a@.len(),
            out@ == seq!['['] + items_text(without_empty_strings(a@.take(i as int))),
            first <==> without_empty_strings(a@.take(i as int)).len() == 0,
        decreases a@.len() - i,
    {
        let ghost f = without_empty_strings(a@.take(i as int));
        assert(a@.take(i + 1).drop_last() =~= a@.take(i as int));
        assert(a@.take(i + 1).last() == a@[i as int]);
        let x = &a[i];
        let empty = match json_as_str(x) {
            Some(t) => {
                let e = t.as_str().is_empty();
                proof {
                    if e {
                        assert(t@ =~= Seq::<char>::empty());
                    }
                }
                e
            },
            None => false,
        };
        assert(empty <==> json_str(*x) == Some(Seq::<char>::empty()));
        assert(without_empty_strings(a@.take(i + 1)) == if empty {
            f
        } else {
            f.push(*x)
        });
        if !empty {
            let ghost g = f.push(*x);
            assert(g.drop_last() =~= f);
            if !first {
                out.push(',');
            }
            write_json(x, &mut out);
            proof {
                if f.len() == 0 {
                    assert(g.len() == 1 && g[0] == *x);
                    assert(items_text(g) == json_text(*x));
                } else {
                    assert(items_text(g) == items_text(f) + seq![','] + json_text(*x));
                }
            }
            first = false;
            assert(out@ =~= seq!['['] + items_text(g));
        }
        i += 1;
    }
    assert(a@.take(a@.len() as int) =~= a@);
    out.push(']');
    chars_to_string(&out)
}

/// The stored constraints of a group, without empty strings.
pub fn constraints_raw(v: &JsonValue) -> (r: Option<String>)
    ensures
        opt_view(r) == group_constraints(*v),
{
    let m = match json_get_exec(v, "constraint") {
        Some(x) => Some(x),
        None => json_get_exec(v, "constraints"),
    };
    match m {
        Some(x) => match json_as_array(x) {
            Some(a) => Some(array_text_without_empty(a)),
            None => Some(to_raw_json(x)),
        },
        None => None,
    }
}
}
