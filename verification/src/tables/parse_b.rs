//! Analyzer-style tables: a score catalogue as data and courses in the header.
use crate::json::{json_as_array, json_as_str, json_get, json_get_exec, json_str, json_text, to_raw_json, JsonValue};
use crate::song_norm::opt_view;
use crate::tables::{
    constraints_raw, either_member_json, either_member_raw, entries_fit, group_constraints, entry_md5, field_text,
    header_fits, lemma_md5_text_lowercase, nonblank_string, lower_md5, md5_text, member_items, member_raw, parse_entries, string_field,
    GroupItemParsed, ParsedTable, TableGroupParsed,
};
use crate::text::{ascii_lowercase, trim_ws, ascii_lowercase_chars, chars_to_string, str_to_chars, trim_chars};
use vstd::prelude::*;

verus! {

pub type ItemTuple = (Seq<char>, Option<Seq<char>>);

pub open spec fn item_view(i: GroupItemParsed) -> ItemTuple {
    (i.md5@, opt_view(i.title_hint))
}

pub open spec fn items_view(v: Seq<GroupItemParsed>) -> Seq<ItemTuple> {
    v.map_values(|i: GroupItemParsed| item_view(i))
}

/// The MD5 strings of a `"md5"` list, normalised, without title hints.
pub open spec fn md5_list_items(items: Seq<JsonValue>) -> Seq<ItemTuple>
    decreases items.len(),
{
    if items.len() == 0 {
        seq![]
    } else {
        let rest = md5_list_items(items.drop_last());
        match json_str(items.last()) {
            Some(s) => match md5_text(s) {
                Some(m) => rest.push((m, None)),
                None => rest,
            },
            None => rest,
        }
    }
}

/// The charts of a `"charts"` list that have an MD5, with their titles as hints.
pub open spec fn chart_items(items: Seq<JsonValue>) -> Seq<ItemTuple>
    decreases items.len(),
{
    if items.len() == 0 {
        seq![]
    } else {
        let rest = chart_items(items.drop_last());
        match entry_md5(items.last()) {
            Some(m) => rest.push((m, field_text(items.last(), "title"@))),
            None => rest,
        }
    }
}

/// The items of a course: its `"md5"` list, then its `"charts"`.
pub open spec fn course_items(c: JsonValue) -> Seq<ItemTuple> {
    md5_list_items(member_items(c, "md5"@)) + chart_items(member_items(c, "charts"@))
}

/// `g` is what the group object `c` reads as, with type `kind` and set index `idx`:
/// its name, style, constraints without empty strings, trophies, whole text and
/// items.
pub open spec fn group_fits(g: TableGroupParsed, c: JsonValue, kind: Seq<char>, idx: int) -> bool {
    &&& g.group_type@ == kind
    &&& g.group_set_index == idx as i64
    &&& opt_view(g.name) == field_text(c, "name"@)
    &&& opt_view(g.style) == field_text(c, "style"@)
    &&& opt_view(g.constraints_json) == group_constraints(c)
    &&& opt_view(g.trophies_json) == either_member_json(c, "trophy"@, "trophies"@)
    &&& g.raw_json@ == json_text(c)
    &&& items_view(g.items@) == course_items(c)
}

/// `g` is what the course `c` at position `idx` reads as.
pub open spec fn course_fits(g: TableGroupParsed, c: JsonValue, idx: int) -> bool {
    group_fits(g, c, "course"@, idx)
}

/// No ASCII capital in any character.
pub open spec fn no_ascii_upper(m: Seq<char>) -> bool {
    forall|i: int| 0 <= i < m.len() ==> !('A' <= #[trigger] m[i] <= 'Z')
}

proof fn lemma_md5_list_items_lowercase(items: Seq<JsonValue>)
    ensures
        forall|k: int| 0 <= k < md5_list_items(items).len() ==> no_ascii_upper(#[trigger] md5_list_items(items)[k].0),
    decreases items.len(),
{
    if items.len() > 0 {
        let rest = md5_list_items(items.drop_last());
        lemma_md5_list_items_lowercase(items.drop_last());
        match json_str(items.last()) {
            Some(s) => lemma_md5_text_lowercase(s),
            None => {},
        }
        assert forall|k: int| 0 <= k < md5_list_items(items).len() implies no_ascii_upper(#[trigger] md5_list_items(items)[k].0) by {
            if k < rest.len() {
                assert(md5_list_items(items)[k] == rest[k]);
            }
        }
    }
}

proof fn lemma_chart_items_lowercase(items: Seq<JsonValue>)
    ensures
        forall|k: int| 0 <= k < chart_items(items).len() ==> no_ascii_upper(#[trigger] chart_items(items)[k].0),
    decreases items.len(),
{
    if items.len() > 0 {
        let rest = chart_items(items.drop_last());
        lemma_chart_items_lowercase(items.drop_last());
        match json_get(items.last(), "md5"@) {
            Some(x) => match json_str(x) {
                Some(s) => lemma_md5_text_lowercase(s),
                None => {},
            },
            None => {},
        }
        assert forall|k: int| 0 <= k < chart_items(items).len() implies no_ascii_upper(#[trigger] chart_items(items)[k].0) by {
            if k < rest.len() {
                assert(chart_items(items)[k] == rest[k]);
            }
        }
    }
}

/// Every MD5 of a course's items is stored in lowercase.
pub proof fn lemma_course_items_lowercase(c: JsonValue)
    ensures
        forall|k: int| 0 <= k < course_items(c).len() ==> no_ascii_upper(#[trigger] course_items(c)[k].0),
{
    let a = md5_list_items(member_items(c, "md5"@));
    let b = chart_items(member_items(c, "charts"@));
    lemma_md5_list_items_lowercase(member_items(c, "md5"@));
    lemma_chart_items_lowercase(member_items(c, "charts"@));
    assert forall|k: int| 0 <= k < course_items(c).len() implies no_ascii_upper(#[trigger] course_items(c)[k].0) by {
        if k < a.len() {
            assert(course_items(c)[k] == a[k]);
        } else {
            assert(course_items(c)[k] == b[k - a.len()]);
        }
    }
}

/// The string of a member, where the member is one.
pub open spec fn member_string(v: JsonValue, key: Seq<char>) -> Option<Seq<char>> {
    match json_get(v, key) {
        Some(JsonValue::Str(s)) => Some(s@),
        _ => None,
    }
}

/// Each chart of a `"charts"` list is read from one of the list's objects: its MD5
/// from the object's `"md5"` string, trimmed and lowercased, and its title hint
/// from `"title"`, trimmed, where it is a string that is not blank.
pub proof fn lemma_chart_items_read(items: Seq<JsonValue>, k: int)
    requires
        0 <= k < chart_items(items).len(),
    ensures
        exists|j: int| 0 <= j < items.len() && member_string(#[trigger] items[j], "md5"@) is Some
            && chart_items(items)[k] == (ascii_lowercase(trim_ws(member_string(items[j], "md5"@)->0)), nonblank_string(json_get(items[j], "title"@))),
    decreases items.len(),
{
    let rest = chart_items(items.drop_last());
    if k < rest.len() {
        lemma_chart_items_read(items.drop_last(), k);
        let j = choose|j: int| 0 <= j < items.drop_last().len() && member_string(#[trigger] items.drop_last()[j], "md5"@) is Some
            && rest[k] == (ascii_lowercase(trim_ws(member_string(items.drop_last()[j], "md5"@)->0)), nonblank_string(json_get(items.drop_last()[j], "title"@)));
        assert(items[j] == items.drop_last()[j]);
    } else {
        let j = items.len() - 1;
        assert(items[j] == items.last());
    }
}

/// Each item of an `"md5"` list is one of the list's strings, trimmed and
/// lowercased, with no title hint.
pub proof fn lemma_md5_list_items_read(items: Seq<JsonValue>, k: int)
    requires
        0 <= k < md5_list_items(items).len(),
    ensures
        exists|j: int| 0 <= j < items.len() && json_str(#[trigger] items[j]) is Some
            && md5_list_items(items)[k] == (ascii_lowercase(trim_ws(json_str(items[j])->0)), None::<Seq<char>>),
    decreases items.len(),
{
    let rest = md5_list_items(items.drop_last());
    if k < rest.len() {
        lemma_md5_list_items_read(items.drop_last(), k);
        let j = choose|j: int| 0 <= j < items.drop_last().len() && json_str(#[trigger] items.drop_last()[j]) is Some
            && rest[k] == (ascii_lowercase(trim_ws(json_str(items.drop_last()[j])->0)), None::<Seq<char>>);
        assert(items[j] == items.drop_last()[j]);
    } else {
        let j = items.len() - 1;
        assert(items[j] == items.last());
    }
}

/// A course or grade reads its group object's members: the name from `"name"` and
/// the style from `"style"`, each the member's string trimmed where it is one and
/// not blank; the trophies as the JSON text of `"trophy"`, else of `"trophies"`;
/// and the object's JSON text.
pub proof fn lemma_group_reads_members(g: TableGroupParsed, c: JsonValue, kind: Seq<char>, idx: int)
    requires
        group_fits(g, c, kind, idx),
    ensures
        g.group_type@ == kind,
        g.group_set_index == idx as i64,
        opt_view(g.name) == nonblank_string(json_get(c, "name"@)),
        opt_view(g.style) == nonblank_string(json_get(c, "style"@)),
        opt_view(g.trophies_json) == match json_get(c, "trophy"@) {
            Some(x) => Some(json_text(x)),
            None => match json_get(c, "trophies"@) {
                Some(y) => Some(json_text(y)),
                None => None,
            },
        },
        g.raw_json@ == json_text(c),
{
}

fn md5_list(items: &Vec<JsonValue>, out: &mut Vec<GroupItemParsed>)
    ensures
        items_view(final(out)@) == items_view(old(out)@) + md5_list_items(items@),
{
    let ghost base = items_view(out@);
    let mut i: usize = 0;
    while i < items.len()
        invariant
            i <= items@.len(),
            items_view(out@) == base + md5_list_items(items@.take(i as int)),
        decreases items@.len() - i,
    {
        assert(items@.take(i + 1).drop_last() =~= items@.take(i as int));
        assert(items@.take(i + 1).last() == items@[i as int]);
        match json_as_str(&items[i]) {
            Some(s) => {
                let t = ascii_lowercase_chars(&trim_chars(&str_to_chars(s.as_str())));
                if t.len() > 0 {
                    let ghost prev = out@;
                    out.push(GroupItemParsed { md5: chars_to_string(&t), title_hint: None });
                    assert(items_view(out@) =~= items_view(prev).push(item_view(out@.last())));
                }
            },
            None => {},
        }
        i += 1;
        assert(items_view(out@) =~= base + md5_list_items(items@.take(i as int)));
    }
    assert(items@.take(items@.len() as int) =~= items@);
}

fn chart_list(items: &Vec<JsonValue>, out: &mut Vec<GroupItemParsed>)
    ensures
        items_view(final(out)@) == items_view(old(out)@) + chart_items(items@),
{
    let ghost base = items_view(out@);
    let mut i: usize = 0;
    while i < items.len()
        invariant
            i <= items@.len(),
            items_view(out@) == base + chart_items(items@.take(i as int)),
        decreases items@.len() - i,
    {
        assert(items@.take(i + 1).drop_last() =~= items@.take(i as int));
        assert(items@.take(i + 1).last() == items@[i as int]);
        match lower_md5(&items[i]) {
            Some(md5) => {
                let ghost prev = out@;
                out.push(GroupItemParsed { md5, title_hint: string_field(&items[i], "title") });
                assert(items_view(out@) =~= items_view(prev).push(item_view(out@.last())));
            },
            None => {},
        }
        i += 1;
        assert(items_view(out@) =~= base + chart_items(items@.take(i as int)));
    }
    assert(items@.take(items@.len() as int) =~= items@);
}

pub(crate) fn member_array<'a>(v: &'a JsonValue, key: &str) -> (r: Option<&'a Vec<JsonValue>>)
    ensures
        match r {
            Some(a) => member_items(*v, key@) == a@,
            None => member_items(*v, key@) == Seq::<JsonValue>::empty(),
        },
{
    match json_get_exec(v, key) {
        Some(x) => json_as_array(x),
        None => None,
    }
}

/// Reads a group object as a group of type `kind` with set index `idx`.
pub(crate) fn parse_group(c: &JsonValue, kind: &str, idx: usize) -> (r: TableGroupParsed)
    ensures
        group_fits(r, *c, kind@, idx as int),
{
    let mut items: Vec<GroupItemParsed> = Vec::new();
    match member_array(c, "md5") {
        Some(a) => md5_list(a, &mut items),
        None => {
            assert(md5_list_items(Seq::<JsonValue>::empty()) =~= Seq::<(Seq<char>, Option<Seq<char>>)>::empty());
        },
    }
    let ghost mid = items_view(items@);
    match member_array(c, "charts") {
        Some(a) => chart_list(a, &mut items),
        None => {},
    }
    assert(items_view(items@) =~= course_items(*c));
    TableGroupParsed {
        group_type: chars_to_string(&str_to_chars(kind)),
        group_set_index: idx as i64,
        name: string_field(c, "name"),
        style: string_field(c, "style"),
        constraints_json: constraints_raw(c),
        trophies_json: either_member_raw(c, "trophy", "trophies"),
        raw_json: to_raw_json(c),
        items,
    }
}

/// Reads the courses of a header: one group of type `"course"` per item of its
/// `"course"` array, with the item's position as its set index.
pub fn parse_courses(header: &JsonValue) -> (r: Vec<TableGroupParsed>)
    ensures
        r@.len() == member_items(*header, "course"@).len(),
        forall|k: int| 0 <= k < r@.len() ==> course_fits(#[trigger] r@[k], member_items(*header, "course"@)[k], k),
{
    let mut groups: Vec<TableGroupParsed> = Vec::new();
    match member_array(header, "course") {
        None => groups,
        Some(courses) => {
            let mut i: usize = 0;
            while i < courses.len()
                invariant
                    member_items(*header, "course"@) == courses@,
                    i <= courses@.len(),
                    groups@.len() == i,
                    forall|k: int| 0 <= k < i ==> course_fits(#[trigger] groups@[k], courses@[k], k),
                decreases courses@.len() - i,
            {
                let g = parse_group(&courses[i], "course", i);
                groups.push(g);
                i += 1;
            }
            groups
        },
    }
}

/// Reads a table of the Analyzer layout: entries from the data's items that have
/// an MD5, courses from the header's `"course"` array, and the header's fields.
pub fn parse(header: &JsonValue, data: &JsonValue) -> (r: ParsedTable)
    ensures
        header_fits(r, *header),
        entries_fit(r.entries@, *data, false),
        r.groups@.len() == member_items(*header, "course"@).len(),
        forall|k: int| 0 <= k < r.groups@.len() ==> course_fits(#[trigger] r.groups@[k], member_items(*header, "course"@)[k], k),
{
    ParsedTable {
        name: string_field(header, "name"),
        symbol: string_field(header, "symbol"),
        tag: string_field(header, "tag"),
        mode: string_field(header, "mode"),
        level_order_json: member_raw(header, "level_order"),
        attr_json: member_raw(header, "attr"),
        entries: parse_entries(data, false),
        groups: parse_courses(header),
    }
}

}
