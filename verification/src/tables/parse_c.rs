//! Extended-header tables: grades and sets of courses in the header, rich entries
//! as data.
use crate::json::{json_as_array, json_items, JsonValue};
use crate::tables::parse_b::{group_fits, member_array, parse_group};
use crate::tables::{entries_fit, header_fits, member_items, member_raw, parse_entries, string_field, ParsedTable, TableGroupParsed};
use vstd::prelude::*;

verus! {

/// A group to read: its type, its set index and its object.
pub type GroupSource = (Seq<char>, int, JsonValue);

/// The grades of a header: one group of type `"grade"` and set index 0 per item of
/// its `"grade"` array.
pub open spec fn grade_sources(header: JsonValue) -> Seq<GroupSource> {
    member_items(header, "grade"@).map_values(|g: JsonValue| ("grade"@, 0int, g))
}

/// The courses of a `"course"` array: an item that is itself an array is one set
/// of courses, whose set index is that item's position; any other item is a course
/// of set 0.
pub open spec fn course_sources(items: Seq<JsonValue>) -> Seq<GroupSource>
    decreases items.len(),
{
    if items.len() == 0 {
        seq![]
    } else {
        let rest = course_sources(items.drop_last());
        let i = items.len() - 1;
        match json_items(items.last()) {
            Some(set) => rest + set.map_values(|c: JsonValue| ("course"@, i, c)),
            None => rest.push(("course"@, 0int, items.last())),
        }
    }
}

/// The groups of an extended header, in order: its grades, then its courses.
pub open spec fn extended_sources(header: JsonValue) -> Seq<GroupSource> {
    grade_sources(header) + course_sources(member_items(header, "course"@))
}

/// Each group is what its source reads as.
pub open spec fn groups_fit(gs: Seq<TableGroupParsed>, srcs: Seq<GroupSource>) -> bool {
    &&& gs.len() == srcs.len()
    &&& forall|k: int| 0 <= k < gs.len() ==> group_fits(#[trigger] gs[k], srcs[k].2, srcs[k].0, srcs[k].1)
}

/// Reads the items of one array as groups of type `kind` and set index `idx`,
/// appending them.
fn push_groups(items: &Vec<JsonValue>, kind: &str, idx: usize, out: &mut Vec<TableGroupParsed>, Ghost(srcs): Ghost<Seq<GroupSource>>)
    requires
        groups_fit(old(out)@, srcs),
    ensures
        groups_fit(final(out)@, srcs + items@.map_values(|c: JsonValue| (kind@, idx as int, c))),
{
    let ghost all = srcs + items@.map_values(|c: JsonValue| (kind@, idx as int, c));
    let mut i: usize = 0;
    while i < items.len()
        invariant
            i <= items@.len(),
            all == srcs + items@.map_values(|c: JsonValue| (kind@, idx as int, c)),
            groups_fit(out@, all.take(srcs.len() + i)),
        decreases items@.len() - i,
    {
        let g = parse_group(&items[i], kind, idx);
        let ghost before = out@;
        out.push(g);
        proof {
            assert(all[srcs.len() + i] == (kind@, idx as int, items@[i as int]));
            assert forall|k: int| 0 <= k < out@.len() implies group_fits(
                #[trigger] out@[k],
                all.take(srcs.len() + i + 1)[k].2,
                all.take(srcs.len() + i + 1)[k].0,
                all.take(srcs.len() + i + 1)[k].1,
            ) by {
                if k < before.len() {
                    assert(out@[k] == before[k]);
                    assert(all.take(srcs.len() + i + 1)[k] == all.take(srcs.len() + i)[k]);
                }
            }
        }
        i += 1;
    }
    assert(all.take((srcs.len() + items@.len()) as int) =~= all);
}

/// Reads the grades and course sets of an extended header.
pub fn parse_groups(header: &JsonValue) -> (r: Vec<TableGroupParsed>)
    ensures
        groups_fit(r@, extended_sources(*header)),
{
    let mut groups: Vec<TableGroupParsed> = Vec::new();
    match member_array(header, "grade") {
        Some(a) => {
            push_groups(a, "grade", 0, &mut groups, Ghost(Seq::<GroupSource>::empty()));
            assert(Seq::<GroupSource>::empty() + a@.map_values(|c: JsonValue| ("grade"@, 0int, c))
                =~= grade_sources(*header));
        },
        None => {
            assert(grade_sources(*header) =~= Seq::<GroupSource>::empty());
        },
    }
    let ghost grades = grade_sources(*header);
    match member_array(header, "course") {
        None => {
            assert(course_sources(Seq::<JsonValue>::empty()) =~= Seq::<GroupSource>::empty());
            assert(extended_sources(*header) =~= grades);
        },
        Some(items) => {
            let mut j: usize = 0;
            while j < items.len()
                invariant
                    j <= items@.len(),
                    member_items(*header, "course"@) == items@,
                    grades == grade_sources(*header),
                    groups_fit(groups@, grades + course_sources(items@.take(j as int))),
                decreases items@.len() - j,
            {
                let ghost before = grades + course_sources(items@.take(j as int));
                assert(items@.take(j + 1).drop_last() =~= items@.take(j as int));
                assert(items@.take(j + 1).last() == items@[j as int]);
                match json_as_array(&items[j]) {
                    Some(set) => {
                        push_groups(set, "course", j, &mut groups, Ghost(before));
                        assert(before + set@.map_values(|c: JsonValue| ("course"@, j as int, c))
                            =~= grades + course_sources(items@.take(j + 1)));
                    },
                    None => {
                        let g = parse_group(&items[j], "course", 0);
                        let ghost old_groups = groups@;
                        groups.push(g);
                        proof {
                            let after = grades + course_sources(items@.take(j + 1));
                            assert(after =~= before.push(("course"@, 0int, items@[j as int])));
                            assert forall|k: int| 0 <= k < groups@.len() implies group_fits(
                                #[trigger] groups@[k],
                                after[k].2,
                                after[k].0,
                                after[k].1,
                            ) by {
                                if k < old_groups.len() {
                                    assert(groups@[k] == old_groups[k]);
                                }
                            }
                        }
                    },
                }
                j += 1;
            }
            assert(items@.take(items@.len() as int) =~= items@);
        },
    }
    groups
}

/// Reads a table of the extended layout: entries from the data's items that have
/// an MD5 (known keys read, each item kept whole as raw JSON), the header's fields,
/// and its groups: each grade, then each course, a course in a nested array taking
/// that array's position as its set index.
pub fn parse(header: &JsonValue, data: &JsonValue) -> (r: ParsedTable)
    ensures
        header_fits(r, *header),
        entries_fit(r.entries@, *data, false),
        groups_fit(r.groups@, extended_sources(*header)),
{
    ParsedTable {
        name: string_field(header, "name"),
        symbol: string_field(header, "symbol"),
        tag: string_field(header, "tag"),
        mode: string_field(header, "mode"),
        level_order_json: member_raw(header, "level_order"),
        attr_json: member_raw(header, "attr"),
        entries: parse_entries(data, false),
        groups: parse_groups(header),
    }
}

}
