//! The decisions of importing a fetched table: skipping unchanged content, which
//! parser reads it, and what the import reports.
use crate::json::JsonValue;
use crate::tables::classify::{pattern_label, pattern_name, TablePattern};
use crate::tables::{entries_fit, header_fits, member_items, ParsedTable};
use crate::text::{chars_eq, chars_to_string, str_to_chars};
use vstd::prelude::*;

verus! {

/// What an import did.
pub struct ImportResult {
    pub source_id: i64,
    pub table_id: i64,
    pub pattern: String,
    pub entry_count: usize,
    pub group_count: usize,
    pub skipped_by_hash: bool,
}

/// The stored table whose header and data hashes both equal the fetched ones, if
/// any: then the import is skipped and the stored table kept.
pub fn skip_by_hash(existing: &Option<(i64, String, String)>, header_hash: &str, data_hash: &str) -> (r: Option<i64>)
    ensures
        match existing {
            Some((id, h, d)) => if h@ == header_hash@ && d@ == data_hash@ {
                r == Some(*id)
            } else {
                r is None
            },
            None => r is None,
        },
{
    match existing {
        Some((table_id, h, d)) => {
            if chars_eq(&str_to_chars(h.as_str()), &str_to_chars(header_hash))
                && chars_eq(&str_to_chars(d.as_str()), &str_to_chars(data_hash)) {
                Some(*table_id)
            } else {
                None
            }
        },
        None => None,
    }
}

/// Reads a table with the parser of its layout: classic (A), Analyzer (B),
/// extended header (C) or API (D).
pub fn parse_by_pattern(pattern: TablePattern, header: &JsonValue, data: &JsonValue) -> (t: ParsedTable)
    ensures
        header_fits(t, *header),
        entries_fit(t.entries@, *data, pattern == TablePattern::D),
        pattern == TablePattern::A ==> t.groups@.len() == 0,
        pattern == TablePattern::B ==> (t.groups@.len() == member_items(*header, "course"@).len()
            && forall|k: int| 0 <= k < t.groups@.len() ==> crate::tables::parse_b::course_fits(
                #[trigger] t.groups@[k],
                member_items(*header, "course"@)[k],
                k,
            )),
        pattern == TablePattern::C ==> crate::tables::parse_c::groups_fit(
            t.groups@,
            crate::tables::parse_c::extended_sources(*header),
        ),
        pattern == TablePattern::D ==> t.groups@.len() == 0,
{
    match pattern {
        TablePattern::A => crate::tables::parse_a::parse(header, data),
        TablePattern::B => crate::tables::parse_b::parse(header, data),
        TablePattern::C => crate::tables::parse_c::parse(header, data),
        TablePattern::D => crate::tables::parse_d::parse(header, data),
    }
}

/// The report of an import skipped because nothing changed.
pub fn skipped_result(source_id: i64, table_id: i64, pattern: TablePattern) -> (r: ImportResult)
    ensures
        r.source_id == source_id,
        r.table_id == table_id,
        r.pattern@ == pattern_label(pattern),
        r.entry_count == 0,
        r.group_count == 0,
        r.skipped_by_hash,
{
    ImportResult {
        source_id,
        table_id,
        pattern: chars_to_string(&str_to_chars(pattern_name(pattern))),
        entry_count: 0,
        group_count: 0,
        skipped_by_hash: true,
    }
}

/// The report of an import that stored the parsed table.
pub fn imported_result(source_id: i64, table_id: i64, pattern: TablePattern, parsed: &ParsedTable) -> (r: ImportResult)
    ensures
        r.source_id == source_id,
        r.table_id == table_id,
        r.pattern@ == pattern_label(pattern),
        r.entry_count == parsed.entries@.len(),
        r.group_count == parsed.groups@.len(),
        !r.skipped_by_hash,
{
    ImportResult {
        source_id,
        table_id,
        pattern: chars_to_string(&str_to_chars(pattern_name(pattern))),
        entry_count: parsed.entries.len(),
        group_count: parsed.groups.len(),
        skipped_by_hash: false,
    }
}

}
