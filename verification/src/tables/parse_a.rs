//! Classic tables: a flat header and an array of entries as data.
use crate::json::JsonValue;
use crate::tables::{entries_fit, header_fits, member_raw, parse_entries, string_field, ParsedTable};
use vstd::prelude::*;

verus! {

/// Reads a table of the classic layout: entries from the data's items that have an
/// MD5 (known keys read, each item kept whole as raw JSON), the header's fields,
/// and no groups.
pub fn parse(header: &JsonValue, data: &JsonValue) -> (r: ParsedTable)
    ensures
        header_fits(r, *header),
        entries_fit(r.entries@, *data, false),
        r.groups@.len() == 0,
{
    ParsedTable {
        name: string_field(header, "name"),
        symbol: string_field(header, "symbol"),
        tag: string_field(header, "tag"),
        mode: string_field(header, "mode"),
        level_order_json: member_raw(header, "level_order"),
        attr_json: member_raw(header, "attr"),
        entries: parse_entries(data, false),
        groups: Vec::new(),
    }
}

}
