//! API-style tables, whose data comes from a script endpoint with its own schema.
use crate::json::JsonValue;
use crate::tables::{entries_fit, header_fits, member_raw, parse_entries, string_field, ParsedTable};
use vstd::prelude::*;

verus! {

/// Reads a table of the API layout: entries from the data's items that have an
/// MD5, taking the artist from `song_artist` where `artist` is missing, the
/// header's fields, and no groups.
pub fn parse(header: &JsonValue, data: &JsonValue) -> (r: ParsedTable)
    ensures
        header_fits(r, *header),
        entries_fit(r.entries@, *data, true),
        r.groups@.len() == 0,
{
    ParsedTable {
        name: string_field(header, "name"),
        symbol: string_field(header, "symbol"),
        tag: string_field(header, "tag"),
        mode: string_field(header, "mode"),
        level_order_json: member_raw(header, "level_order"),
        attr_json: member_raw(header, "attr"),
        entries: parse_entries(data, true),
        groups: Vec::new(),
    }
}

}
