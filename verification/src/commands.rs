//! The computations of the application's commands: the window of a chart search and
//! the ownership counts of a table.
use crate::text::{chars_to_string, str_to_chars, trim_chars, trim_ws};
use vstd::prelude::*;

verus! {

/// A chart search as the user asks for it.
pub struct SearchParams {
    pub query: String,
    pub limit: Option<i64>,
    pub offset: Option<i64>,
}

/// How many of a table's entries a local chart matches by MD5.
pub struct OwnershipSummary {
    pub table_id: i64,
    pub total_entries: i64,
    pub owned_entries: i64,
    pub missing_entries: i64,
}

/// The full-text query of a search: `*`, which matches every chart, for a blank one.
pub open spec fn search_query(query: Seq<char>) -> Seq<char> {
    if trim_ws(query).len() == 0 {
        seq!['*']
    } else {
        query
    }
}

/// The page size of a search: 100 by default, at least 1.
pub open spec fn search_limit(limit: Option<i64>) -> i64 {
    match limit {
        Some(l) => if l < 1 {
            1
        } else {
            l
        },
        None => 100,
    }
}

/// The offset of a search: 0 by default, never negative.
pub open spec fn search_offset(offset: Option<i64>) -> i64 {
    match offset {
        Some(o) => if o < 0 {
            0
        } else {
            o
        },
        None => 0,
    }
}

/// The query, page size and offset with which a chart search runs.
pub fn search_window(params: SearchParams) -> (r: (String, i64, i64))
    ensures
        r.0@ == search_query(params.query@),
        r.1 == search_limit(params.limit),
        r.2 == search_offset(params.offset),
{
    let limit: i64 = match params.limit {
        Some(l) => if l < 1 {
            1
        } else {
            l
        },
        None => 100,
    };
    let offset: i64 = match params.offset {
        Some(o) => if o < 0 {
            0
        } else {
            o
        },
        None => 0,
    };
    let q = if trim_chars(&str_to_chars(params.query.as_str())).len() == 0 {
        let mut star: Vec<char> = Vec::new();
        star.push('*');
        assert(star@ =~= seq!['*']);
        chars_to_string(&star)
    } else {
        params.query
    };
    (q, limit, offset)
}

/// The ownership summary of a table from its entry count and the number of its
/// entries that some local chart matches.
pub fn ownership_summary(table_id: i64, total: i64, owned: i64) -> (r: OwnershipSummary)
    requires
        i64::MIN <= total - owned <= i64::MAX,
    ensures
        r.table_id == table_id,
        r.total_entries == total,
        r.owned_entries == owned,
        r.missing_entries == total - owned,
{
    OwnershipSummary { table_id, total_entries: total, owned_entries: owned, missing_entries: total - owned }
}

} // verus!
