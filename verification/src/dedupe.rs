//! Duplicate detection by file MD5 and by song, merge previews, and the decisions of a merge:
//! which targets may go to the trash and which roots need a rescan.
use crate::scan::field_chars;
use crate::song_norm::{normalize_song_key_checked, opt_chars, opt_view, song_key};
use crate::text::{chars_to_string, concat_chars, str_to_chars};
use vstd::prelude::*;

verus! {

/// One chart of a duplicate group.
pub struct DuplicateChart {
    pub chart_id: i64,
    pub root_id: i64,
    pub root_path: String,
    pub package_path: String,
    pub rel_path: String,
    pub full_path: String,
    pub file_md5: String,
    pub title: Option<String>,
    pub artist: Option<String>,
}

/// Charts with the same key; `kind` says what the key is.
pub struct DuplicateGroup {
    pub key: String,
    pub kind: String,
    pub charts: Vec<DuplicateChart>,
}

pub struct DedupePreviewRequest {
    pub keep_chart_id: i64,
    pub remove_chart_ids: Vec<i64>,
}

pub struct DedupePreview {
    pub keep_chart_id: i64,
    pub remove_count: usize,
    pub cross_root: bool,
    pub targets: Vec<String>,
}

pub struct DedupeExecuteRequest {
    pub keep_chart_id: i64,
    pub remove_chart_ids: Vec<i64>,
    pub allow_cross_root: bool,
}

pub struct DedupeExecuteResult {
    pub removed: usize,
    pub rescanned_root_ids: Vec<i64>,
}

/// Where a chart lies: its root and its paths below it.
pub struct ChartLocation {
    pub root_id: i64,
    pub root_path: String,
    pub package_path: String,
    pub rel_path: String,
}

/// The fields of a duplicate chart, by value.
pub type ChartTuple = (
    i64,
    i64,
    Seq<char>,
    Seq<char>,
    Seq<char>,
    Seq<char>,
    Seq<char>,
    Option<Seq<char>>,
    Option<Seq<char>>,
);

// ---------------------------------------------------------------------
// Specification

/// `"{root}/{package}/{rel}"`.
pub open spec fn joined_path(root: Seq<char>, package: Seq<char>, rel: Seq<char>) -> Seq<char> {
    root + seq!['/'] + package + seq!['/'] + rel
}

pub open spec fn chart_view(c: DuplicateChart) -> ChartTuple {
    (
        c.chart_id,
        c.root_id,
        c.root_path@,
        c.package_path@,
        c.rel_path@,
        c.full_path@,
        c.file_md5@,
        opt_view(c.title),
        opt_view(c.artist),
    )
}

/// A queried row as it appears in its group: with its MD5 and joined full path.
pub open spec fn filled_view(key: Seq<char>, c: DuplicateChart) -> ChartTuple {
    (
        c.chart_id,
        c.root_id,
        c.root_path@,
        c.package_path@,
        c.rel_path@,
        joined_path(c.root_path@, c.package_path@, c.rel_path@),
        key,
        opt_view(c.title),
        opt_view(c.artist),
    )
}

/// The rows whose key in `keys` is `k`, in order, as they appear in a group: each
/// with its MD5 and its joined full path. `keys` gives each row's key, `None` for
/// a row in no group of that kind.
pub open spec fn keyed_rows(rows: Seq<(String, DuplicateChart)>, keys: Seq<Option<Seq<char>>>, k: Seq<char>) -> Seq<ChartTuple>
    decreases rows.len(),
{
    if rows.len() == 0 || keys.len() == 0 {
        seq![]
    } else {
        let rest = keyed_rows(rows.drop_last(), keys.drop_last(), k);
        if keys.last() == Some(k) {
            rest.push(filled_view(rows.last().0@, rows.last().1))
        } else {
            rest
        }
    }
}

pub open spec fn charts_view(v: Seq<DuplicateChart>) -> Seq<ChartTuple> {
    v.map_values(|c: DuplicateChart| chart_view(c))
}

/// Each row keyed by its MD5.
pub open spec fn md5_keys(rows: Seq<(String, DuplicateChart)>) -> Seq<Option<Seq<char>>> {
    rows.map_values(|r: (String, DuplicateChart)| Some(r.0@))
}

/// The song key `"{title}|{artist}"` of a chart, as `normalize_song_key` makes it
/// of its title and artist; `None` when either normalises to nothing, or where
/// normalising the artist would cut inside a character.
pub open spec fn chart_song_key(c: DuplicateChart) -> Option<Seq<char>> {
    match song_key(field_chars(c.title), field_chars(c.artist)) {
        Some(Some(k)) => Some(k),
        _ => None,
    }
}

/// Each row keyed by its chart's song key.
pub open spec fn song_keys(rows: Seq<(String, DuplicateChart)>) -> Seq<Option<Seq<char>>> {
    rows.map_values(|r: (String, DuplicateChart)| chart_song_key(r.1))
}

pub open spec fn opt_key_views(keys: Seq<Option<String>>) -> Seq<Option<Seq<char>>> {
    keys.map_values(|k: Option<String>| opt_view(k))
}

/// `g` is the group of kind `kind` and key `g.key` over the keyed rows.
pub open spec fn group_of(rows: Seq<(String, DuplicateChart)>, keys: Seq<Option<Seq<char>>>, kind: Seq<char>, g: DuplicateGroup) -> bool {
    &&& g.kind@ == kind
    &&& charts_view(g.charts@) == keyed_rows(rows, keys, g.key@)
}

/// `g` is the group of the rows whose MD5 is `g.key`.
pub open spec fn is_md5_group(rows: Seq<(String, DuplicateChart)>, g: DuplicateGroup) -> bool {
    group_of(rows, md5_keys(rows), "file_md5"@, g)
}

/// `g` is the group of the rows whose song key is `g.key`.
pub open spec fn is_song_group(rows: Seq<(String, DuplicateChart)>, g: DuplicateGroup) -> bool {
    group_of(rows, song_keys(rows), "song_key"@, g)
}

/// Whether some root differs from `keep_root`.
pub open spec fn any_cross_root(targets: Seq<ChartLocation>, keep_root: i64) -> bool {
    exists|i: int| 0 <= i < targets.len() && #[trigger] targets[i].root_id != keep_root
}

/// A merge keeping a chart under `keep_root` refuses a target under `target_root`
/// when the roots differ and cross-root removal is off.
pub open spec fn refuses(keep_root: i64, allow_cross_root: bool, target_root: i64) -> bool {
    target_root != keep_root && !allow_cross_root
}

/// The preview tells in advance whether a merge of the same targets is refused: with
/// cross-root removal off, some target is refused exactly when the preview reports a
/// target under another root; with it on, no target is refused.
pub proof fn lemma_preview_predicts_refusal(targets: Seq<ChartLocation>, keep_root: i64, allow_cross_root: bool)
    ensures
        (exists|j: int| 0 <= j < targets.len() && refuses(keep_root, allow_cross_root, #[trigger] targets[j].root_id))
            <==> (!allow_cross_root && any_cross_root(targets, keep_root)),
{
    if !allow_cross_root && any_cross_root(targets, keep_root) {
        let j = choose|i: int| 0 <= i < targets.len() && #[trigger] targets[i].root_id != keep_root;
        assert(refuses(keep_root, allow_cross_root, targets[j].root_id));
    }
}

// ---------------------------------------------------------------------
// Implementation

fn clone_opt(o: &Option<String>) -> (r: Option<String>)
    ensures
        opt_view(r) == opt_view(*o),
{
    match o {
        Some(s) => Some(s.clone()),
        None => None,
    }
}

fn join_path(root: &String, package: &String, rel: &String) -> (r: String)
    ensures
        r@ == joined_path(root@, package@, rel@),
{
    let mut sep: Vec<char> = Vec::new();
    sep.push('/');
    assert(sep@ =~= seq!['/']);
    let a = concat_chars(&str_to_chars(root.as_str()), &sep);
    let b = concat_chars(&a, &str_to_chars(package.as_str()));
    let c = concat_chars(&b, &sep);
    let d = concat_chars(&c, &str_to_chars(rel.as_str()));
    chars_to_string(&d)
}

fn filled(key: &String, c: &DuplicateChart) -> (r: DuplicateChart)
    ensures
        chart_view(r) == filled_view(key@, *c),
{
    DuplicateChart {
        chart_id: c.chart_id,
        root_id: c.root_id,
        root_path: c.root_path.clone(),
        package_path: c.package_path.clone(),
        rel_path: c.rel_path.clone(),
        full_path: join_path(&c.root_path, &c.package_path, &c.rel_path),
        file_md5: key.clone(),
        title: clone_opt(&c.title),
        artist: clone_opt(&c.artist),
    }
}

proof fn lemma_keyed_rows_step(rows: Seq<(String, DuplicateChart)>, keys: Seq<Option<Seq<char>>>, i: int, k: Seq<char>)
    requires
        0 <= i < rows.len(),
        rows.len() == keys.len(),
    ensures
        keyed_rows(rows.take(i + 1), keys.take(i + 1), k) == if keys[i] == Some(k) {
            keyed_rows(rows.take(i), keys.take(i), k).push(filled_view(rows[i].0@, rows[i].1))
        } else {
            keyed_rows(rows.take(i), keys.take(i), k)
        },
{
    assert(rows.take(i + 1).drop_last() =~= rows.take(i));
    assert(keys.take(i + 1).drop_last() =~= keys.take(i));
    assert(rows.take(i + 1).last() == rows[i]);
    assert(keys.take(i + 1).last() == keys[i]);
}

proof fn lemma_keyed_rows_absent(rows: Seq<(String, DuplicateChart)>, keys: Seq<Option<Seq<char>>>, k: Seq<char>)
    requires
        rows.len() == keys.len(),
        forall|j: int| 0 <= j < keys.len() ==> #[trigger] keys[j] != Some(k),
    ensures
        keyed_rows(rows, keys, k) == Seq::<ChartTuple>::empty(),
    decreases rows.len(),
{
    if rows.len() > 0 {
        lemma_keyed_rows_absent(rows.drop_last(), keys.drop_last(), k);
    }
}

/// The groups of two or more charts.
fn keep_shared(
    groups: Vec<DuplicateGroup>,
    Ghost(rs): Ghost<Seq<(String, DuplicateChart)>>,
    Ghost(ks): Ghost<Seq<Option<Seq<char>>>>,
    Ghost(kind): Ghost<Seq<char>>,
) -> (r: Vec<DuplicateGroup>)
    requires
        forall|g: int| 0 <= g < groups@.len() ==> group_of(rs, ks, kind, #[trigger] groups@[g]),
        forall|i: int|
            0 <= i < ks.len() && (#[trigger] ks[i]) is Some ==> exists|g: int|
                0 <= g < groups@.len() && (#[trigger] groups@[g]).key@ == ks[i]->0,
        forall|a: int, b: int|
            0 <= a < b < groups@.len() ==> (#[trigger] groups@[a]).key@ != (#[trigger] groups@[b]).key@,
    ensures
        forall|g: int| 0 <= g < r@.len() ==> group_of(rs, ks, kind, #[trigger] r@[g]),
        forall|g: int| 0 <= g < r@.len() ==> keyed_rows(rs, ks, (#[trigger] r@[g]).key@).len() >= 2,
        forall|i: int|
            0 <= i < ks.len() && (#[trigger] ks[i]) is Some && keyed_rows(rs, ks, ks[i]->0).len() >= 2
                ==> exists|g: int| 0 <= g < r@.len() && (#[trigger] r@[g]).key@ == ks[i]->0,
        forall|a: int, b: int|
            0 <= a < b < r@.len() ==> (#[trigger] r@[a]).key@ != (#[trigger] r@[b]).key@,
{
    let mut rest = groups;
    let mut out: Vec<DuplicateGroup> = Vec::new();
    while rest.len() > 0
        invariant
            forall|g: int| 0 <= g < rest@.len() ==> group_of(rs, ks, kind, #[trigger] rest@[g]),
            forall|g: int| 0 <= g < out@.len() ==> group_of(rs, ks, kind, #[trigger] out@[g]),
            forall|g: int| 0 <= g < out@.len() ==> keyed_rows(rs, ks, (#[trigger] out@[g]).key@).len() >= 2,
            forall|i: int|
                0 <= i < ks.len() && (#[trigger] ks[i]) is Some && keyed_rows(rs, ks, ks[i]->0).len() >= 2 ==> (exists|g: int|
                    0 <= g < rest@.len() && (#[trigger] rest@[g]).key@ == ks[i]->0) || (exists|g: int|
                    0 <= g < out@.len() && (#[trigger] out@[g]).key@ == ks[i]->0),
            forall|a: int, b: int|
                0 <= a < b < rest@.len() ==> (#[trigger] rest@[a]).key@ != (#[trigger] rest@[b]).key@,
            forall|a: int, b: int|
                0 <= a < b < out@.len() ==> (#[trigger] out@[a]).key@ != (#[trigger] out@[b]).key@,
            forall|a: int, b: int|
                0 <= a < out@.len() && 0 <= b < rest@.len() ==> (#[trigger] out@[a]).key@ != (#[trigger] rest@[b]).key@,
        decreases rest.len(),
    {
        let ghost old_rest = rest@;
        let ghost old_out = out@;
        let g = rest.remove(0);
        assert(rest@ =~= old_rest.drop_first());
        assert(g == old_rest[0]);
        assert(charts_view(g.charts@).len() == g.charts@.len());
        if g.charts.len() >= 2 {
            out.push(g);
            assert(out@ =~= old_out.push(g));
            proof {
                assert forall|a: int, b: int| 0 <= a < b < out@.len() implies (#[trigger] out@[a]).key@ != (#[trigger] out@[b]).key@ by {
                    if b == old_out.len() {
                        assert(old_out[a].key@ != old_rest[0].key@);
                    }
                }
                assert forall|a: int, b: int| 0 <= a < out@.len() && 0 <= b < rest@.len() implies (#[trigger] out@[a]).key@ != (#[trigger] rest@[b]).key@ by {
                    assert(rest@[b] == old_rest[b + 1]);
                    if a == old_out.len() {
                    } else {
                        assert(out@[a] == old_out[a]);
                    }
                }
                assert forall|i: int| 0 <= i < ks.len() && (#[trigger] ks[i]) is Some && keyed_rows(rs, ks, ks[i]->0).len() >= 2 implies (exists|g2: int|
                    0 <= g2 < rest@.len() && (#[trigger] rest@[g2]).key@ == ks[i]->0) || (exists|g2: int|
                    0 <= g2 < out@.len() && (#[trigger] out@[g2]).key@ == ks[i]->0) by {
                    if exists|g2: int| 0 <= g2 < old_rest.len() && (#[trigger] old_rest[g2]).key@ == ks[i]->0 {
                        let g2 = choose|g2: int| 0 <= g2 < old_rest.len() && (#[trigger] old_rest[g2]).key@ == ks[i]->0;
                        if g2 == 0 {
                            assert(out@[old_out.len() as int].key@ == ks[i]->0);
                        } else {
                            assert(rest@[g2 - 1] == old_rest[g2]);
                        }
                    } else {
                        let g2 = choose|g2: int| 0 <= g2 < old_out.len() && (#[trigger] old_out[g2]).key@ == ks[i]->0;
                        assert(out@[g2] == old_out[g2]);
                    }
                }
            }
        } else {
            proof {
                assert forall|i: int| 0 <= i < ks.len() && (#[trigger] ks[i]) is Some && keyed_rows(rs, ks, ks[i]->0).len() >= 2 implies (exists|g2: int|
                    0 <= g2 < rest@.len() && (#[trigger] rest@[g2]).key@ == ks[i]->0) || (exists|g2: int|
                    0 <= g2 < out@.len() && (#[trigger] out@[g2]).key@ == ks[i]->0) by {
                    if exists|g2: int| 0 <= g2 < old_rest.len() && (#[trigger] old_rest[g2]).key@ == ks[i]->0 {
                        let g2 = choose|g2: int| 0 <= g2 < old_rest.len() && (#[trigger] old_rest[g2]).key@ == ks[i]->0;
                        if g2 == 0 {
                            assert(false);
                        } else {
                            assert(rest@[g2 - 1] == old_rest[g2]);
                        }
                    }
                }
                assert forall|a: int, b: int| 0 <= a < out@.len() && 0 <= b < rest@.len() implies (#[trigger] out@[a]).key@ != (#[trigger] rest@[b]).key@ by {
                    assert(rest@[b] == old_rest[b + 1]);
                }
            }
        }
    }
    out
}

/// Groups the rows that share a key: one group of kind `kind` for each key that two
/// or more rows have, holding those rows in order.
fn group_by_key(rows: &Vec<(String, DuplicateChart)>, keys: &Vec<Option<String>>, kind: &str) -> (r: Vec<DuplicateGroup>)
    requires
        keys@.len() == rows@.len(),
    ensures
        forall|g: int| 0 <= g < r@.len() ==> group_of(rows@, opt_key_views(keys@), kind@, #[trigger] r@[g]),
        forall|g: int| 0 <= g < r@.len() ==> keyed_rows(rows@, opt_key_views(keys@), (#[trigger] r@[g]).key@).len() >= 2,
        forall|i: int|
            0 <= i < rows@.len() && (#[trigger] opt_key_views(keys@)[i]) is Some && keyed_rows(
                rows@,
                opt_key_views(keys@),
                opt_key_views(keys@)[i]->0,
            ).len() >= 2 ==> exists|g: int|
                0 <= g < r@.len() && (#[trigger] r@[g]).key@ == opt_key_views(keys@)[i]->0,
        forall|a: int, b: int|
            0 <= a < b < r@.len() ==> (#[trigger] r@[a]).key@ != (#[trigger] r@[b]).key@,
{
    let ghost rs = rows@;
    let ghost ks = opt_key_views(keys@);
    let mut groups: Vec<DuplicateGroup> = Vec::new();
    let mut i: usize = 0;
    while i < rows.len()
        invariant
            rs == rows@,
            ks == opt_key_views(keys@),
            ks.len() == rs.len(),
            i <= rows.len(),
            forall|g: int|
                0 <= g < groups@.len() ==> group_of(rs.take(i as int), ks.take(i as int), kind@, #[trigger] groups@[g]),
            forall|g: int|
                0 <= g < groups@.len() ==> keyed_rows(rs.take(i as int), ks.take(i as int), (#[trigger] groups@[g]).key@).len() >= 1,
            forall|j: int|
                0 <= j < i && (#[trigger] ks[j]) is Some ==> exists|g: int|
                    0 <= g < groups@.len() && (#[trigger] groups@[g]).key@ == ks[j]->0,
            forall|a: int, b: int|
                0 <= a < b < groups@.len() ==> (#[trigger] groups@[a]).key@ != (
                #[trigger] groups@[b]).key@,
        decreases rows.len() - i,
    {
        proof {
            assert forall|g: int| 0 <= g < groups@.len() implies keyed_rows(
                rs.take(i + 1),
                ks.take(i + 1),
                (#[trigger] groups@[g]).key@,
            ) == if ks[i as int] == Some(groups@[g].key@) {
                keyed_rows(rs.take(i as int), ks.take(i as int), groups@[g].key@).push(
                    filled_view(rs[i as int].0@, rs[i as int].1),
                )
            } else {
                keyed_rows(rs.take(i as int), ks.take(i as int), groups@[g].key@)
            } by {
                lemma_keyed_rows_step(rs, ks, i as int, groups@[g].key@);
            }
        }
        match &keys[i] {
            None => {
                assert(ks[i as int] is None);
            },
            Some(key) => {
                assert(ks[i as int] == Some(key@));
                let mut idx: usize = 0;
                while idx < groups.len() && groups[idx].key != *key
                    invariant
                        idx <= groups.len(),
                        forall|g: int| 0 <= g < idx ==> (#[trigger] groups@[g]).key@ != key@,
                    decreases groups.len() - idx,
                {
                    idx += 1;
                }
                let c = filled(&rows[i].0, &rows[i].1);
                let ghost old_groups = groups@;
                if idx < groups.len() {
                    let mut g = groups.remove(idx);
                    let ghost old_charts = g.charts@;
                    g.charts.push(c);
                    assert(charts_view(g.charts@) =~= charts_view(old_charts).push(chart_view(c)));
                    groups.insert(idx, g);
                    proof {
                        assert(groups@ =~= old_groups.update(idx as int, g));
                        assert forall|j: int| 0 <= j < i + 1 && (#[trigger] ks[j]) is Some implies exists|g2: int|
                            0 <= g2 < groups@.len() && (#[trigger] groups@[g2]).key@ == ks[j]->0 by {
                            if j < i {
                                let g2 = choose|g2: int|
                                    0 <= g2 < old_groups.len() && (#[trigger] old_groups[g2]).key@ == ks[j]->0;
                                assert(groups@[g2].key@ == old_groups[g2].key@);
                            } else {
                                assert(groups@[idx as int].key@ == ks[j]->0);
                            }
                        }
                    }
                } else {
                    let mut charts: Vec<DuplicateChart> = Vec::new();
                    charts.push(c);
                    let g = DuplicateGroup { key: key.clone(), kind: chars_to_string(&str_to_chars(kind)), charts };
                    proof {
                        assert forall|j: int| 0 <= j < i implies #[trigger] ks.take(i as int)[j] != Some(key@) by {
                            assert(ks.take(i as int)[j] == ks[j]);
                            if ks[j] == Some(key@) {
                                let g2 = choose|g2: int|
                                    0 <= g2 < old_groups.len() && (#[trigger] old_groups[g2]).key@ == ks[j]->0;
                            }
                        }
                        lemma_keyed_rows_absent(rs.take(i as int), ks.take(i as int), key@);
                        lemma_keyed_rows_step(rs, ks, i as int, key@);
                        assert(charts_view(g.charts@) =~= keyed_rows(rs.take(i + 1), ks.take(i + 1), key@));
                    }
                    groups.push(g);
                    proof {
                        assert forall|j: int| 0 <= j < i + 1 && (#[trigger] ks[j]) is Some implies exists|g2: int|
                            0 <= g2 < groups@.len() && (#[trigger] groups@[g2]).key@ == ks[j]->0 by {
                            if j < i {
                                let g2 = choose|g2: int|
                                    0 <= g2 < old_groups.len() && (#[trigger] old_groups[g2]).key@ == ks[j]->0;
                                assert(groups@[g2] == old_groups[g2]);
                            } else {
                                assert(groups@[old_groups.len() as int].key@ == ks[j]->0);
                            }
                        }
                    }
                }
            },
        }
        i += 1;
    }
    assert(rs.take(rows.len() as int) =~= rs);
    assert(ks.take(rows.len() as int) =~= ks);
    keep_shared(groups, Ghost(rs), Ghost(ks), Ghost(kind@))
}

fn opt_str(o: &Option<String>) -> (r: Option<&str>)
    ensures
        opt_chars(r) == field_chars(*o),
{
    match o {
        Some(t) => Some(t.as_str()),
        None => None,
    }
}

fn md5_key_list(rows: &Vec<(String, DuplicateChart)>) -> (r: Vec<Option<String>>)
    ensures
        opt_key_views(r@) == md5_keys(rows@),
{
    let mut out: Vec<Option<String>> = Vec::new();
    let mut i: usize = 0;
    while i < rows.len()
        invariant
            i <= rows@.len(),
            opt_key_views(out@) == md5_keys(rows@).take(i as int),
        decreases rows@.len() - i,
    {
        let ghost before = out@;
        let k = Some(rows[i].0.clone());
        out.push(k);
        assert(opt_key_views(out@) =~= opt_key_views(before).push(opt_view(k)));
        assert(md5_keys(rows@).take(i + 1) =~= md5_keys(rows@).take(i as int).push(Some(rows@[i as int].0@)));
        i += 1;
    }
    assert(md5_keys(rows@).take(rows@.len() as int) =~= md5_keys(rows@));
    out
}

fn song_key_list(rows: &Vec<(String, DuplicateChart)>) -> (r: Vec<Option<String>>)
    ensures
        opt_key_views(r@) == song_keys(rows@),
{
    let mut out: Vec<Option<String>> = Vec::new();
    let mut i: usize = 0;
    while i < rows.len()
        invariant
            i <= rows@.len(),
            opt_key_views(out@) == song_keys(rows@).take(i as int),
        decreases rows@.len() - i,
    {
        let c = &rows[i].1;
        let key = match normalize_song_key_checked(opt_str(&c.title), opt_str(&c.artist)) {
            Some(Some(k)) => Some(k),
            _ => None,
        };
        assert(opt_view(key) == chart_song_key(*c));
        let ghost before = out@;
        let ghost kv = opt_view(key);
        out.push(key);
        assert(opt_key_views(out@) =~= opt_key_views(before).push(kv));
        assert(song_keys(rows@).take(i + 1) =~= song_keys(rows@).take(i as int).push(chart_song_key(rows@[i as int].1)));
        i += 1;
    }
    assert(song_keys(rows@).take(rows@.len() as int) =~= song_keys(rows@));
    out
}

/// Groups queried `(file_md5, chart)` rows into duplicate candidates: first one
/// group of kind `"file_md5"` for each MD5 that two or more rows share (the same
/// chart), then one group of kind `"song_key"` for each song key
/// (`normalize_song_key` of the title and artist) that two or more rows share (the
/// same song). A group holds its rows in order, each with its MD5 and its full path
/// `"{root}/{package}/{rel}"`.
pub fn detect_duplicates(rows: &Vec<(String, DuplicateChart)>) -> (r: Vec<DuplicateGroup>)
    ensures
        forall|g: int| 0 <= g < r@.len() ==> is_md5_group(rows@, #[trigger] r@[g]) || is_song_group(rows@, r@[g]),
        forall|g: int| 0 <= g < r@.len() ==> (#[trigger] r@[g]).charts@.len() >= 2,
        forall|i: int|
            0 <= i < rows@.len() && keyed_rows(rows@, md5_keys(rows@), (#[trigger] rows@[i]).0@).len() >= 2
                ==> exists|g: int| 0 <= g < r@.len() && is_md5_group(rows@, #[trigger] r@[g]) && r@[g].key@ == rows@[i].0@,
        forall|i: int|
            0 <= i < rows@.len() && chart_song_key((#[trigger] rows@[i]).1) is Some && keyed_rows(
                rows@,
                song_keys(rows@),
                chart_song_key(rows@[i].1)->0,
            ).len() >= 2 ==> exists|g: int|
                0 <= g < r@.len() && is_song_group(rows@, #[trigger] r@[g]) && r@[g].key@ == chart_song_key(rows@[i].1)->0,
        forall|a: int, b: int|
            0 <= a < b < r@.len() && (#[trigger] r@[a]).kind@ == (#[trigger] r@[b]).kind@ ==> r@[a].key@ != r@[b].key@,
{
    let md5_keys_v = md5_key_list(rows);
    let song_keys_v = song_key_list(rows);
    assert(opt_key_views(md5_keys_v@).len() == md5_keys_v@.len());
    assert(opt_key_views(song_keys_v@).len() == song_keys_v@.len());
    let mut groups = group_by_key(rows, &md5_keys_v, "file_md5");
    let mut songs = group_by_key(rows, &song_keys_v, "song_key");
    let ghost g1 = groups@;
    let ghost g2 = songs@;
    groups.append(&mut songs);
    proof {
        reveal_strlit("file_md5");
        reveal_strlit("song_key");
        assert("file_md5"@[0] != "song_key"@[0]);
        let n = g1.len();
        assert(groups@ == g1 + g2);
        assert forall|g: int| 0 <= g < groups@.len() implies is_md5_group(rows@, #[trigger] groups@[g]) || is_song_group(rows@, groups@[g]) by {
            if g < n {
                assert(groups@[g] == g1[g]);
            } else {
                assert(groups@[g] == g2[g - n]);
            }
        }
        assert forall|g: int| 0 <= g < groups@.len() implies (#[trigger] groups@[g]).charts@.len() >= 2 by {
            if g < n {
                assert(groups@[g] == g1[g]);
                assert(charts_view(g1[g].charts@).len() == g1[g].charts@.len());
            } else {
                assert(groups@[g] == g2[g - n]);
                assert(charts_view(g2[g - n].charts@).len() == g2[g - n].charts@.len());
            }
        }
        assert forall|i: int|
            0 <= i < rows@.len() && keyed_rows(rows@, md5_keys(rows@), (#[trigger] rows@[i]).0@).len() >= 2
                implies exists|g: int| 0 <= g < groups@.len() && is_md5_group(rows@, #[trigger] groups@[g]) && groups@[g].key@ == rows@[i].0@ by {
            assert(md5_keys(rows@)[i] == Some(rows@[i].0@));
            let g = choose|g: int| 0 <= g < g1.len() && (#[trigger] g1[g]).key@ == md5_keys(rows@)[i]->0;
            assert(groups@[g] == g1[g]);
        }
        assert forall|i: int|
            0 <= i < rows@.len() && chart_song_key((#[trigger] rows@[i]).1) is Some && keyed_rows(
                rows@,
                song_keys(rows@),
                chart_song_key(rows@[i].1)->0,
            ).len() >= 2 implies exists|g: int|
                0 <= g < groups@.len() && is_song_group(rows@, #[trigger] groups@[g]) && groups@[g].key@ == chart_song_key(rows@[i].1)->0 by {
            assert(song_keys(rows@)[i] == chart_song_key(rows@[i].1));
            let g = choose|g: int| 0 <= g < g2.len() && (#[trigger] g2[g]).key@ == song_keys(rows@)[i]->0;
            assert(groups@[n + g] == g2[g]);
        }
        assert forall|a: int, b: int|
            0 <= a < b < groups@.len() && (#[trigger] groups@[a]).kind@ == (#[trigger] groups@[b]).kind@ implies groups@[a].key@ != groups@[b].key@ by {
            if b < n {
                assert(groups@[a] == g1[a] && groups@[b] == g1[b]);
            } else if a >= n {
                assert(groups@[a] == g2[a - n] && groups@[b] == g2[b - n]);
            } else {
                assert(groups@[a] == g1[a] && groups@[b] == g2[b - n]);
                assert(g1[a].kind@ == "file_md5"@);
                assert(g2[b - n].kind@ == "song_key"@);
            }
        }
    }
    groups
}

/// Previews a merge: the chart to keep, how many charts go, whether any of them
/// lies under another root than the kept one, and their paths
/// `"{root}/{package}/{rel}"`, given the kept chart's root and the location of each
/// chart to remove, in the order of the request.
pub fn preview_merge(req: &DedupePreviewRequest, keep_root: i64, targets: &Vec<ChartLocation>) -> (r: DedupePreview)
    requires
        targets@.len() == req.remove_chart_ids@.len(),
    ensures
        r.keep_chart_id == req.keep_chart_id,
        r.remove_count == req.remove_chart_ids@.len(),
        r.cross_root == any_cross_root(targets@, keep_root),
        r.targets@.len() == targets@.len(),
        forall|i: int|
            0 <= i < targets@.len() ==> (#[trigger] r.targets@[i])@ == joined_path(
                targets@[i].root_path@,
                targets@[i].package_path@,
                targets@[i].rel_path@,
            ),
{
    let mut paths: Vec<String> = Vec::new();
    let mut cross_root = false;
    let mut i: usize = 0;
    while i < targets.len()
        invariant
            i <= targets.len(),
            cross_root == exists|j: int| 0 <= j < i && #[trigger] targets@[j].root_id != keep_root,
            paths@.len() == i,
            forall|j: int|
                0 <= j < i ==> (#[trigger] paths@[j])@ == joined_path(
                    targets@[j].root_path@,
                    targets@[j].package_path@,
                    targets@[j].rel_path@,
                ),
        decreases targets.len() - i,
    {
        let t = &targets[i];
        if t.root_id != keep_root {
            cross_root = true;
        }
        paths.push(join_path(&t.root_path, &t.package_path, &t.rel_path));
        i += 1;
    }
    DedupePreview {
        keep_chart_id: req.keep_chart_id,
        remove_count: req.remove_chart_ids.len(),
        cross_root,
        targets: paths,
    }
}

/// What a merge does with one chart to remove.
pub enum MergeStep {
    /// Move the chart file `root/package/rel` to the trash, then drop its row.
    Trash { root_path: String, package_path: String, rel_path: String },
    /// Stop: the chart lies under another root and cross-root removal is off.
    Refuse { keep_root: i64, target_root: i64 },
}

/// The decisions of a merge in progress.
pub struct MergeState {
    pub keep_root: i64,
    pub allow_cross_root: bool,
    pub removed: usize,
    pub rescanned_root_ids: Vec<i64>,
}

impl MergeState {
    /// The rescan list starts with the kept root and names no root twice.
    pub open spec fn wf(&self) -> bool {
        &&& self.rescanned_root_ids@.len() >= 1
        &&& self.rescanned_root_ids@[0] == self.keep_root
        &&& self.rescanned_root_ids@.no_duplicates()
    }

    /// Starts a merge that keeps a chart under `keep_root`.
    pub fn new(keep_root: i64, allow_cross_root: bool) -> (r: MergeState)
        ensures
            r.wf(),
            r.keep_root == keep_root,
            r.allow_cross_root == allow_cross_root,
            r.removed == 0,
            r.rescanned_root_ids@ == seq![keep_root],
    {
        let mut ids: Vec<i64> = Vec::new();
        ids.push(keep_root);
        assert(ids@ =~= seq![keep_root]);
        MergeState { keep_root, allow_cross_root, removed: 0, rescanned_root_ids: ids }
    }

    /// Decides on the next chart to remove: refused when it lies under another root
    /// and cross-root removal is off; otherwise its root joins the rescan list if it
    /// is not there yet, and the chart goes to the trash.
    pub fn plan(&mut self, target: &ChartLocation) -> (r: MergeStep)
        requires
            old(self).wf(),
        ensures
            final(self).wf(),
            final(self).keep_root == old(self).keep_root,
            final(self).allow_cross_root == old(self).allow_cross_root,
            final(self).removed == old(self).removed,
            refuses(old(self).keep_root, old(self).allow_cross_root, target.root_id) ==> {
                &&& r == (MergeStep::Refuse {
                    keep_root: old(self).keep_root,
                    target_root: target.root_id,
                })
                &&& final(self).rescanned_root_ids@ == old(self).rescanned_root_ids@
            },
            !refuses(old(self).keep_root, old(self).allow_cross_root, target.root_id) ==> {
                &&& r matches MergeStep::Trash { root_path, package_path, rel_path }
                &&& root_path@ == target.root_path@
                &&& package_path@ == target.package_path@
                &&& rel_path@ == target.rel_path@
                &&& final(self).rescanned_root_ids@ == if old(self).rescanned_root_ids@.contains(
                    target.root_id,
                ) {
                    old(self).rescanned_root_ids@
                } else {
                    old(self).rescanned_root_ids@.push(target.root_id)
                }
            },
    {
        if target.root_id != self.keep_root && !self.allow_cross_root {
            return MergeStep::Refuse { keep_root: self.keep_root, target_root: target.root_id };
        }
        let mut found = false;
        let mut i: usize = 0;
        while i < self.rescanned_root_ids.len()
            invariant
                i <= self.rescanned_root_ids@.len(),
                found == exists|j: int| 0 <= j < i && self.rescanned_root_ids@[j] == target.root_id,
            decreases self.rescanned_root_ids@.len() - i,
        {
            if self.rescanned_root_ids[i] == target.root_id {
                found = true;
            }
            i += 1;
        }
        if !found {
            let ghost old_ids = self.rescanned_root_ids@;
            self.rescanned_root_ids.push(target.root_id);
            assert(self.rescanned_root_ids@[0] == old_ids[0]);
            assert forall|a: int, b: int| 0 <= a < b < self.rescanned_root_ids@.len() implies self.rescanned_root_ids@[a] != self.rescanned_root_ids@[b] by {
                if b == old_ids.len() {
                    assert(old_ids[a] != target.root_id);
                }
            }
        }
        MergeStep::Trash {
            root_path: target.root_path.clone(),
            package_path: target.package_path.clone(),
            rel_path: target.rel_path.clone(),
        }
    }

    /// Counts one chart as removed.
    pub fn record_removed(&mut self)
        requires
            old(self).removed < usize::MAX,
        ensures
            final(self).removed == old(self).removed + 1,
            final(self).keep_root == old(self).keep_root,
            final(self).allow_cross_root == old(self).allow_cross_root,
            final(self).rescanned_root_ids@ == old(self).rescanned_root_ids@,
    {
        self.removed = self.removed + 1;
    }

    /// The outcome of the merge.
    pub fn finish(self) -> (r: DedupeExecuteResult)
        ensures
            r.removed == self.removed,
            r.rescanned_root_ids@ == self.rescanned_root_ids@,
    {
        DedupeExecuteResult { removed: self.removed, rescanned_root_ids: self.rescanned_root_ids }
    }
}

}
