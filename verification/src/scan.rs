//! The decisions of a local scan: which directories are packages, which files are
//! charts, their order, and the song each package belongs to.
use crate::song_norm::{
    artist_norm, opt_view, estimate_package_meta_checked, normalize_artist_checked, normalize_title,
    package_meta, title_norm,
};
use crate::text::{
    ascii_lower, ascii_lowercase, ascii_lowercase_chars, chars_eq, chars_less, chars_lt, chars_to_string,
    lemma_chars_lt_transitive, lemma_chars_lt_total, lemma_chars_lt_irreflexive, rfind_char,
    rfind_char_exec, lemma_rfind_char_props, str_to_chars, sub_chars,
};
use vstd::multiset::Multiset;
use vstd::prelude::*;

verus! {

/// A chart file found in a package.
pub struct ChartFile {
    pub package_rel: String,
    pub rel_path: String,
    /// The file's name in its package directory, converted lossily to UTF-8.
    pub file_name: String,
    /// The bytes of the file's name as the file system gives it, by which charts
    /// are ordered.
    pub raw_name: Vec<u8>,
    pub ext: String,
    pub file_size: i64,
    pub mtime: i64,
}

/// A package: a directory that directly holds at least one chart.
pub struct PackageRow {
    pub rel_path: String,
    pub mtime: i64,
    pub total_size: i64,
    pub file_count: i64,
    pub chart_count: i64,
}

/// What the scan reads of one directory entry.
pub struct DirChild {
    /// The entry's file name, converted lossily to UTF-8.
    pub name: String,
    /// The bytes of the entry's file name as the file system gives it.
    pub raw_name: Vec<u8>,
    pub is_file: bool,
    pub size: i64,
    pub mtime: i64,
}

// ---------------------------------------------------------------------
// Specification

/// `Path::extension` of a file name: the part after the last `.`, none when there
/// is no `.` or the only one starts the name.
pub open spec fn extension_of(name: Seq<char>) -> Option<Seq<char>> {
    match rfind_char(name, '.') {
        None => None,
        Some(i) => if i == 0 {
            None
        } else {
            Some(name.skip(i + 1))
        },
    }
}

/// The lowercased extension of a file name, empty when it has none.
pub open spec fn lower_ext(name: Seq<char>) -> Seq<char> {
    match extension_of(name) {
        Some(e) => ascii_lowercase(e),
        None => seq![],
    }
}

/// Chart extensions: `bms`, `bme`, `bml`, `pms`.
pub open spec fn is_chart_ext(ext: Seq<char>) -> bool {
    ext == "bms"@ || ext == "bme"@ || ext == "bml"@ || ext == "pms"@
}

/// A relative path as stored: backslashes turned into slashes, `"."` for the
/// directory itself.
pub open spec fn relative_text_spec(s: Seq<char>) -> Seq<char> {
    let r = s.map_values(|c: char| if c == '\\' { '/' } else { c });
    if r.len() == 0 {
        seq!['.']
    } else {
        r
    }
}

/// The files among the entries.
pub open spec fn files_of(children: Seq<DirChild>) -> Seq<DirChild>
    decreases children.len(),
{
    if children.len() == 0 {
        seq![]
    } else if children.last().is_file {
        files_of(children.drop_last()).push(children.last())
    } else {
        files_of(children.drop_last())
    }
}

/// The chart files among the entries.
pub open spec fn chart_children(children: Seq<DirChild>) -> Seq<DirChild>
    decreases children.len(),
{
    if children.len() == 0 {
        seq![]
    } else if children.last().is_file && is_chart_ext(lower_ext(children.last().name@)) {
        chart_children(children.drop_last()).push(children.last())
    } else {
        chart_children(children.drop_last())
    }
}

/// The total size of the files among the entries.
pub open spec fn files_size(children: Seq<DirChild>) -> int
    decreases children.len(),
{
    if children.len() == 0 {
        0
    } else if children.last().is_file {
        files_size(children.drop_last()) + children.last().size
    } else {
        files_size(children.drop_last())
    }
}

/// The running totals of file sizes stay within `i64`.
pub open spec fn sizes_fit(children: Seq<DirChild>) -> bool {
    forall|k: int| 0 <= k <= children.len() ==> i64::MIN <= #[trigger] files_size(children.take(k)) <= i64::MAX
}

/// Sorted by key in code-point order (ties allowed).
pub open spec fn keys_sorted<T>(v: Seq<(Vec<char>, T)>) -> bool {
    forall|i: int, j: int| 0 <= i < j < v.len() ==> !chars_lt(#[trigger] v[j].0@, #[trigger] v[i].0@)
}

pub open spec fn key_views<T>(v: Seq<(Vec<char>, T)>) -> Seq<(Seq<char>, T)> {
    v.map_values(|p: (Vec<char>, T)| (p.0@, p.1))
}

/// The fields of a chart row, by value.
pub type ChartTuple = (Seq<char>, Seq<char>, Seq<char>, Seq<u8>, Seq<char>, i64, i64);

/// The fields of a chart row, by value.
pub open spec fn chart_view(c: ChartFile) -> ChartTuple {
    (c.package_rel@, c.rel_path@, c.file_name@, c.raw_name@, c.ext@, c.file_size, c.mtime)
}

/// The chart row of a chart entry of package `rel_pkg`.
pub open spec fn chart_of(rel_pkg: Seq<char>, c: DirChild) -> ChartTuple {
    (rel_pkg, relative_text_spec(c.name@), c.name@, c.raw_name@, lower_ext(c.name@), c.size, c.mtime)
}

/// The chart rows of the chart entries of package `rel_pkg`, in entry order.
pub open spec fn chart_rows(rel_pkg: Seq<char>, children: Seq<DirChild>) -> Seq<
    ChartTuple,
> {
    chart_children(children).map_values(|c: DirChild| chart_of(rel_pkg, c))
}

/// Each byte as the character of the same number, so that code-point order on the
/// result is byte order on the bytes.
pub open spec fn byte_chars(b: Seq<u8>) -> Seq<char> {
    b.map_values(|x: u8| x as char)
}

/// Chart rows ordered by the bytes of their file names.
pub open spec fn charts_sorted(v: Seq<ChartFile>) -> bool {
    forall|i: int, j: int| 0 <= i < j < v.len() ==> !chars_lt(
        byte_chars(#[trigger] v[j].raw_name@),
        byte_chars(#[trigger] v[i].raw_name@),
    )
}

/// Packages ordered by relative path in code-point order.
pub open spec fn packages_sorted(v: Seq<(PackageRow, Vec<ChartFile>)>) -> bool {
    forall|i: int, j: int| 0 <= i < j < v.len() ==> !chars_lt(#[trigger] v[j].0.rel_path@, #[trigger] v[i].0.rel_path@)
}

/// The characters of an optional field, empty when absent.
pub open spec fn field_chars(s: Option<String>) -> Seq<char> {
    match s {
        Some(t) => t@,
        None => seq![],
    }
}

/// The first row whose title and artist both normalise to something, in row
/// order; `None` outside where normalising an artist on the way panics.
pub open spec fn first_named_row(rows: Seq<(Option<String>, Option<String>)>) -> Option<
    Option<(Seq<char>, Seq<char>)>,
>
    decreases rows.len(),
{
    if rows.len() == 0 {
        Some(None)
    } else {
        let t = title_norm(field_chars(rows[0].0));
        match artist_norm(field_chars(rows[0].1)) {
            None => None,
            Some(a) => if t.len() > 0 && a.len() > 0 {
                Some(Some((t, a)))
            } else {
                first_named_row(rows.drop_first())
            },
        }
    }
}

/// The song of a package from its charts' titles and artists: the estimate of
/// `estimate_package_meta` when it names both, else the first chart whose title
/// and artist both normalise to something. `None` outside where a step panics.
pub open spec fn package_song_spec(rows: Seq<(Option<String>, Option<String>)>) -> Option<
    Option<(Seq<char>, Seq<char>)>,
> {
    match package_meta(rows) {
        None => None,
        Some((Some(t), Some(a))) => Some(Some((t, a))),
        Some(_) => first_named_row(rows),
    }
}

pub open spec fn song_view(s: Option<(String, String)>) -> Option<(Seq<char>, Seq<char>)> {
    match s {
        Some((t, a)) => Some((t@, a@)),
        None => None,
    }
}

/// A chart of a package as its song is estimated from: id, title and artist.
pub open spec fn song_row_view(c: (i64, Option<String>, Option<String>)) -> (i64, Option<Seq<char>>, Option<Seq<char>>) {
    (c.0, opt_view(c.1), opt_view(c.2))
}

pub open spec fn song_rows_view(v: Seq<(i64, Option<String>, Option<String>)>) -> Seq<(i64, Option<Seq<char>>, Option<Seq<char>>)> {
    v.map_values(|c: (i64, Option<String>, Option<String>)| song_row_view(c))
}

/// The charts of package `pkg` among queried `(package, chart, title, artist)` rows,
/// in row order; rows without a chart name none.
pub open spec fn package_charts(
    rows: Seq<(i64, Option<i64>, Option<String>, Option<String>)>,
    pkg: i64,
) -> Seq<(i64, Option<Seq<char>>, Option<Seq<char>>)>
    decreases rows.len(),
{
    if rows.len() == 0 {
        seq![]
    } else {
        let rest = package_charts(rows.drop_last(), pkg);
        let r = rows.last();
        match r.1 {
            Some(id) => if r.0 == pkg {
                rest.push((id, opt_view(r.2), opt_view(r.3)))
            } else {
                rest
            },
            None => rest,
        }
    }
}

// ---------------------------------------------------------------------
// The song of a package

/// The first row whose title and artist both normalise to something is the one
/// that `first_named_row` picks, where no artist before it fails to normalise.
proof fn lemma_first_named_row_at(rows: Seq<(Option<String>, Option<String>)>, i: int)
    requires
        0 <= i < rows.len(),
        forall|j: int| 0 <= j <= i ==> (#[trigger] artist_norm(field_chars(rows[j].1))) is Some,
        title_norm(field_chars(rows[i].0)).len() > 0,
        artist_norm(field_chars(rows[i].1))->0.len() > 0,
        forall|j: int| 0 <= j < i ==> !(title_norm(field_chars(rows[j].0)).len() > 0
            && (#[trigger] artist_norm(field_chars(rows[j].1)))->0.len() > 0),
    ensures
        first_named_row(rows) == Some(Some((title_norm(field_chars(rows[i].0)), artist_norm(field_chars(rows[i].1))->0))),
    decreases i,
{
    assert(artist_norm(field_chars(rows[0].1)) is Some);
    if i > 0 {
        let rest = rows.drop_first();
        assert forall|j: int| 0 <= j <= i - 1 implies (#[trigger] artist_norm(field_chars(rest[j].1))) is Some by {
            assert(rest[j] == rows[j + 1]);
            assert(artist_norm(field_chars(rows[j + 1].1)) is Some);
        }
        assert forall|j: int| 0 <= j < i - 1 implies !(title_norm(field_chars(rest[j].0)).len() > 0
            && (#[trigger] artist_norm(field_chars(rest[j].1)))->0.len() > 0) by {
            assert(rest[j] == rows[j + 1]);
            assert(!(title_norm(field_chars(rows[j + 1].0)).len() > 0
                && artist_norm(field_chars(rows[j + 1].1))->0.len() > 0));
        }
        assert(rest[i - 1] == rows[i]);
        assert(!(title_norm(field_chars(rows[0].0)).len() > 0 && artist_norm(field_chars(rows[0].1))->0.len() > 0));
        lemma_first_named_row_at(rest, i - 1);
    }
}

/// A package is linked to a song whenever one of its charts has a title and an
/// artist that both normalise to something: the estimate where it names both a
/// title and an artist, else the first such chart. `i` is that first chart, and
/// no artist before it is one that normalising refuses.
pub proof fn lemma_package_song_found(rows: Seq<(Option<String>, Option<String>)>, i: int)
    requires
        0 <= i < rows.len(),
        package_meta(rows) is Some,
        forall|j: int| 0 <= j <= i ==> (#[trigger] artist_norm(field_chars(rows[j].1))) is Some,
        title_norm(field_chars(rows[i].0)).len() > 0,
        artist_norm(field_chars(rows[i].1))->0.len() > 0,
        forall|j: int| 0 <= j < i ==> !(title_norm(field_chars(rows[j].0)).len() > 0
            && (#[trigger] artist_norm(field_chars(rows[j].1)))->0.len() > 0),
    ensures
        package_song_spec(rows) == Some(Some(
            match package_meta(rows)->0 {
                (Some(t), Some(a)) => (t, a),
                _ => (title_norm(field_chars(rows[i].0)), artist_norm(field_chars(rows[i].1))->0),
            },
        )),
{
    lemma_first_named_row_at(rows, i);
}

// ---------------------------------------------------------------------
// Implementation

/// A relative path as stored: backslashes turned into slashes, `"."` when empty.
pub fn relative_text(s: &str) -> (r: String)
    ensures
        r@ == relative_text_spec(s@),
{
    let v = str_to_chars(s);
    let mut out: Vec<char> = Vec::new();
    let mut i: usize = 0;
    while i < v.len()
        invariant
            i <= v.len(),
            out@ == v@.take(i as int).map_values(|c: char| if c == '\\' { '/' } else { c }),
        decreases v.len() - i,
    {
        let c = v[i];
        out.push(if c == '\\' { '/' } else { c });
        i += 1;
        assert(out@ =~= v@.take(i as int).map_values(|c: char| if c == '\\' { '/' } else { c }));
    }
    assert(v@.take(v.len() as int) =~= v@);
    if out.len() == 0 {
        out.push('.');
        assert(out@ =~= seq!['.']);
    }
    chars_to_string(&out)
}

/// The lowercased extension of a file name (`Path::extension`, then ASCII
/// lowercase), empty when it has none.
pub fn lower_extension(name: &str) -> (r: String)
    ensures
        r@ == lower_ext(name@),
{
    let v = str_to_chars(name);
    match rfind_char_exec(&v, '.') {
        None => String::new(),
        Some(i) => {
            if i == 0 {
                String::new()
            } else {
                proof {
                    lemma_rfind_char_props(v@, '.');
                }
                assert(i < v.len());
                let e = sub_chars(&v, i + 1, v.len());
                assert(e@ =~= v@.skip(i + 1));
                chars_to_string(&ascii_lowercase_chars(&e))
            }
        },
    }
}

/// Whether an extension names a chart file.
pub fn is_chart_extension(ext: &str) -> (r: bool)
    ensures
        r == is_chart_ext(ext@),
{
    let e = str_to_chars(ext);
    chars_eq(&e, &str_to_chars("bms")) || chars_eq(&e, &str_to_chars("bme")) || chars_eq(
        &e,
        &str_to_chars("bml"),
    ) || chars_eq(&e, &str_to_chars("pms"))
}

proof fn lemma_ascii_lower_dot(c: char)
    ensures
        (ascii_lower(c) == '.') == (c == '.'),
{
    if 'A' <= c <= 'Z' {
        assert(((c as u8) + 32) as char as u32 == c as u32 + 32);
    }
}

proof fn lemma_rfind_dot_same(a: Seq<char>, b: Seq<char>)
    requires
        ascii_lowercase(a) == ascii_lowercase(b),
    ensures
        rfind_char(a, '.') == rfind_char(b, '.'),
    decreases a.len(),
{
    assert(a.len() == ascii_lowercase(a).len());
    assert(b.len() == ascii_lowercase(b).len());
    if a.len() > 0 {
        assert(ascii_lowercase(a)[a.len() - 1] == ascii_lower(a.last()));
        assert(ascii_lowercase(b)[b.len() - 1] == ascii_lower(b.last()));
        lemma_ascii_lower_dot(a.last());
        lemma_ascii_lower_dot(b.last());
        assert(ascii_lowercase(a.drop_last()) =~= ascii_lowercase(a).drop_last());
        assert(ascii_lowercase(b.drop_last()) =~= ascii_lowercase(b).drop_last());
        lemma_rfind_dot_same(a.drop_last(), b.drop_last());
    }
}

/// Whether a file is a chart does not depend on the ASCII case of its name: names
/// that agree once ASCII-lowercased have the same lowercased extension.
pub proof fn lemma_chart_ext_ignores_ascii_case(a: Seq<char>, b: Seq<char>)
    requires
        ascii_lowercase(a) == ascii_lowercase(b),
    ensures
        lower_ext(a) == lower_ext(b),
        is_chart_ext(lower_ext(a)) == is_chart_ext(lower_ext(b)),
{
    lemma_rfind_dot_same(a, b);
    lemma_rfind_char_props(a, '.');
    match rfind_char(a, '.') {
        Some(i) => {
            if i != 0 {
                assert(ascii_lowercase(a.skip(i + 1)) =~= ascii_lowercase(a).skip(i + 1));
                assert(ascii_lowercase(b.skip(i + 1)) =~= ascii_lowercase(b).skip(i + 1));
            }
        },
        None => {},
    }
}

/// Mapping both sides of a permutation keeps them a permutation.
pub proof fn lemma_to_multiset_map_values<A, B>(s1: Seq<A>, s2: Seq<A>, f: spec_fn(A) -> B)
    requires
        s1.to_multiset() == s2.to_multiset(),
    ensures
        s1.map_values(f).to_multiset() == s2.map_values(f).to_multiset(),
    decreases s1.len(),
{
    broadcast use vstd::multiset::group_multiset_axioms;

    s1.to_multiset_ensures();
    s2.to_multiset_ensures();
    s1.map_values(f).to_multiset_ensures();
    s2.map_values(f).to_multiset_ensures();
    if s1.len() == 0 {
        vstd::multiset::lemma_multiset_empty_len(s2.to_multiset());
        assert(s2.len() == 0);
        assert(s1.map_values(f) =~= s2.map_values(f));
    } else {
        let x = s1.last();
        let init = s1.drop_last();
        assert(s1 =~= init.push(x));
        vstd::seq_lib::to_multiset_build(init, x);
        assert(s1.to_multiset().count(x) > 0);
        assert(s2.contains(x));
        let i = choose|i: int| 0 <= i < s2.len() && s2[i] == x;
        vstd::seq_lib::to_multiset_remove(s2, i);
        assert(init.to_multiset() =~= s2.remove(i).to_multiset());
        lemma_to_multiset_map_values(init, s2.remove(i), f);
        assert(s2.remove(i).map_values(f) =~= s2.map_values(f).remove(i));
        vstd::seq_lib::to_multiset_remove(s2.map_values(f), i);
        assert(s1.map_values(f) =~= init.map_values(f).push(f(x)));
        vstd::seq_lib::to_multiset_build(init.map_values(f), f(x));
        assert(s2.map_values(f)[i] == f(x));
        assert(s2.map_values(f).to_multiset().count(f(x)) > 0);
        assert(s1.map_values(f).to_multiset() =~= s2.map_values(f).to_multiset());
    }
}

/// Each element of a sequence occurs in any permutation of it.
pub proof fn lemma_multiset_member<A>(s1: Seq<A>, s2: Seq<A>, k: int)
    requires
        s1.to_multiset() == s2.to_multiset(),
        0 <= k < s1.len(),
    ensures
        exists|j: int| 0 <= j < s2.len() && s2[j] == s1[k],
{
    s1.to_multiset_ensures();
    s2.to_multiset_ensures();
    assert(s1.contains(s1[k]));
    assert(s2.to_multiset().count(s1[k]) > 0);
    assert(s2.contains(s1[k]));
}

/// Sorts by key in code-point order, keeping the items.
pub fn sort_by_key<T>(items: Vec<(Vec<char>, T)>) -> (r: Vec<(Vec<char>, T)>)
    ensures
        keys_sorted(r@),
        key_views(r@).to_multiset() == key_views(items@).to_multiset(),
{
    broadcast use vstd::multiset::group_multiset_axioms;

    let mut rest = items;
    let mut out: Vec<(Vec<char>, T)> = Vec::new();
    let ghost orig = key_views(rest@);
    proof {
        assert(key_views(out@) =~= Seq::<(Seq<char>, T)>::empty());
        key_views(out@).to_multiset_ensures();
        vstd::multiset::lemma_multiset_empty_len(key_views(out@).to_multiset());
        assert(key_views(out@).to_multiset() =~= Multiset::<(Seq<char>, T)>::empty());
        assert(key_views(out@).to_multiset().add(orig.to_multiset()) =~= orig.to_multiset());
    }
    while rest.len() > 0
        invariant
            keys_sorted(out@),
            key_views(out@).to_multiset().add(key_views(rest@).to_multiset()) == orig.to_multiset(),
        decreases rest.len(),
    {
        let ghost before_rest = rest@;
        let ghost before_out = out@;
        let item = rest.pop().unwrap();
        assert(before_rest == rest@.push(item));
        assert(key_views(before_rest) =~= key_views(rest@).push((item.0@, item.1)));
        let mut p: usize = 0;
        while p < out.len() && chars_less(&out[p].0, &item.0)
            invariant
                out@ == before_out,
                p <= out@.len(),
                forall|k: int| 0 <= k < p ==> chars_lt(#[trigger] out@[k].0@, item.0@),
            decreases out@.len() - p,
        {
            p += 1;
        }
        proof {
            assert forall|k: int| p <= k < out@.len() implies !chars_lt(#[trigger] out@[k].0@, item.0@) by {
                if k > p && chars_lt(out@[k].0@, item.0@) {
                    assert(!chars_lt(out@[k].0@, out@[p as int].0@));
                    lemma_chars_lt_total(out@[k].0@, out@[p as int].0@);
                    if out@[k].0@ != out@[p as int].0@ {
                        lemma_chars_lt_transitive(out@[p as int].0@, out@[k].0@, item.0@);
                    }
                }
            }
        }
        let ghost kv = (item.0@, item.1);
        out.insert(p, item);
        proof {
            assert(key_views(out@) =~= key_views(before_out).insert(p as int, kv));
            assert forall|i: int, j: int| 0 <= i < j < out@.len() implies !chars_lt(#[trigger] out@[j].0@, #[trigger] out@[i].0@) by {
                if j < p {
                    assert(out@[i] == before_out[i] && out@[j] == before_out[j]);
                } else if j == p {
                    assert(out@[i] == before_out[i]);
                    if chars_lt(item.0@, before_out[i].0@) {
                        lemma_chars_lt_transitive(before_out[i].0@, item.0@, before_out[i].0@);
                        lemma_chars_lt_irreflexive(before_out[i].0@);
                    }
                } else if i < p {
                    assert(out@[i] == before_out[i] && out@[j] == before_out[j - 1]);
                    if chars_lt(out@[j].0@, out@[i].0@) {
                        lemma_chars_lt_transitive(out@[j].0@, out@[i].0@, item.0@);
                    }
                } else if i == p {
                    assert(out@[j] == before_out[j - 1]);
                } else {
                    assert(out@[i] == before_out[i - 1] && out@[j] == before_out[j - 1]);
                }
            }
            vstd::seq_lib::to_multiset_insert(key_views(before_out), p as int, kv);
            vstd::seq_lib::to_multiset_build(key_views(rest@), kv);
            assert(key_views(out@).to_multiset() == key_views(before_out).to_multiset().insert(kv));
            assert(key_views(before_rest).to_multiset() == key_views(rest@).to_multiset().insert(kv));
            assert(key_views(out@).to_multiset().add(key_views(rest@).to_multiset()) =~= key_views(before_out).to_multiset().add(key_views(before_rest).to_multiset()));
        }
    }
    proof {
        assert(key_views(rest@) =~= Seq::<(Seq<char>, T)>::empty());
        key_views(rest@).to_multiset_ensures();
        vstd::multiset::lemma_multiset_empty_len(key_views(rest@).to_multiset());
        assert(key_views(rest@).to_multiset() == Multiset::<(Seq<char>, T)>::empty());
        assert(key_views(out@).to_multiset().add(key_views(rest@).to_multiset()) =~= key_views(out@).to_multiset());
    }
    out
}


fn bytes_to_chars(b: &Vec<u8>) -> (r: Vec<char>)
    ensures
        r@ == byte_chars(b@),
{
    let mut out: Vec<char> = Vec::new();
    let mut i: usize = 0;
    while i < b.len()
        invariant
            i <= b@.len(),
            out@ == byte_chars(b@.take(i as int)),
        decreases b@.len() - i,
    {
        out.push(b[i] as char);
        i += 1;
        assert(out@ =~= byte_chars(b@.take(i as int)));
    }
    assert(b@.take(b@.len() as int) =~= b@);
    out
}

fn copy_bytes(b: &Vec<u8>) -> (r: Vec<u8>)
    ensures
        r@ == b@,
{
    let mut out: Vec<u8> = Vec::new();
    let mut i: usize = 0;
    while i < b.len()
        invariant
            i <= b@.len(),
            out@ == b@.take(i as int),
        decreases b@.len() - i,
    {
        out.push(b[i]);
        i += 1;
        assert(out@ =~= b@.take(i as int));
    }
    assert(b@.take(b@.len() as int) =~= b@);
    out
}

/// The package row and sorted chart rows of one directory of a scan, from its
/// relative path, its modification time and its entries; `None` when no entry is a
/// chart file. File count and total size cover all file entries; the charts are the
/// file entries with a chart extension, ordered by the bytes of their file names.
pub fn scan_dir(rel_pkg: &str, dir_mtime: i64, children: &Vec<DirChild>) -> (r: Option<(PackageRow, Vec<ChartFile>)>)
    requires
        sizes_fit(children@),
        children@.len() <= i64::MAX,
    ensures
        r is None <==> chart_children(children@).len() == 0,
        r matches Some((pkg, charts)) ==> {
            &&& pkg.rel_path@ == rel_pkg@
            &&& pkg.mtime == dir_mtime
            &&& pkg.total_size == files_size(children@)
            &&& pkg.file_count == files_of(children@).len()
            &&& pkg.chart_count == charts@.len()
            &&& charts_sorted(charts@)
            &&& charts@.map_values(|c: ChartFile| chart_view(c)).to_multiset()
                == chart_rows(rel_pkg@, children@).to_multiset()
        },
{
    let mut file_count: i64 = 0;
    let mut total_size: i64 = 0;
    let mut found: Vec<(Vec<char>, ChartFile)> = Vec::new();
    let ghost mut rows: Seq<ChartTuple> = seq![];
    let mut i: usize = 0;
    while i < children.len()
        invariant
            i <= children@.len(),
            children@.len() <= i64::MAX,
            sizes_fit(children@),
            file_count == files_of(children@.take(i as int)).len(),
            files_of(children@.take(i as int)).len() <= i,
            total_size == files_size(children@.take(i as int)),
            found@.len() == chart_children(children@.take(i as int)).len(),
            found@.len() <= i,
            found@.map_values(|p: (Vec<char>, ChartFile)| chart_view(p.1))
                == chart_rows(rel_pkg@, children@.take(i as int)),
            forall|k: int| 0 <= k < found@.len() ==> (#[trigger] found@[k]).0@ == byte_chars(found@[k].1.raw_name@),
        decreases children@.len() - i,
    {
        let c = &children[i];
        let ghost pre = children@.take(i as int);
        assert(children@.take(i + 1) =~= pre.push(children@[i as int]));
        assert(children@.take(i + 1).drop_last() =~= pre);
        if c.is_file {
            file_count = file_count + 1;
            assert(0 <= i + 1 <= children@.len());
            assert(i64::MIN <= files_size(children@.take(i + 1)) <= i64::MAX);
            total_size = total_size + c.size;
            let ext = lower_extension(c.name.as_str());
            if is_chart_extension(ext.as_str()) {
                let key = bytes_to_chars(&c.raw_name);
                let chart = ChartFile {
                    package_rel: chars_to_string(&str_to_chars(rel_pkg)),
                    rel_path: relative_text(c.name.as_str()),
                    file_name: chars_to_string(&str_to_chars(c.name.as_str())),
                    raw_name: copy_bytes(&c.raw_name),
                    ext,
                    file_size: c.size,
                    mtime: c.mtime,
                };
                let ghost before = found@;
                found.push((key, chart));
                proof {
                    assert(found@ == before.push(found@.last()));
                    assert(found@.map_values(|p: (Vec<char>, ChartFile)| chart_view(p.1))
                        =~= before.map_values(|p: (Vec<char>, ChartFile)| chart_view(p.1)).push(
                        chart_of(rel_pkg@, children@[i as int])));
                }
            }
        }
        i += 1;
    }
    assert(children@.take(children@.len() as int) =~= children@);
    if found.len() == 0 {
        return None;
    }
    let ghost unsorted = found@;
    let mut sorted = sort_by_key(found);
    let ghost sorted_all = sorted@;
    proof {
        let f = |p: (Seq<char>, ChartFile)| chart_view(p.1);
        key_views(sorted_all).to_multiset_ensures();
        key_views(unsorted).to_multiset_ensures();
        assert(sorted_all.len() == unsorted.len());
        lemma_to_multiset_map_values(key_views(sorted_all), key_views(unsorted), f);
        assert(key_views(sorted_all).map_values(f) =~= sorted_all.map_values(
            |p: (Vec<char>, ChartFile)| chart_view(p.1),
        ));
        assert(key_views(unsorted).map_values(f) =~= unsorted.map_values(
            |p: (Vec<char>, ChartFile)| chart_view(p.1),
        ));
        assert forall|k: int| 0 <= k < sorted_all.len() implies (#[trigger] sorted_all[k]).0@
            == byte_chars(sorted_all[k].1.raw_name@) by {
            lemma_multiset_member(key_views(sorted_all), key_views(unsorted), k);
            let j = choose|j: int| 0 <= j < key_views(unsorted).len() && key_views(unsorted)[j]
                == key_views(sorted_all)[k];
            assert(unsorted[j].0@ == byte_chars(unsorted[j].1.raw_name@));
        }
    }
    let mut charts: Vec<ChartFile> = Vec::new();
    while sorted.len() > 0
        invariant
            charts@.len() + sorted@.len() == sorted_all.len(),
            sorted@ == sorted_all.skip(charts@.len() as int),
            charts@ == sorted_all.take(charts@.len() as int).map_values(|p: (Vec<char>, ChartFile)| p.1),
        decreases sorted@.len(),
    {
        let ghost before = charts@;
        let (_, chart) = sorted.remove(0);
        charts.push(chart);
        assert(sorted@ =~= sorted_all.skip(charts@.len() as int));
        assert(charts@ =~= sorted_all.take(charts@.len() as int).map_values(|p: (Vec<char>, ChartFile)| p.1));
    }
    proof {
        assert(sorted_all.take(sorted_all.len() as int) =~= sorted_all);
        assert(charts@.map_values(|c: ChartFile| chart_view(c)) =~= sorted_all.map_values(
            |p: (Vec<char>, ChartFile)| chart_view(p.1),
        ));
        assert forall|a: int, b: int| 0 <= a < b < charts@.len() implies !chars_lt(
            byte_chars(#[trigger] charts@[b].raw_name@),
            byte_chars(#[trigger] charts@[a].raw_name@),
        ) by {
            assert(charts@[a] == sorted_all[a].1 && charts@[b] == sorted_all[b].1);
            assert(!chars_lt(sorted_all[b].0@, sorted_all[a].0@));
        }
    }
    let count = charts.len() as i64;
    Some((
        PackageRow {
            rel_path: chars_to_string(&str_to_chars(rel_pkg)),
            mtime: dir_mtime,
            total_size,
            file_count,
            chart_count: count,
        },
        charts,
    ))
}

/// Orders the packages of a scan by relative path in code-point order.
pub fn order_packages(found: Vec<(PackageRow, Vec<ChartFile>)>) -> (r: Vec<(PackageRow, Vec<ChartFile>)>)
    ensures
        packages_sorted(r@),
        r@.to_multiset() == found@.to_multiset(),
{
    let ghost all = found@;
    let mut rest = found;
    let mut keyed: Vec<(Vec<char>, (PackageRow, Vec<ChartFile>))> = Vec::new();
    while rest.len() > 0
        invariant
            keyed@.len() + rest@.len() == all.len(),
            rest@ == all.skip(keyed@.len() as int),
            keyed@.map_values(|p: (Vec<char>, (PackageRow, Vec<ChartFile>))| p.1) == all.take(keyed@.len() as int),
            forall|k: int| 0 <= k < keyed@.len() ==> (#[trigger] keyed@[k]).0@ == keyed@[k].1.0.rel_path@,
        decreases rest@.len(),
    {
        let item = rest.remove(0);
        let key = str_to_chars(item.0.rel_path.as_str());
        keyed.push((key, item));
        assert(rest@ =~= all.skip(keyed@.len() as int));
        assert(keyed@.map_values(|p: (Vec<char>, (PackageRow, Vec<ChartFile>))| p.1) =~= all.take(keyed@.len() as int));
    }
    assert(all.take(all.len() as int) =~= all);
    let ghost unsorted = keyed@;
    let mut sorted = sort_by_key(keyed);
    let ghost sorted_all = sorted@;
    proof {
        let f = |p: (Seq<char>, (PackageRow, Vec<ChartFile>))| p.1;
        key_views(sorted_all).to_multiset_ensures();
        key_views(unsorted).to_multiset_ensures();
        lemma_to_multiset_map_values(key_views(sorted_all), key_views(unsorted), f);
        assert(key_views(sorted_all).map_values(f) =~= sorted_all.map_values(
            |p: (Vec<char>, (PackageRow, Vec<ChartFile>))| p.1,
        ));
        assert(key_views(unsorted).map_values(f) =~= unsorted.map_values(
            |p: (Vec<char>, (PackageRow, Vec<ChartFile>))| p.1,
        ));
        assert forall|k: int| 0 <= k < sorted_all.len() implies (#[trigger] sorted_all[k]).0@
            == sorted_all[k].1.0.rel_path@ by {
            lemma_multiset_member(key_views(sorted_all), key_views(unsorted), k);
            let j = choose|j: int| 0 <= j < key_views(unsorted).len() && key_views(unsorted)[j]
                == key_views(sorted_all)[k];
            assert(unsorted[j].0@ == unsorted[j].1.0.rel_path@);
        }
    }
    let mut out: Vec<(PackageRow, Vec<ChartFile>)> = Vec::new();
    while sorted.len() > 0
        invariant
            out@.len() + sorted@.len() == sorted_all.len(),
            sorted@ == sorted_all.skip(out@.len() as int),
            out@ == sorted_all.take(out@.len() as int).map_values(|p: (Vec<char>, (PackageRow, Vec<ChartFile>))| p.1),
        decreases sorted@.len(),
    {
        let (_, item) = sorted.remove(0);
        out.push(item);
        assert(sorted@ =~= sorted_all.skip(out@.len() as int));
        assert(out@ =~= sorted_all.take(out@.len() as int).map_values(|p: (Vec<char>, (PackageRow, Vec<ChartFile>))| p.1));
    }
    proof {
        assert(sorted_all.take(sorted_all.len() as int) =~= sorted_all);
        assert forall|a: int, b: int| 0 <= a < b < out@.len() implies !chars_lt(
            #[trigger] out@[b].0.rel_path@,
            #[trigger] out@[a].0.rel_path@,
        ) by {
            assert(out@[a] == sorted_all[a].1 && out@[b] == sorted_all[b].1);
            assert(!chars_lt(sorted_all[b].0@, sorted_all[a].0@));
        }
    }
    out
}

fn field_str(s: &Option<String>) -> (r: &str)
    ensures
        r@ == field_chars(*s),
{
    match s {
        Some(t) => t.as_str(),
        None => {
            proof {
                reveal_strlit("");
            }
            ""
        },
    }
}

fn first_named_row_exec(rows: &[(Option<String>, Option<String>)]) -> (r: Option<Option<(String, String)>>)
    ensures
        match r {
            Some(x) => first_named_row(rows@) == Some(song_view(x)),
            None => first_named_row(rows@) is None,
        },
{
    let mut i: usize = 0;
    assert(rows@.skip(0) =~= rows@);
    while i < rows.len()
        invariant
            i <= rows@.len(),
            first_named_row(rows@) == first_named_row(rows@.skip(i as int)),
        decreases rows@.len() - i,
    {
        assert(rows@.skip(i as int)[0] == rows@[i as int]);
        assert(rows@.skip(i as int).drop_first() =~= rows@.skip(i + 1));
        let t = normalize_title(field_str(&rows[i].0));
        match normalize_artist_checked(field_str(&rows[i].1)) {
            None => {
                return None;
            },
            Some(a) => {
                if !t.as_str().is_empty() && !a.as_str().is_empty() {
                    return Some(Some((t, a)));
                }
            },
        }
        i += 1;
    }
    assert(rows@.skip(i as int) =~= Seq::<(Option<String>, Option<String>)>::empty());
    Some(None)
}

fn package_song_exec(rows: &[(Option<String>, Option<String>)]) -> (r: Option<Option<(String, String)>>)
    ensures
        match r {
            Some(x) => package_song_spec(rows@) == Some(song_view(x)),
            None => package_song_spec(rows@) is None,
        },
{
    match estimate_package_meta_checked(rows) {
        None => None,
        Some((Some(t), Some(a))) => Some(Some((t, a))),
        Some(_) => first_named_row_exec(rows),
    }
}

/// The song a package's charts belong to, from their titles and artists: the
/// estimate of `estimate_package_meta` when it names both, else the first chart
/// whose title and artist both normalise to something; `None` when there is none.
pub fn package_song(rows: &[(Option<String>, Option<String>)]) -> (r: Option<(String, String)>)
    requires
        package_song_spec(rows@) is Some,
    ensures
        package_song_spec(rows@) == Some(song_view(r)),
{
    match package_song_exec(rows) {
        Some(x) => x,
        None => {
            proof {
                assert(false);
            }
            None
        },
    }
}

/// `package_song` where it is defined, `None` on the rows that it refuses.
pub fn package_song_checked(rows: &[(Option<String>, Option<String>)]) -> (r: Option<Option<(String, String)>>)
    ensures
        match r {
            Some(x) => package_song_spec(rows@) == Some(song_view(x)),
            None => package_song_spec(rows@) is None,
        },
{
    match package_song_exec(rows) {
        Some(_) => Some(package_song(rows)),
        None => None,
    }
}

fn clone_opt(o: &Option<String>) -> (r: Option<String>)
    ensures
        opt_view(r) == opt_view(*o),
{
    match o {
        Some(t) => Some(t.clone()),
        None => None,
    }
}

proof fn lemma_package_charts_step(rows: Seq<(i64, Option<i64>, Option<String>, Option<String>)>, i: int, pkg: i64)
    requires
        0 <= i < rows.len(),
    ensures
        package_charts(rows.take(i + 1), pkg) == match rows[i].1 {
            Some(id) => if rows[i].0 == pkg {
                package_charts(rows.take(i), pkg).push((id, opt_view(rows[i].2), opt_view(rows[i].3)))
            } else {
                package_charts(rows.take(i), pkg)
            },
            None => package_charts(rows.take(i), pkg),
        },
{
    assert(rows.take(i + 1).drop_last() =~= rows.take(i));
    assert(rows.take(i + 1).last() == rows[i]);
}

proof fn lemma_package_charts_absent(rows: Seq<(i64, Option<i64>, Option<String>, Option<String>)>, pkg: i64)
    requires
        forall|j: int| 0 <= j < rows.len() ==> (#[trigger] rows[j]).1 is None || rows[j].0 != pkg,
    ensures
        package_charts(rows, pkg) == Seq::<(i64, Option<Seq<char>>, Option<Seq<char>>)>::empty(),
    decreases rows.len(),
{
    if rows.len() > 0 {
        lemma_package_charts_absent(rows.drop_last(), pkg);
    }
}

/// Groups queried `(package, chart, title, artist)` rows by package: one group per
/// package that has a chart, holding its charts' ids,
/// titles and artists in row order.
pub fn group_package_charts(rows: &Vec<(i64, Option<i64>, Option<String>, Option<String>)>) -> (r: Vec<
    (i64, Vec<(i64, Option<String>, Option<String>)>),
>)
    ensures
        forall|g: int| 0 <= g < r@.len() ==> song_rows_view((#[trigger] r@[g]).1@) == package_charts(rows@, r@[g].0),
        forall|g: int| 0 <= g < r@.len() ==> (#[trigger] r@[g]).1@.len() >= 1,
        forall|j: int| 0 <= j < rows@.len() && (#[trigger] rows@[j]).1 is Some ==> exists|g: int|
            0 <= g < r@.len() && (#[trigger] r@[g]).0 == rows@[j].0,
        forall|a: int, b: int| 0 <= a < b < r@.len() ==> (#[trigger] r@[a]).0 != (#[trigger] r@[b]).0,
{
    let ghost rs = rows@;
    let mut groups: Vec<(i64, Vec<(i64, Option<String>, Option<String>)>)> = Vec::new();
    let mut i: usize = 0;
    while i < rows.len()
        invariant
            rs == rows@,
            i <= rows.len(),
            forall|g: int| 0 <= g < groups@.len() ==> song_rows_view((#[trigger] groups@[g]).1@)
                == package_charts(rs.take(i as int), groups@[g].0),
            forall|g: int| 0 <= g < groups@.len() ==> (#[trigger] groups@[g]).1@.len() >= 1,
            forall|j: int| 0 <= j < i && (#[trigger] rs[j]).1 is Some ==> exists|g: int|
                0 <= g < groups@.len() && (#[trigger] groups@[g]).0 == rs[j].0,
            forall|a: int, b: int| 0 <= a < b < groups@.len() ==> (#[trigger] groups@[a]).0 != (#[trigger] groups@[b]).0,
        decreases rows.len() - i,
    {
        let pkg = rows[i].0;
        proof {
            assert forall|g: int| 0 <= g < groups@.len() implies package_charts(rs.take(i + 1), (#[trigger] groups@[g]).0)
                == match rs[i as int].1 {
                Some(id) => if rs[i as int].0 == groups@[g].0 {
                    package_charts(rs.take(i as int), groups@[g].0).push((id, opt_view(rs[i as int].2), opt_view(rs[i as int].3)))
                } else {
                    package_charts(rs.take(i as int), groups@[g].0)
                },
                None => package_charts(rs.take(i as int), groups@[g].0),
            } by {
                lemma_package_charts_step(rs, i as int, groups@[g].0);
            }
        }
        match rows[i].1 {
            None => {},
            Some(chart_id) => {
                let c = (chart_id, clone_opt(&rows[i].2), clone_opt(&rows[i].3));
                let mut idx: usize = 0;
                while idx < groups.len() && groups[idx].0 != pkg
                    invariant
                        idx <= groups.len(),
                        forall|g: int| 0 <= g < idx ==> (#[trigger] groups@[g]).0 != pkg,
                    decreases groups.len() - idx,
                {
                    idx += 1;
                }
                let ghost old_groups = groups@;
                if idx < groups.len() {
                    let mut g = groups.remove(idx);
                    let ghost old_charts = g.1@;
                    g.1.push(c);
                    assert(song_rows_view(g.1@) =~= song_rows_view(old_charts).push(song_row_view(c)));
                    groups.insert(idx, g);
                    proof {
                        assert(groups@ =~= old_groups.update(idx as int, g));
                        assert forall|j: int| 0 <= j < i + 1 && (#[trigger] rs[j]).1 is Some implies exists|g2: int|
                            0 <= g2 < groups@.len() && (#[trigger] groups@[g2]).0 == rs[j].0 by {
                            if j < i {
                                let g2 = choose|g2: int| 0 <= g2 < old_groups.len() && (#[trigger] old_groups[g2]).0 == rs[j].0;
                                assert(groups@[g2].0 == old_groups[g2].0);
                            } else {
                                assert(groups@[idx as int].0 == rs[j].0);
                            }
                        }
                    }
                } else {
                    let mut charts: Vec<(i64, Option<String>, Option<String>)> = Vec::new();
                    charts.push(c);
                    proof {
                        assert forall|j: int| 0 <= j < i implies (#[trigger] rs[j]).1 is None || rs[j].0 != pkg by {
                            if rs[j].1 is Some && rs[j].0 == pkg {
                                let g2 = choose|g2: int| 0 <= g2 < old_groups.len() && (#[trigger] old_groups[g2]).0 == rs[j].0;
                            }
                        }
                        lemma_package_charts_absent(rs.take(i as int), pkg);
                        lemma_package_charts_step(rs, i as int, pkg);
                        assert(song_rows_view(charts@) =~= package_charts(rs.take(i + 1), pkg));
                    }
                    groups.push((pkg, charts));
                    proof {
                        assert forall|j: int| 0 <= j < i + 1 && (#[trigger] rs[j]).1 is Some implies exists|g2: int|
                            0 <= g2 < groups@.len() && (#[trigger] groups@[g2]).0 == rs[j].0 by {
                            if j < i {
                                let g2 = choose|g2: int| 0 <= g2 < old_groups.len() && (#[trigger] old_groups[g2]).0 == rs[j].0;
                                assert(groups@[g2] == old_groups[g2]);
                            } else {
                                assert(groups@[old_groups.len() as int].0 == rs[j].0);
                            }
                        }
                        assert forall|a: int, b: int| 0 <= a < b < groups@.len() implies (#[trigger] groups@[a]).0 != (#[trigger] groups@[b]).0 by {
                            if b == old_groups.len() {
                                assert(groups@[a] == old_groups[a]);
                            } else {
                                assert(groups@[a] == old_groups[a] && groups@[b] == old_groups[b]);
                            }
                        }
                    }
                }
            },
        }
        i += 1;
    }
    assert(rs.take(rows.len() as int) =~= rs);
    groups
}
}
