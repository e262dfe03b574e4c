//! Normalisation of song titles and artists, used to tell whether charts belong to
//! the same song.
use crate::text::{
    chars_to_string, count_char, count_char_exec, ends_with_char, find_char, find_char_exec,
    find_chars, find_seq, lemma_find_char_props, lemma_find_from_props, lemma_rfind_char_props,
    lemma_trim_end_props, rfind_char, rfind_char_exec, str_to_chars, sub_chars, to_unicode_lowercase,
    is_alphanumeric_char, trim_chars, trim_end_by, trim_end_chars, trim_end_ws, trim_end_ws_chars,
    trim_ws, unicode_alphanumeric, unicode_lowercase, utf8_len, utf8_len_prefix, ascii_lower,
    ascii_lowercase, is_white_space, lemma_trim_start_props, trim_start_by, in_set,
    lemma_trim_ws_idempotent, lemma_char_pos_unique, lemma_count_take_skip, lemma_count_before_last,
    lemma_count_found, lemma_count_concat, lemma_trim_end_count, lemma_trim_ws_count, lemma_trim_end_keeps,
    char_pos_of_byte, char_pos_of_byte_exec, CharSet, concat_chars,
};
use vstd::prelude::*;

verus! {

// ---------------------------------------------------------------------
// Specification

/// The alphanumeric characters of `s`, in order.
pub open spec fn keep_alphanumeric(s: Seq<char>) -> Seq<char>
    decreases s.len(),
{
    if s.len() == 0 {
        seq![]
    } else if unicode_alphanumeric(s.last()) {
        keep_alphanumeric(s.drop_last()).push(s.last())
    } else {
        keep_alphanumeric(s.drop_last())
    }
}

/// A comparison token: lowercased, alphanumeric characters only.
pub open spec fn token(s: Seq<char>) -> Seq<char> {
    keep_alphanumeric(unicode_lowercase(s))
}

/// The part of `s` before its first double space.
pub open spec fn before_double_space(s: Seq<char>) -> Seq<char> {
    match find_seq(s, seq![' ', ' ']) {
        Some(j) => s.take(j),
        None => s,
    }
}

/// Removes a trailing block delimited by `d` on both sides, such as `" -Another-"`.
pub open spec fn strip_delim_block(s: Seq<char>, d: char) -> Seq<char> {
    let t = trim_ws(s);
    if !ends_with_char(t, d) {
        t
    } else {
        let trimmed = trim_end_ws(t.drop_last());
        match rfind_char(trimmed, d) {
            Some(i) => trim_end_ws(trimmed.take(i)),
            None => t,
        }
    }
}

/// Repeatedly removes a trailing bracketed part opened by `open` and closed by `close`.
pub open spec fn strip_pairs(s: Seq<char>, open: char, close: char) -> Seq<char>
    decreases s.len(),
{
    let trimmed = trim_end_ws(s);
    if !ends_with_char(trimmed, close) {
        trimmed
    } else {
        match rfind_char(trimmed, open) {
            Some(i) => {
                proof {
                    lemma_trim_end_props(s, CharSet::WhiteSpace);
                    lemma_rfind_char_props(trimmed, open);
                    lemma_trim_end_props(trimmed.take(i), CharSet::WhiteSpace);
                }
                strip_pairs(trim_end_ws(trimmed.take(i)), open, close)
            },
            None => trimmed,
        }
    }
}

/// A title trimmed, cut before a double space, without its trailing delimited
/// blocks and bracketed parts: what `normalize_title` lowercases and filters.
pub open spec fn title_stripped(s: Seq<char>) -> Seq<char> {
    let t0 = before_double_space(trim_ws(s));
    let t1 = strip_delim_block(t0, '-');
    let t2 = strip_delim_block(t1, '～');
    let t3 = strip_delim_block(t2, '"');
    let t4 = strip_pairs(t3, '(', ')');
    let t5 = strip_pairs(t4, '（', '）');
    let t6 = strip_pairs(t5, '[', ']');
    strip_pairs(t6, '<', '>')
}

/// `normalize_title` on the characters of a title.
pub open spec fn title_norm(s: Seq<char>) -> Seq<char> {
    token(title_stripped(s))
}

/// Only ASCII characters.
pub open spec fn is_ascii_text(s: Seq<char>) -> bool {
    forall|i: int| 0 <= i < s.len() ==> (#[trigger] s[i] as u32) < 128
}

/// An ASCII letter or digit.
pub open spec fn is_ascii_alnum(c: char) -> bool {
    ('a' <= c <= 'z') || ('A' <= c <= 'Z') || ('0' <= c <= '9')
}

/// The ASCII letters and digits of `s`, in order.
pub open spec fn keep_ascii_alnum(s: Seq<char>) -> Seq<char>
    decreases s.len(),
{
    if s.len() == 0 {
        seq![]
    } else if is_ascii_alnum(s.last()) {
        keep_ascii_alnum(s.drop_last()).push(s.last())
    } else {
        keep_ascii_alnum(s.drop_last())
    }
}

/// `normalize_title` of an ASCII title: its stripped text ASCII-lowercased, with only
/// letters and digits kept.
pub open spec fn title_ascii(s: Seq<char>) -> Seq<char> {
    keep_ascii_alnum(ascii_lowercase(title_stripped(s)))
}

/// `s` cut before the first case-insensitive occurrence of `needle`, then trimmed.
/// The position is found in the lowercased text and applied, as a byte offset, to
/// `s` itself; `None` where that offset is not a character boundary of `s`, where
/// the slicing `&s[..idx]` panics.
pub open spec fn cut_ci(s: Seq<char>, needle: Seq<char>) -> Option<Seq<char>> {
    let lower = unicode_lowercase(s);
    match find_seq(lower, unicode_lowercase(needle)) {
        None => Some(s),
        Some(j) => match char_pos_of_byte(s, utf8_len(lower.take(j)) as int) {
            Some(k) => Some(trim_ws(s.take(k))),
            None => None,
        },
    }
}

/// The first `/`-separated segment of `s` that is not blank, trimmed; empty if none.
pub open spec fn first_segment(s: Seq<char>) -> Seq<char>
    decreases s.len(),
{
    match find_char(s, '/') {
        None => trim_ws(s),
        Some(j) => if trim_ws(s.take(j)).len() > 0 {
            trim_ws(s.take(j))
        } else {
            proof {
                lemma_find_char_props(s, '/');
            }
            first_segment(s.skip(j + 1))
        },
    }
}

/// `normalize_artist` on the characters of an artist; `None` where it panics.
pub open spec fn artist_norm(s: Seq<char>) -> Option<Seq<char>> {
    match cut_ci(trim_ws(s), "obj"@) {
        None => None,
        Some(t1) => match cut_ci(t1, "note:"@) {
            None => None,
            Some(t2) => match cut_ci(t2, "差分"@) {
                None => None,
                Some(t3) => Some(token(first_segment(t3))),
            },
        },
    }
}

/// Longest common prefix of two character sequences.
pub open spec fn lcp(a: Seq<char>, b: Seq<char>) -> Seq<char>
    decreases a.len(),
{
    if a.len() == 0 || b.len() == 0 || a[0] != b[0] {
        seq![]
    } else {
        seq![a[0]] + lcp(a.drop_first(), b.drop_first())
    }
}

/// Common prefix of all values, folded from the first.
pub open spec fn common_prefix_of(v: Seq<Seq<char>>) -> Seq<char>
    decreases v.len(),
{
    if v.len() == 0 {
        seq![]
    } else if v.len() == 1 {
        v[0]
    } else {
        lcp(common_prefix_of(v.drop_last()), v.last())
    }
}

/// The longest common prefix among all values and all leave-one-out subsets of the
/// first `i` positions; ties keep the earlier candidate.
pub open spec fn best_prefix_upto(v: Seq<Seq<char>>, i: int) -> Seq<char>
    decreases i,
{
    if i <= 0 {
        common_prefix_of(v)
    } else {
        let prev = best_prefix_upto(v, i - 1);
        let c = common_prefix_of(v.remove(i - 1));
        if c.len() > prev.len() {
            c
        } else {
            prev
        }
    }
}

/// Drops an unclosed trailing part opened by `open`.
pub open spec fn drop_unclosed(s: Seq<char>, open: char, close: char) -> Seq<char> {
    if count_char(s, open) > count_char(s, close) {
        match rfind_char(s, open) {
            Some(i) => s.take(i),
            None => s,
        }
    } else {
        s
    }
}

/// Removes dangling separators and unclosed brackets from the end of a prefix.
pub open spec fn trim_incomplete(s: Seq<char>) -> Seq<char> {
    let s1 = trim_end_by(s, CharSet::ChunkTail);
    let s2 = drop_unclosed(s1, '(', ')');
    let s3 = drop_unclosed(s2, '（', '）');
    let s4 = drop_unclosed(s3, '[', ']');
    trim_ws(s4)
}

/// The shared prefix of the values, allowing one value to disagree when there are
/// at least three.
pub open spec fn prefix_with_one_skip(v: Seq<Seq<char>>) -> Seq<char> {
    if v.len() == 0 {
        seq![]
    } else if v.len() == 1 {
        v[0]
    } else if v.len() >= 3 {
        trim_incomplete(best_prefix_upto(v, v.len() as int))
    } else {
        trim_incomplete(common_prefix_of(v))
    }
}

/// The views of a sequence of character vectors.
pub open spec fn views(v: Seq<Vec<char>>) -> Seq<Seq<char>> {
    v.map_values(|x: Vec<char>| x@)
}

/// The trimmed, non-blank titles (`first`) or artists of the rows, in order.
pub open spec fn present_fields(rows: Seq<(Option<String>, Option<String>)>, first: bool) -> Seq<
    Seq<char>,
>
    decreases rows.len(),
{
    if rows.len() == 0 {
        seq![]
    } else {
        let rest = present_fields(rows.drop_last(), first);
        let field = if first {
            rows.last().0
        } else {
            rows.last().1
        };
        match field {
            Some(t) => if trim_ws(t@).len() > 0 {
                rest.push(trim_ws(t@))
            } else {
                rest
            },
            None => rest,
        }
    }
}

pub open spec fn nonempty(s: Seq<char>) -> Option<Seq<char>> {
    if s.len() == 0 {
        None
    } else {
        Some(s)
    }
}

/// `estimate_package_meta` on the rows; `None` where it panics.
pub open spec fn package_meta(rows: Seq<(Option<String>, Option<String>)>) -> Option<
    (Option<Seq<char>>, Option<Seq<char>>),
> {
    let t = title_norm(prefix_with_one_skip(present_fields(rows, true)));
    match artist_norm(prefix_with_one_skip(present_fields(rows, false))) {
        None => None,
        Some(a) => Some((nonempty(t), nonempty(a))),
    }
}

/// The characters of an optional text, empty when absent.
pub open spec fn opt_chars(s: Option<&str>) -> Seq<char> {
    match s {
        Some(t) => t@,
        None => seq![],
    }
}

/// `normalize_song_key`; `None` inside where it panics.
pub open spec fn song_key(title: Seq<char>, artist: Seq<char>) -> Option<Option<Seq<char>>> {
    let t = title_norm(title);
    match artist_norm(artist) {
        None => None,
        Some(a) => Some(
            if t.len() == 0 || a.len() == 0 {
                None
            } else {
                Some(t + seq!['|'] + a)
            },
        ),
    }
}

pub open spec fn opt_view(s: Option<String>) -> Option<Seq<char>> {
    match s {
        Some(t) => Some(t@),
        None => None,
    }
}

// ---------------------------------------------------------------------
// Lemmas

pub proof fn lemma_keep_alphanumeric(s: Seq<char>)
    ensures
        forall|i: int|
            0 <= i < keep_alphanumeric(s).len() ==> unicode_alphanumeric(
                #[trigger] keep_alphanumeric(s)[i],
            ),
        keep_alphanumeric(s).len() <= s.len(),
    decreases s.len(),
{
    if s.len() > 0 {
        lemma_keep_alphanumeric(s.drop_last());
    }
}

proof fn lemma_lcp_take(a: Seq<char>, b: Seq<char>, k: int)
    requires
        0 <= k <= a.len(),
        k <= b.len(),
        forall|i: int| 0 <= i < k ==> a[i] == b[i],
        k == a.len() || k == b.len() || a[k] != b[k],
    ensures
        lcp(a, b) == a.take(k),
    decreases k,
{
    if k == 0 {
        assert(a.take(0) =~= seq![]);
    } else {
        lemma_lcp_take(a.drop_first(), b.drop_first(), k - 1);
        assert(a.take(k) =~= seq![a[0]] + a.drop_first().take(k - 1));
    }
}

pub proof fn lemma_lcp_props(a: Seq<char>, b: Seq<char>)
    ensures
        lcp(a, b).len() <= a.len(),
        lcp(a, b).len() <= b.len(),
        lcp(a, b) == a.take(lcp(a, b).len() as int),
        lcp(a, b) == b.take(lcp(a, b).len() as int),
        lcp(a, b).len() < a.len() && lcp(a, b).len() < b.len() ==> a[lcp(a, b).len() as int]
            != b[lcp(a, b).len() as int],
    decreases a.len(),
{
    if a.len() == 0 || b.len() == 0 || a[0] != b[0] {
        assert(a.take(0) =~= seq![]);
        assert(b.take(0) =~= seq![]);
    } else {
        lemma_lcp_props(a.drop_first(), b.drop_first());
        let r = lcp(a.drop_first(), b.drop_first());
        assert(a.take(r.len() + 1int) =~= seq![a[0]] + a.drop_first().take(r.len() as int));
        assert(b.take(r.len() + 1int) =~= seq![b[0]] + b.drop_first().take(r.len() as int));
    }
}

/// A prefix that two sequences share is a prefix of their longest common prefix.
proof fn lemma_lcp_longest(a: Seq<char>, b: Seq<char>, p: Seq<char>)
    requires
        p.is_prefix_of(a),
        p.is_prefix_of(b),
    ensures
        p.is_prefix_of(lcp(a, b)),
{
    lemma_lcp_props(a, b);
    let k = lcp(a, b).len() as int;
    if p.len() > k {
        assert(p[k] == a[k] && p[k] == b[k]);
    }
    assert(p =~= lcp(a, b).subrange(0, p.len() as int));
}

/// The common prefix of one or more values is a prefix of each of them, and every
/// prefix that they all share is a prefix of it: it is their longest common prefix.
pub proof fn lemma_common_prefix_is_longest(v: Seq<Seq<char>>, p: Seq<char>)
    requires
        v.len() >= 1,
    ensures
        forall|i: int| 0 <= i < v.len() ==> common_prefix_of(v).is_prefix_of(#[trigger] v[i]),
        (forall|i: int| 0 <= i < v.len() ==> p.is_prefix_of(#[trigger] v[i])) ==> p.is_prefix_of(
            common_prefix_of(v),
        ),
    decreases v.len(),
{
    if v.len() == 1 {
        assert(common_prefix_of(v) =~= v[0].subrange(0, v[0].len() as int));
        if p.is_prefix_of(v[0]) {
            assert(p.is_prefix_of(common_prefix_of(v)));
        }
    } else {
        let init = v.drop_last();
        let c = common_prefix_of(init);
        let cp = common_prefix_of(v);
        lemma_common_prefix_is_longest(init, p);
        lemma_lcp_props(c, v.last());
        assert(cp == lcp(c, v.last()));
        assert forall|i: int| 0 <= i < v.len() implies cp.is_prefix_of(#[trigger] v[i]) by {
            if i < v.len() - 1 {
                assert(init[i] == v[i]);
                assert(c.is_prefix_of(init[i]));
                assert(cp =~= v[i].subrange(0, cp.len() as int));
            } else {
                assert(cp =~= v.last().subrange(0, cp.len() as int));
            }
        }
        if forall|i: int| 0 <= i < v.len() ==> p.is_prefix_of(#[trigger] v[i]) {
            assert forall|i: int| 0 <= i < init.len() implies p.is_prefix_of(#[trigger] init[i]) by {
                assert(init[i] == v[i]);
            }
            assert(p.is_prefix_of(v[v.len() - 1]));
            lemma_lcp_longest(c, v.last(), p);
        }
    }
}

proof fn lemma_best_prefix_at_least(v: Seq<Seq<char>>, k: int, i: int)
    requires
        0 <= i < k,
    ensures
        common_prefix_of(v.remove(i)).len() <= best_prefix_upto(v, k).len(),
        best_prefix_upto(v, k - 1).len() <= best_prefix_upto(v, k).len(),
    decreases k,
{
    if i < k - 1 {
        lemma_best_prefix_at_least(v, k - 1, i);
    }
}

/// With three or more values, one value may disagree: the shared prefix chosen
/// (before incomplete parts are trimmed) is at least as long as any prefix that all
/// values but one share.
pub proof fn lemma_one_outlier_tolerated(v: Seq<Seq<char>>, i: int, p: Seq<char>)
    requires
        v.len() >= 3,
        0 <= i < v.len(),
        forall|j: int| 0 <= j < v.len() && j != i ==> p.is_prefix_of(#[trigger] v[j]),
    ensures
        p.len() <= best_prefix_upto(v, v.len() as int).len(),
{
    let w = v.remove(i);
    assert forall|j: int| 0 <= j < w.len() implies p.is_prefix_of(#[trigger] w[j]) by {
        if j < i {
            assert(w[j] == v[j]);
        } else {
            assert(w[j] == v[j + 1]);
        }
    }
    lemma_common_prefix_is_longest(w, p);
    lemma_best_prefix_at_least(v, v.len() as int, i);
}

/// A field that is absent or blank.
pub open spec fn is_blank_field(f: Option<String>) -> bool {
    match f {
        Some(t) => trim_ws(t@).len() == 0,
        None => true,
    }
}

/// The package estimate ignores blank rows: a chart whose title is absent or blank
/// changes no title estimate, one whose artist is absent or blank changes no artist
/// estimate, and one with both blank changes nothing.
pub proof fn lemma_blank_rows_ignored(rows: Seq<(Option<String>, Option<String>)>, row: (Option<String>, Option<String>))
    ensures
        is_blank_field(row.0) ==> present_fields(rows.push(row), true) == present_fields(rows, true),
        is_blank_field(row.1) ==> present_fields(rows.push(row), false) == present_fields(rows, false),
        is_blank_field(row.0) ==> match (package_meta(rows.push(row)), package_meta(rows)) {
            (Some(m2), Some(m1)) => m2.0 == m1.0,
            _ => true,
        },
        is_blank_field(row.0) && is_blank_field(row.1) ==> package_meta(rows.push(row)) == package_meta(rows),
{
    assert(rows.push(row).drop_last() =~= rows);
    assert(rows.push(row).last() == row);
}

// ---------------------------------------------------------------------
// Order of the rows

proof fn lemma_same_multiset_contains<A>(s1: Seq<A>, s2: Seq<A>)
    requires
        s1.to_multiset() == s2.to_multiset(),
    ensures
        s1.len() == s2.len(),
        forall|i: int| 0 <= i < s1.len() ==> s2.contains(#[trigger] s1[i]),
        forall|j: int| 0 <= j < s2.len() ==> s1.contains(#[trigger] s2[j]),
{
    s1.to_multiset_ensures();
    s2.to_multiset_ensures();
    assert forall|i: int| 0 <= i < s1.len() implies s2.contains(#[trigger] s1[i]) by {
        assert(s1.contains(s1[i]));
        assert(s1.to_multiset().count(s1[i]) > 0);
        assert(s2.to_multiset().count(s1[i]) > 0);
    }
    assert forall|j: int| 0 <= j < s2.len() implies s1.contains(#[trigger] s2[j]) by {
        assert(s2.contains(s2[j]));
        assert(s2.to_multiset().count(s2[j]) > 0);
        assert(s1.to_multiset().count(s2[j]) > 0);
    }
}

proof fn lemma_prefix_antisym(p: Seq<char>, q: Seq<char>)
    requires
        p.is_prefix_of(q),
        q.is_prefix_of(p),
    ensures
        p == q,
{
    assert(p =~= q);
}

/// Values with the same elements have the same common prefix.
proof fn lemma_common_prefix_same_elements(v: Seq<Seq<char>>, w: Seq<Seq<char>>)
    requires
        v.len() >= 1,
        w.len() >= 1,
        forall|i: int| 0 <= i < v.len() ==> w.contains(#[trigger] v[i]),
        forall|j: int| 0 <= j < w.len() ==> v.contains(#[trigger] w[j]),
    ensures
        common_prefix_of(v) == common_prefix_of(w),
{
    let cv = common_prefix_of(v);
    let cw = common_prefix_of(w);
    lemma_common_prefix_is_longest(v, cw);
    lemma_common_prefix_is_longest(w, cv);
    assert forall|j: int| 0 <= j < w.len() implies cv.is_prefix_of(#[trigger] w[j]) by {
        assert(v.contains(w[j]));
        let i = choose|i: int| 0 <= i < v.len() && v[i] == w[j];
        assert(cv.is_prefix_of(v[i]));
    }
    assert forall|i: int| 0 <= i < v.len() implies cw.is_prefix_of(#[trigger] v[i]) by {
        assert(w.contains(v[i]));
        let j = choose|j: int| 0 <= j < w.len() && w[j] == v[i];
        assert(cw.is_prefix_of(w[j]));
    }
    lemma_prefix_antisym(cv, cw);
}

/// A shared prefix considered by the one-skip estimate: that of all values, or
/// that of all values but one.
pub open spec fn is_candidate(v: Seq<Seq<char>>, c: Seq<char>) -> bool {
    ||| c == common_prefix_of(v)
    ||| exists|i: int| 0 <= i < v.len() && c == #[trigger] common_prefix_of(v.remove(i))
}

proof fn lemma_best_props(v: Seq<Seq<char>>, k: int)
    requires
        0 <= k <= v.len(),
    ensures
        best_prefix_upto(v, k) == common_prefix_of(v) || exists|i: int|
            0 <= i < k && best_prefix_upto(v, k) == #[trigger] common_prefix_of(v.remove(i)),
        common_prefix_of(v).len() <= best_prefix_upto(v, k).len(),
        forall|i: int| 0 <= i < k ==> (#[trigger] common_prefix_of(v.remove(i))).len() <= best_prefix_upto(v, k).len(),
    decreases k,
{
    if k > 0 {
        lemma_best_props(v, k - 1);
        let prev = best_prefix_upto(v, k - 1);
        if exists|i: int| 0 <= i < k - 1 && prev == #[trigger] common_prefix_of(v.remove(i)) {
            let i = choose|i: int| 0 <= i < k - 1 && prev == #[trigger] common_prefix_of(v.remove(i));
            assert(0 <= i < k);
        }
    }
}

/// A candidate is a prefix of every value but at most one.
proof fn lemma_candidate_prefix(v: Seq<Seq<char>>, c: Seq<char>) -> (e: int)
    requires
        v.len() >= 2,
        is_candidate(v, c),
    ensures
        forall|j: int| 0 <= j < v.len() && j != e ==> c.is_prefix_of(#[trigger] v[j]),
{
    if c == common_prefix_of(v) {
        lemma_common_prefix_is_longest(v, c);
        -1
    } else {
        let i = choose|i: int| 0 <= i < v.len() && c == #[trigger] common_prefix_of(v.remove(i));
        let w = v.remove(i);
        lemma_common_prefix_is_longest(w, c);
        assert forall|j: int| 0 <= j < v.len() && j != i implies c.is_prefix_of(#[trigger] v[j]) by {
            if j < i {
                assert(w[j] == v[j]);
            } else {
                assert(w[j - 1] == v[j]);
            }
        }
        i
    }
}

/// With three or more values, candidates of one length are one prefix.
proof fn lemma_candidates_equal(v: Seq<Seq<char>>, c1: Seq<char>, c2: Seq<char>)
    requires
        v.len() >= 3,
        is_candidate(v, c1),
        is_candidate(v, c2),
        c1.len() == c2.len(),
    ensures
        c1 == c2,
{
    let e1 = lemma_candidate_prefix(v, c1);
    let e2 = lemma_candidate_prefix(v, c2);
    let j: int = if 0 != e1 && 0 != e2 {
        0
    } else if 1 != e1 && 1 != e2 {
        1
    } else {
        2
    };
    assert(c1.is_prefix_of(v[j]) && c2.is_prefix_of(v[j]));
    assert(c1 =~= c2);
}

/// A candidate of some values is one of any arrangement of them.
proof fn lemma_candidate_transfer(v: Seq<Seq<char>>, w: Seq<Seq<char>>, c: Seq<char>)
    requires
        v.to_multiset() == w.to_multiset(),
        v.len() >= 2,
        is_candidate(w, c),
    ensures
        is_candidate(v, c),
{
    lemma_same_multiset_contains(v, w);
    if c == common_prefix_of(w) {
        lemma_common_prefix_same_elements(v, w);
    } else {
        let i = choose|i: int| 0 <= i < w.len() && c == #[trigger] common_prefix_of(w.remove(i));
        assert(v.contains(w[i]));
        let j = choose|j: int| 0 <= j < v.len() && v[j] == w[i];
        vstd::seq_lib::to_multiset_remove(w, i);
        vstd::seq_lib::to_multiset_remove(v, j);
        lemma_same_multiset_contains(v.remove(j), w.remove(i));
        lemma_common_prefix_same_elements(v.remove(j), w.remove(i));
        assert(c == common_prefix_of(v.remove(j)));
    }
}

/// The shared prefix with one skip does not depend on the order of the values.
pub proof fn lemma_prefix_with_one_skip_order_free(v: Seq<Seq<char>>, w: Seq<Seq<char>>)
    requires
        v.to_multiset() == w.to_multiset(),
    ensures
        prefix_with_one_skip(v) == prefix_with_one_skip(w),
{
    lemma_same_multiset_contains(v, w);
    if v.len() == 1 {
        assert(w.contains(v[0]));
    } else if v.len() == 2 {
        lemma_common_prefix_same_elements(v, w);
    } else if v.len() >= 3 {
        let n = v.len() as int;
        let bv = best_prefix_upto(v, n);
        let bw = best_prefix_upto(w, n);
        lemma_best_props(v, n);
        lemma_best_props(w, n);
        assert(is_candidate(v, bv));
        assert(is_candidate(w, bw));
        lemma_candidate_transfer(v, w, bw);
        lemma_candidate_transfer(w, v, bv);
        if bw != common_prefix_of(v) {
            let i = choose|i: int| 0 <= i < v.len() && bw == #[trigger] common_prefix_of(v.remove(i));
        }
        if bv != common_prefix_of(w) {
            let i = choose|i: int| 0 <= i < w.len() && bv == #[trigger] common_prefix_of(w.remove(i));
        }
        lemma_candidates_equal(v, bv, bw);
    }
}

/// Whether a row's title (`first`) or artist is present and not blank, trimmed.
pub open spec fn present_field(row: (Option<String>, Option<String>), first: bool) -> Option<Seq<char>> {
    let field = if first {
        row.0
    } else {
        row.1
    };
    match field {
        Some(t) => if trim_ws(t@).len() > 0 {
            Some(trim_ws(t@))
        } else {
            None
        },
        None => None,
    }
}

proof fn lemma_present_fields_push(rows: Seq<(Option<String>, Option<String>)>, row: (Option<String>, Option<String>), first: bool)
    ensures
        present_fields(rows.push(row), first) == match present_field(row, first) {
            Some(x) => present_fields(rows, first).push(x),
            None => present_fields(rows, first),
        },
{
    assert(rows.push(row).drop_last() =~= rows);
    assert(rows.push(row).last() == row);
}

proof fn lemma_present_fields_remove(s: Seq<(Option<String>, Option<String>)>, i: int, first: bool)
    requires
        0 <= i < s.len(),
    ensures
        present_fields(s, first).to_multiset() == match present_field(s[i], first) {
            Some(x) => present_fields(s.remove(i), first).to_multiset().insert(x),
            None => present_fields(s.remove(i), first).to_multiset(),
        },
    decreases s.len(),
{
    broadcast use vstd::multiset::group_multiset_axioms;

    let init = s.drop_last();
    let last = s.last();
    assert(s =~= init.push(last));
    lemma_present_fields_push(init, last, first);
    if i == s.len() - 1 {
        assert(s.remove(i) =~= init);
        match present_field(last, first) {
            Some(x) => vstd::seq_lib::to_multiset_build(present_fields(init, first), x),
            None => {},
        }
    } else {
        lemma_present_fields_remove(init, i, first);
        assert(s.remove(i) =~= init.remove(i).push(last));
        lemma_present_fields_push(init.remove(i), last, first);
        assert(init[i] == s[i]);
        match present_field(last, first) {
            Some(y) => {
                vstd::seq_lib::to_multiset_build(present_fields(init, first), y);
                vstd::seq_lib::to_multiset_build(present_fields(init.remove(i), first), y);
            },
            None => {},
        }
        match present_field(s[i], first) {
            Some(x) => {
                let m = present_fields(init.remove(i), first).to_multiset();
                match present_field(last, first) {
                    Some(y) => {
                        assert(m.insert(x).insert(y) =~= m.insert(y).insert(x));
                    },
                    None => {},
                }
            },
            None => {},
        }
    }
}

proof fn lemma_present_fields_order_free(s1: Seq<(Option<String>, Option<String>)>, s2: Seq<(Option<String>, Option<String>)>, first: bool)
    requires
        s1.to_multiset() == s2.to_multiset(),
    ensures
        present_fields(s1, first).to_multiset() == present_fields(s2, first).to_multiset(),
    decreases s1.len(),
{
    broadcast use vstd::multiset::group_multiset_axioms;

    lemma_same_multiset_contains(s1, s2);
    if s1.len() == 0 {
        assert(s2.len() == 0);
        assert(s1 =~= s2);
    } else {
        let x = s1.last();
        let init = s1.drop_last();
        assert(s1 =~= init.push(x));
        vstd::seq_lib::to_multiset_build(init, x);
        assert(s2.contains(s1[s1.len() - 1]));
        let j = choose|j: int| 0 <= j < s2.len() && s2[j] == x;
        vstd::seq_lib::to_multiset_remove(s2, j);
        assert(s2.remove(j).to_multiset() =~= init.to_multiset());
        lemma_present_fields_order_free(init, s2.remove(j), first);
        lemma_present_fields_push(init, x, first);
        lemma_present_fields_remove(s2, j, first);
        match present_field(x, first) {
            Some(y) => vstd::seq_lib::to_multiset_build(present_fields(init, first), y),
            None => {},
        }
    }
}

/// The package estimate does not depend on the order of the rows.
pub proof fn lemma_package_meta_order_free(rows1: Seq<(Option<String>, Option<String>)>, rows2: Seq<(Option<String>, Option<String>)>)
    requires
        rows1.to_multiset() == rows2.to_multiset(),
    ensures
        package_meta(rows1) == package_meta(rows2),
{
    lemma_present_fields_order_free(rows1, rows2, true);
    lemma_present_fields_order_free(rows1, rows2, false);
    lemma_prefix_with_one_skip_order_free(present_fields(rows1, true), present_fields(rows2, true));
    lemma_prefix_with_one_skip_order_free(present_fields(rows1, false), present_fields(rows2, false));
}

// ---------------------------------------------------------------------
// ASCII titles

proof fn lemma_ascii_lower_char(c: char)
    ensures
        (c as u32) < 128 ==> (ascii_lower(c) as u32) < 128,
        !('A' <= ascii_lower(c) <= 'Z'),
{
    if 'A' <= c <= 'Z' {
        assert(((c as u8) + 32) as char as u32 == c as u32 + 32);
    }
}

proof fn lemma_ascii_lowercase_ascii(s: Seq<char>)
    requires
        is_ascii_text(s),
    ensures
        is_ascii_text(ascii_lowercase(s)),
{
    assert forall|i: int| 0 <= i < ascii_lowercase(s).len() implies (#[trigger] ascii_lowercase(s)[i] as u32) < 128 by {
        lemma_ascii_lower_char(s[i]);
    }
}

proof fn lemma_ascii_take_skip(s: Seq<char>, k: int)
    requires
        is_ascii_text(s),
        0 <= k <= s.len(),
    ensures
        is_ascii_text(s.take(k)),
        is_ascii_text(s.skip(k)),
{
    assert forall|i: int| 0 <= i < s.take(k).len() implies (#[trigger] s.take(k)[i] as u32) < 128 by {
        assert(s.take(k)[i] == s[i]);
    }
    assert forall|i: int| 0 <= i < s.skip(k).len() implies (#[trigger] s.skip(k)[i] as u32) < 128 by {
        assert(s.skip(k)[i] == s[i + k]);
    }
}

proof fn lemma_ascii_trim(s: Seq<char>)
    requires
        is_ascii_text(s),
    ensures
        is_ascii_text(trim_ws(s)),
        is_ascii_text(trim_end_ws(s)),
{
    let a = trim_start_by(s, CharSet::WhiteSpace);
    lemma_trim_start_props(s, CharSet::WhiteSpace);
    lemma_ascii_take_skip(s, s.len() - a.len());
    lemma_trim_end_props(a, CharSet::WhiteSpace);
    lemma_ascii_take_skip(a, trim_end_by(a, CharSet::WhiteSpace).len() as int);
    lemma_trim_end_props(s, CharSet::WhiteSpace);
    lemma_ascii_take_skip(s, trim_end_by(s, CharSet::WhiteSpace).len() as int);
}

proof fn lemma_ascii_strip_delim(s: Seq<char>, d: char)
    requires
        is_ascii_text(s),
    ensures
        is_ascii_text(strip_delim_block(s, d)),
{
    let t = trim_ws(s);
    lemma_ascii_trim(s);
    if ends_with_char(t, d) {
        lemma_ascii_take_skip(t, t.len() - 1);
        assert(t.drop_last() =~= t.take(t.len() - 1));
        let trimmed = trim_end_ws(t.drop_last());
        lemma_ascii_trim(t.drop_last());
        match rfind_char(trimmed, d) {
            Some(i) => {
                lemma_rfind_char_props(trimmed, d);
                lemma_ascii_take_skip(trimmed, i);
                lemma_ascii_trim(trimmed.take(i));
            },
            None => {},
        }
    }
}

proof fn lemma_ascii_strip_pairs(s: Seq<char>, open: char, close: char)
    requires
        is_ascii_text(s),
    ensures
        is_ascii_text(strip_pairs(s, open, close)),
    decreases s.len(),
{
    let trimmed = trim_end_ws(s);
    lemma_ascii_trim(s);
    if ends_with_char(trimmed, close) {
        match rfind_char(trimmed, open) {
            Some(i) => {
                lemma_trim_end_props(s, CharSet::WhiteSpace);
                lemma_rfind_char_props(trimmed, open);
                lemma_ascii_take_skip(trimmed, i);
                lemma_ascii_trim(trimmed.take(i));
                lemma_trim_end_props(trimmed.take(i), CharSet::WhiteSpace);
                lemma_ascii_strip_pairs(trim_end_ws(trimmed.take(i)), open, close);
            },
            None => {},
        }
    }
}

proof fn lemma_ascii_title_stripped(s: Seq<char>)
    requires
        is_ascii_text(s),
    ensures
        is_ascii_text(title_stripped(s)),
{
    lemma_ascii_trim(s);
    let t = trim_ws(s);
    lemma_find_from_props(t, seq![' ', ' '], 0);
    match find_seq(t, seq![' ', ' ']) {
        Some(j) => lemma_ascii_take_skip(t, j),
        None => {},
    }
    let t0 = before_double_space(t);
    lemma_ascii_strip_delim(t0, '-');
    let t1 = strip_delim_block(t0, '-');
    lemma_ascii_strip_delim(t1, '～');
    let t2 = strip_delim_block(t1, '～');
    lemma_ascii_strip_delim(t2, '"');
    let t3 = strip_delim_block(t2, '"');
    lemma_ascii_strip_pairs(t3, '(', ')');
    let t4 = strip_pairs(t3, '(', ')');
    lemma_ascii_strip_pairs(t4, '（', '）');
    let t5 = strip_pairs(t4, '（', '）');
    lemma_ascii_strip_pairs(t5, '[', ']');
    let t6 = strip_pairs(t5, '[', ']');
    lemma_ascii_strip_pairs(t6, '<', '>');
}

/// A lowercase ASCII letter or a digit.
pub open spec fn is_lower_alnum(c: char) -> bool {
    ('a' <= c <= 'z') || ('0' <= c <= '9')
}

pub open spec fn all_lower_alnum(s: Seq<char>) -> bool {
    forall|i: int| 0 <= i < s.len() ==> is_lower_alnum(#[trigger] s[i])
}

proof fn lemma_keep_ascii_alnum_lower(y: Seq<char>)
    ensures
        all_lower_alnum(keep_ascii_alnum(ascii_lowercase(y))),
    decreases y.len(),
{
    if y.len() > 0 {
        lemma_keep_ascii_alnum_lower(y.drop_last());
        assert(ascii_lowercase(y).drop_last() =~= ascii_lowercase(y.drop_last()));
        lemma_ascii_lower_char(y.last());
        let l = ascii_lowercase(y);
        assert(l.last() == ascii_lower(y.last()));
        let rest = keep_ascii_alnum(ascii_lowercase(y.drop_last()));
        assert forall|i: int| 0 <= i < keep_ascii_alnum(l).len() implies is_lower_alnum(#[trigger] keep_ascii_alnum(l)[i]) by {
            if i < rest.len() {
                assert(keep_ascii_alnum(l)[i] == rest[i]);
            }
        }
    }
}

proof fn lemma_lower_alnum_fixed(x: Seq<char>)
    requires
        all_lower_alnum(x),
    ensures
        ascii_lowercase(x) == x,
        keep_ascii_alnum(x) == x,
        title_stripped(x) == x,
        is_ascii_text(x),
    decreases x.len(),
{
    assert(ascii_lowercase(x) =~= x);
    if x.len() > 0 {
        assert(all_lower_alnum(x.drop_last())) by {
            assert forall|i: int| 0 <= i < x.drop_last().len() implies is_lower_alnum(#[trigger] x.drop_last()[i]) by {
                assert(x.drop_last()[i] == x[i]);
            }
        }
        lemma_lower_alnum_fixed(x.drop_last());
        assert(is_lower_alnum(x.last()));
        assert(x.drop_last().push(x.last()) =~= x);
        assert(!is_white_space(x[0]) && !is_white_space(x.last()));
        assert(trim_start_by(x, CharSet::WhiteSpace) == x);
        assert(trim_end_by(x, CharSet::WhiteSpace) == x);
    } else {
        assert(trim_start_by(x, CharSet::WhiteSpace) == x);
        assert(trim_end_by(x, CharSet::WhiteSpace) == x);
    }
    assert(trim_ws(x) == x);
    lemma_find_from_props(x, seq![' ', ' '], 0);
    if find_seq(x, seq![' ', ' ']) is Some {
        let j = find_seq(x, seq![' ', ' '])->0;
        assert(x.subrange(j, j + 2)[0] == ' ');
        assert(x[j] == ' ');
    }
    assert(before_double_space(x) == x);
    assert(trim_end_ws(x) == x);
    assert(strip_delim_block(x, '-') == x);
    assert(strip_delim_block(x, '～') == x);
    assert(strip_delim_block(x, '"') == x);
    assert(strip_pairs(x, '(', ')') == x);
    assert(strip_pairs(x, '（', '）') == x);
    assert(strip_pairs(x, '[', ']') == x);
    assert(strip_pairs(x, '<', '>') == x);
}

/// Normalising an ASCII title twice changes nothing: the ASCII normalisation is
/// ASCII lowercase letters and digits only, and it maps such a text to itself.
pub proof fn lemma_title_ascii_idempotent(s: Seq<char>)
    ensures
        all_lower_alnum(title_ascii(s)),
        is_ascii_text(title_ascii(s)),
        title_ascii(title_ascii(s)) == title_ascii(s),
{
    lemma_keep_ascii_alnum_lower(title_stripped(s));
    let x = title_ascii(s);
    lemma_lower_alnum_fixed(x);
}

// ---------------------------------------------------------------------
// ASCII artists

/// `s` cut before the first occurrence of `needle` in its ASCII-lowercased text,
/// then trimmed: the cut of `normalize_artist` on ASCII text.
pub open spec fn cut_ascii(s: Seq<char>, needle: Seq<char>) -> Seq<char> {
    match find_seq(ascii_lowercase(s), needle) {
        None => s,
        Some(j) => trim_ws(s.take(j)),
    }
}

/// `normalize_artist` of an ASCII artist.
pub open spec fn artist_ascii(s: Seq<char>) -> Seq<char> {
    let t1 = cut_ascii(trim_ws(s), "obj"@);
    let t2 = cut_ascii(t1, "note:"@);
    let t3 = cut_ascii(t2, "差分"@);
    keep_ascii_alnum(ascii_lowercase(first_segment(t3)))
}

/// No occurrence of `n` in `h`.
pub open spec fn lacks(h: Seq<char>, n: Seq<char>) -> bool {
    find_seq(h, n) is None
}

proof fn lemma_lacks_sub(h: Seq<char>, n: Seq<char>, a: int, b: int)
    requires
        lacks(h, n),
        0 <= a <= b <= h.len(),
    ensures
        lacks(h.subrange(a, b), n),
{
    let g = h.subrange(a, b);
    lemma_find_from_props(h, n, 0);
    lemma_find_from_props(g, n, 0);
    if find_seq(g, n) is Some {
        let j = find_seq(g, n)->0;
        assert(h.subrange(a + j, a + j + n.len()) =~= g.subrange(j, j + n.len()));
    }
}

proof fn lemma_ascii_lowercase_concat(a: Seq<char>, b: Seq<char>)
    ensures
        ascii_lowercase(a + b) == ascii_lowercase(a) + ascii_lowercase(b),
{
    assert(ascii_lowercase(a + b) =~= ascii_lowercase(a) + ascii_lowercase(b));
}

proof fn lemma_ascii_lowercase_subrange(a: Seq<char>, i: int, j: int)
    requires
        0 <= i <= j <= a.len(),
    ensures
        ascii_lowercase(a.subrange(i, j)) == ascii_lowercase(a).subrange(i, j),
{
    assert(ascii_lowercase(a.subrange(i, j)) =~= ascii_lowercase(a).subrange(i, j));
}

proof fn lemma_trim_start_concat(a: Seq<char>, b: Seq<char>, set: CharSet)
    requires
        exists|i: int| 0 <= i < a.len() && !in_set(set, #[trigger] a[i]),
    ensures
        trim_start_by(a + b, set) == trim_start_by(a, set) + b,
    decreases a.len(),
{
    if in_set(set, a[0]) {
        let i = choose|i: int| 0 <= i < a.len() && !in_set(set, #[trigger] a[i]);
        assert(a.drop_first()[i - 1] == a[i]);
        lemma_trim_start_concat(a.drop_first(), b, set);
        assert((a + b).drop_first() =~= a.drop_first() + b);
    }
}

proof fn lemma_trim_end_concat(a: Seq<char>, b: Seq<char>, set: CharSet)
    requires
        a.len() > 0,
        !in_set(set, a.last()),
    ensures
        trim_end_by(a + b, set) == a + trim_end_by(b, set),
    decreases b.len(),
{
    if b.len() == 0 {
        assert(a + b =~= a);
        assert(a + Seq::<char>::empty() =~= a);
    } else if in_set(set, b.last()) {
        assert((a + b).drop_last() =~= a + b.drop_last());
        lemma_trim_end_concat(a, b.drop_last(), set);
    } else {
        assert((a + b).last() == b.last());
    }
}

proof fn lemma_trim_start_idem(s: Seq<char>)
    ensures
        trim_start_by(trim_start_by(s, CharSet::WhiteSpace), CharSet::WhiteSpace) == trim_start_by(s, CharSet::WhiteSpace),
{
    lemma_trim_start_props(s, CharSet::WhiteSpace);
}

/// A text of the form `s1 + "/" + w`, where `s1` holds no `/`.
pub open spec fn headed_by(y: Seq<char>, s1: Seq<char>) -> bool {
    y.len() > s1.len() && y.take(s1.len() as int) == s1 && y[s1.len() as int] == '/'
}

proof fn lemma_trim_headed(s1: Seq<char>, w: Seq<char>)
    requires
        trim_start_by(s1, CharSet::WhiteSpace) == s1,
        exists|i: int| 0 <= i < s1.len() && !is_white_space(#[trigger] s1[i]),
    ensures
        headed_by(trim_ws(s1 + seq!['/'] + w), s1),
{
    let a = s1 + seq!['/'];
    assert(s1 + seq!['/'] + w == s1 + (seq!['/'] + w));
    lemma_trim_start_concat(s1, seq!['/'] + w, CharSet::WhiteSpace);
    assert(trim_start_by(s1 + (seq!['/'] + w), CharSet::WhiteSpace) =~= a + w);
    assert(a.last() == '/');
    lemma_trim_end_concat(a, w, CharSet::WhiteSpace);
    let y = a + trim_end_by(w, CharSet::WhiteSpace);
    assert(y.take(s1.len() as int) =~= s1);
}

proof fn lemma_cut_headed(y: Seq<char>, s1: Seq<char>, n: Seq<char>)
    requires
        headed_by(y, s1),
        trim_start_by(s1, CharSet::WhiteSpace) == s1,
        exists|i: int| 0 <= i < s1.len() && !is_white_space(#[trigger] s1[i]),
        lacks(ascii_lowercase(s1), n),
        n.len() > 0,
        forall|i: int| 0 <= i < n.len() ==> #[trigger] n[i] != '/',
    ensures
        headed_by(cut_ascii(y, n), s1),
{
    let l = ascii_lowercase(y);
    lemma_find_from_props(l, n, 0);
    match find_seq(l, n) {
        None => {},
        Some(j) => {
            let k = s1.len() as int;
            lemma_ascii_lowercase_subrange(y, 0, k);
            assert(y.subrange(0, k) =~= y.take(k));
            if j + n.len() <= k {
                lemma_find_from_props(ascii_lowercase(s1), n, 0);
                assert(ascii_lowercase(s1).subrange(j, j + n.len()) =~= l.subrange(j, j + n.len()));
            } else if j <= k {
                assert(l[k] == ascii_lower(y[k]));
                assert(l.subrange(j, j + n.len())[k - j] == l[k]);
                assert(n[k - j] == '/');
            }
            assert(j > k);
            let w = y.take(j).skip(k + 1);
            assert(y.take(j) =~= s1 + seq!['/'] + w);
            lemma_trim_headed(s1, w);
        },
    }
}

proof fn lemma_first_segment_headed(y: Seq<char>, s1: Seq<char>)
    requires
        headed_by(y, s1),
        forall|i: int| 0 <= i < s1.len() ==> #[trigger] s1[i] != '/',
        trim_ws(s1).len() > 0,
    ensures
        first_segment(y) == trim_ws(s1),
{
    lemma_find_char_props(y, '/');
    let k = s1.len() as int;
    assert forall|i: int| 0 <= i < k implies #[trigger] y[i] != '/' by {
        assert(y.take(k)[i] == y[i]);
    }
    assert(find_char(y, '/') == Some(k));
}

proof fn lemma_no_slash_first_segment(u: Seq<char>)
    requires
        forall|i: int| 0 <= i < u.len() ==> #[trigger] u[i] != '/',
    ensures
        first_segment(u) == trim_ws(u),
{
    lemma_find_char_props(u, '/');
}

proof fn lemma_ascii_cut(y: Seq<char>, n: Seq<char>)
    requires
        is_ascii_text(y),
    ensures
        is_ascii_text(cut_ascii(y, n)),
{
    lemma_find_from_props(ascii_lowercase(y), n, 0);
    match find_seq(ascii_lowercase(y), n) {
        Some(j) => {
            lemma_ascii_take_skip(y, j);
            lemma_ascii_trim(y.take(j));
        },
        None => {},
    }
}

proof fn lemma_lacks_cjk(h: Seq<char>)
    requires
        is_ascii_text(h),
    ensures
        lacks(h, "差分"@),
{
    reveal_strlit("差分");
    lemma_find_from_props(h, "差分"@, 0);
    if find_seq(h, "差分"@) is Some {
        let j = find_seq(h, "差分"@)->0;
        assert(h.subrange(j, j + 2)[0] == h[j]);
        assert((h[j] as u32) < 128);
    }
}

/// A needle that lowercases to itself: ASCII characters other than capitals, and
/// CJK Unified Ideographs.
pub open spec fn plain_needle(n: Seq<char>) -> bool {
    forall|i: int| 0 <= i < n.len() ==> (((#[trigger] n[i] as u32) < 128 && !('A' <= n[i] <= 'Z')) || (0x4E00
        <= (n[i] as u32) <= 0x9FFF))
}

proof fn lemma_utf8_len_ascii(s: Seq<char>)
    requires
        is_ascii_text(s),
    ensures
        utf8_len(s) == s.len(),
    decreases s.len(),
{
    if s.len() > 0 {
        assert(is_ascii_text(s.drop_last())) by {
            assert forall|i: int| 0 <= i < s.drop_last().len() implies (#[trigger] s.drop_last()[i] as u32) < 128 by {
                assert(s.drop_last()[i] == s[i]);
            }
        }
        lemma_utf8_len_ascii(s.drop_last());
        assert((s.last() as u32) < 128);
    }
}

proof fn lemma_ascii_first_segment(s: Seq<char>)
    requires
        is_ascii_text(s),
    ensures
        is_ascii_text(first_segment(s)),
    decreases s.len(),
{
    lemma_find_char_props(s, '/');
    match find_char(s, '/') {
        None => lemma_ascii_trim(s),
        Some(j) => {
            lemma_ascii_take_skip(s, j);
            lemma_ascii_trim(s.take(j));
            if trim_ws(s.take(j)).len() == 0 {
                lemma_ascii_take_skip(s, j + 1);
                lemma_ascii_first_segment(s.skip(j + 1));
            }
        },
    }
}

/// Only the first credited artist counts: for ASCII texts, an artist `s` with no
/// `/` and something besides white space, in which no `obj` or `note:` occurs
/// case-insensitively, normalises alike alone and followed by `/` and any further
/// credits; and that is the ASCII-lowercased letters and digits of `s` trimmed.
pub proof fn lemma_first_credit_counts(s: Seq<char>, t: Seq<char>)
    requires
        is_ascii_text(s + seq!['/'] + t),
        forall|i: int| 0 <= i < s.len() ==> #[trigger] s[i] != '/',
        trim_ws(s).len() > 0,
        lacks(ascii_lowercase(s), "obj"@),
        lacks(ascii_lowercase(s), "note:"@),
    ensures
        artist_ascii(s + seq!['/'] + t) == artist_ascii(s),
        artist_ascii(s) == keep_ascii_alnum(ascii_lowercase(trim_ws(s))),
{
    reveal_strlit("obj");
    reveal_strlit("note:");
    let x = s + seq!['/'] + t;
    assert(is_ascii_text(s)) by {
        assert forall|i: int| 0 <= i < s.len() implies (#[trigger] s[i] as u32) < 128 by {
            assert(x[i] == s[i]);
        }
    }
    // The single credit.
    let a = trim_start_by(s, CharSet::WhiteSpace);
    lemma_trim_start_props(s, CharSet::WhiteSpace);
    lemma_trim_end_props(a, CharSet::WhiteSpace);
    let u = trim_ws(s);
    assert(u == a.take(u.len() as int));
    let m = s.len() - a.len();
    assert(u =~= s.subrange(m, m + u.len()));
    lemma_ascii_lowercase_subrange(s, m, m + u.len());
    lemma_lacks_sub(ascii_lowercase(s), "obj"@, m, m + u.len());
    lemma_lacks_sub(ascii_lowercase(s), "note:"@, m, m + u.len());
    lemma_ascii_trim(s);
    lemma_ascii_lowercase_ascii(u);
    lemma_lacks_cjk(ascii_lowercase(u));
    assert(cut_ascii(u, "obj"@) == u);
    assert(cut_ascii(u, "note:"@) == u);
    assert(cut_ascii(u, "差分"@) == u);
    assert forall|i: int| 0 <= i < u.len() implies #[trigger] u[i] != '/' by {
        assert(u[i] == s[m + i]);
    }
    lemma_no_slash_first_segment(u);
    lemma_trim_ws_idempotent(s);
    // With further credits.
    let s1 = a;
    lemma_trim_start_idem(s);
    assert(exists|i: int| 0 <= i < s1.len() && !is_white_space(#[trigger] s1[i])) by {
        assert(u.len() > 0);
        lemma_trim_start_props(s, CharSet::WhiteSpace);
        assert(!in_set(CharSet::WhiteSpace, s1[0]));
    }
    assert(s1 =~= s.subrange(m, s.len() as int));
    lemma_ascii_lowercase_subrange(s, m, s.len() as int);
    lemma_lacks_sub(ascii_lowercase(s), "obj"@, m, s.len() as int);
    lemma_lacks_sub(ascii_lowercase(s), "note:"@, m, s.len() as int);
    assert forall|i: int| 0 <= i < s1.len() implies #[trigger] s1[i] != '/' by {
        assert(s1[i] == s[m + i]);
    }
    assert(x =~= s + seq!['/'] + t);
    assert(s + seq!['/'] + t == s + (seq!['/'] + t));
    lemma_trim_start_concat(s, seq!['/'] + t, CharSet::WhiteSpace);
    assert(trim_start_by(x, CharSet::WhiteSpace) =~= s1 + seq!['/'] + t);
    lemma_trim_headed(s1, t);
    let y0 = trim_ws(x);
    assert(y0 == trim_ws(s1 + seq!['/'] + t));
    lemma_cut_headed(y0, s1, "obj"@);
    let y1 = cut_ascii(y0, "obj"@);
    lemma_cut_headed(y1, s1, "note:"@);
    let y2 = cut_ascii(y1, "note:"@);
    lemma_ascii_trim(x);
    lemma_ascii_cut(y0, "obj"@);
    lemma_ascii_cut(y1, "note:"@);
    lemma_ascii_lowercase_ascii(y2);
    lemma_lacks_cjk(ascii_lowercase(y2));
    assert(cut_ascii(y2, "差分"@) == y2);
    lemma_first_segment_headed(y2, s1);
    assert(trim_ws(s1) == u);
}

proof fn lemma_lcp_empty(b: Seq<char>)
    ensures
        lcp(seq![], b) == Seq::<char>::empty(),
{
}

proof fn lemma_common_prefix_stays_empty(v: Seq<Seq<char>>, i: int, j: int)
    requires
        1 <= i <= j <= v.len(),
        common_prefix_of(v.take(i)).len() == 0,
    ensures
        common_prefix_of(v.take(j)).len() == 0,
    decreases j - i,
{
    if j > i {
        lemma_common_prefix_stays_empty(v, i, j - 1);
        assert(v.take(j).drop_last() =~= v.take(j - 1));
        lemma_lcp_props(common_prefix_of(v.take(j - 1)), v.take(j).last());
    }
}

// ---------------------------------------------------------------------
// Bracketed parts

/// Trailing white space removed once is removed for good.
proof fn lemma_trim_end_ws_idempotent(s: Seq<char>)
    ensures
        trim_end_ws(trim_end_ws(s)) == trim_end_ws(s),
{
    lemma_trim_end_props(s, CharSet::WhiteSpace);
}

/// Stripping trailing bracketed parts leaves none behind: a result that still ends
/// with the closing bracket holds no opening bracket at all.
pub proof fn lemma_strip_pairs_closed(s: Seq<char>, open: char, close: char)
    ensures
        ends_with_char(strip_pairs(s, open, close), close) ==> rfind_char(strip_pairs(s, open, close), open) is None,
    decreases s.len(),
{
    let trimmed = trim_end_ws(s);
    if ends_with_char(trimmed, close) {
        if let Some(i) = rfind_char(trimmed, open) {
            lemma_trim_end_props(s, CharSet::WhiteSpace);
            lemma_rfind_char_props(trimmed, open);
            lemma_trim_end_props(trimmed.take(i), CharSet::WhiteSpace);
            lemma_strip_pairs_closed(trim_end_ws(trimmed.take(i)), open, close);
        }
    }
}

/// Only the trailing white space of a title matters to the stripping of its
/// bracketed parts.
proof fn lemma_strip_pairs_trim_end(s: Seq<char>, open: char, close: char)
    ensures
        strip_pairs(trim_end_ws(s), open, close) == strip_pairs(s, open, close),
{
    lemma_trim_end_ws_idempotent(s);
}

/// A bracketed part appended to a title is stripped, and what stays is stripped as
/// the title alone would be: `"Song (Remix) (7KEYS)"` strips as `"Song (Remix)"`
/// and as `"Song"`.
pub proof fn lemma_strip_pairs_appended(s: Seq<char>, inner: Seq<char>, open: char, close: char)
    requires
        open != close,
        !is_white_space(close),
        forall|k: int| 0 <= k < inner.len() ==> inner[k] != open,
    ensures
        strip_pairs(s + seq![open] + inner + seq![close], open, close) == strip_pairs(s, open, close),
{
    let u = s + seq![open] + inner + seq![close];
    assert(trim_end_ws(u) == u);
    lemma_rfind_char_props(u, open);
    assert(u[s.len() as int] == open);
    let i = rfind_char(u, open)->0;
    assert(i == s.len()) by {
        if i < s.len() {
            assert(u[s.len() as int] != open);
        }
        if i > s.len() {
            if i < u.len() - 1 {
                assert(u[i] == inner[i - s.len() - 1]);
            }
        }
    }
    assert(u.take(i) =~= s);
    lemma_trim_end_props(s, CharSet::WhiteSpace);
    lemma_strip_pairs_trim_end(s, open, close);
}

/// A text that does not end with `close` keeps all its bracketed parts.
pub proof fn lemma_strip_pairs_none(x: Seq<char>, open: char, close: char)
    requires
        x.len() > 0,
        !is_white_space(x.last()),
        x.last() != close,
    ensures
        strip_pairs(x, open, close) == x,
{
    assert(trim_end_by(x, CharSet::WhiteSpace) == x);
}

/// A text with no white space at its ends that does not end with `d` keeps all of it
/// through the stripping of a `d`-delimited block.
pub proof fn lemma_strip_delim_none(x: Seq<char>, d: char)
    requires
        x.len() > 0,
        !is_white_space(x[0]),
        !is_white_space(x.last()),
        x.last() != d,
    ensures
        strip_delim_block(x, d) == x,
{
    assert(trim_start_by(x, CharSet::WhiteSpace) == x);
    assert(trim_end_by(x, CharSet::WhiteSpace) == x);
}

/// A bracketed part appended to a plain title changes nothing of its normalised
/// form: `"Song (Remix) (7KEYS)"` normalises as `"Song (Remix)"`, and that as
/// `"Song"`; `"Song [SP]"` as `"Song"`. Plain means: no white space at either end,
/// no double space, no trailing `-`, `～` or `"` that would start a delimited
/// block, and no trailing closing bracket of a kind that is stripped before the
/// appended one (`(..)`, then `（..）`, then `[..]`, then `<..>`).
pub proof fn lemma_title_ignores_appended_part(t: Seq<char>, inner: Seq<char>, open: char, close: char)
    requires
        (open == '(' && close == ')') || (open == '（' && close == '）') || (open == '[' && close == ']')
            || (open == '<' && close == '>'),
        t.len() > 0,
        !is_white_space(t[0]),
        !is_white_space(t.last()),
        t.last() != '-' && t.last() != '～' && t.last() != '"',
        open == '（' ==> t.last() != ')',
        open == '[' ==> t.last() != ')' && t.last() != '）',
        open == '<' ==> t.last() != ')' && t.last() != '）' && t.last() != ']',
        find_seq(t, seq![' ', ' ']) is None,
        find_seq(t + seq![' ', open] + inner + seq![close], seq![' ', ' ']) is None,
        forall|k: int| 0 <= k < inner.len() ==> inner[k] != open,
    ensures
        title_norm(t + seq![' ', open] + inner + seq![close]) == title_norm(t),
{
    let s = t + seq![' ', open] + inner + seq![close];
    let tsp = t + seq![' '];
    assert(s[0] == t[0]);
    assert(s.last() == close);
    assert(!is_white_space(close));
    assert(trim_start_by(s, CharSet::WhiteSpace) == s);
    assert(trim_end_by(s, CharSet::WhiteSpace) == s);
    assert(trim_start_by(t, CharSet::WhiteSpace) == t);
    assert(trim_end_by(t, CharSet::WhiteSpace) == t);
    assert(before_double_space(trim_ws(s)) == s);
    assert(before_double_space(trim_ws(t)) == t);
    lemma_strip_delim_none(s, '-');
    lemma_strip_delim_none(s, '～');
    lemma_strip_delim_none(s, '"');
    lemma_strip_delim_none(t, '-');
    lemma_strip_delim_none(t, '～');
    lemma_strip_delim_none(t, '"');
    assert(s =~= tsp + seq![open] + inner + seq![close]);
    lemma_strip_pairs_appended(tsp, inner, open, close);
    assert(tsp.drop_last() =~= t);
    assert(trim_end_ws(tsp) == t);
    lemma_strip_pairs_trim_end(tsp, open, close);
    // The stages before the appended kind leave both texts as they are.
    if open != '(' {
        lemma_strip_pairs_none(s, '(', ')');
        lemma_strip_pairs_none(t, '(', ')');
        if open != '（' {
            lemma_strip_pairs_none(s, '（', '）');
            lemma_strip_pairs_none(t, '（', '）');
            if open != '[' {
                lemma_strip_pairs_none(s, '[', ']');
                lemma_strip_pairs_none(t, '[', ']');
            }
        }
    }
}

/// A delimited block appended to a plain title changes nothing of its normalised
/// form: `"Song -Another-"` and `"Song ～Remix～"` normalise as `"Song"`. Plain
/// means as for bracketed parts, with no trailing bracket at all.
pub proof fn lemma_title_ignores_appended_block(t: Seq<char>, inner: Seq<char>, d: char)
    requires
        d == '-' || d == '～' || d == '"',
        t.len() > 0,
        !is_white_space(t[0]),
        !is_white_space(t.last()),
        t.last() != '-' && t.last() != '～' && t.last() != '"',
        find_seq(t, seq![' ', ' ']) is None,
        find_seq(t + seq![' ', d] + inner + seq![d], seq![' ', ' ']) is None,
        forall|k: int| 0 <= k < inner.len() ==> inner[k] != d,
    ensures
        title_norm(t + seq![' ', d] + inner + seq![d]) == title_norm(t),
{
    let s = t + seq![' ', d] + inner + seq![d];
    let n: int = t.len() as int;
    let body = s.drop_last();
    assert(s[0] == t[0]);
    assert(s.last() == d);
    assert(!is_white_space(d));
    assert(trim_start_by(s, CharSet::WhiteSpace) == s);
    assert(trim_end_by(s, CharSet::WhiteSpace) == s);
    assert(trim_start_by(t, CharSet::WhiteSpace) == t);
    assert(trim_end_by(t, CharSet::WhiteSpace) == t);
    assert(before_double_space(trim_ws(s)) == s);
    assert(before_double_space(trim_ws(t)) == t);
    assert(body =~= t + seq![' ', d] + inner);
    assert(body.last() == d || inner.len() > 0);
    // The block's body ends without white space, or is the opening `d` itself.
    let trimmed = trim_end_ws(body);
    lemma_trim_end_props(body, CharSet::WhiteSpace);
    assert(trimmed.len() >= n + 2) by {
        if trimmed.len() < n + 2 {
            assert(body[n + 1] == d);
            assert(!is_white_space(body[n + 1]));
            lemma_trim_end_keeps(body, CharSet::WhiteSpace, n + 1);
        }
    }
    assert(trimmed[n + 1] == d);
    lemma_rfind_char_props(trimmed, d);
    let i = rfind_char(trimmed, d)->0;
    assert(i == n + 1) by {
        if i < n + 1 {
            assert(trimmed[n + 1] != d);
        }
        if i > n + 1 {
            assert(trimmed[i] == inner[i - n - 2]);
        }
    }
    assert(trimmed.take(i) =~= t + seq![' ']);
    assert((t + seq![' ']).drop_last() =~= t);
    assert(trim_end_ws(t + seq![' ']) == t);
    assert(strip_delim_block(s, d) == t);
    if d == '-' {
        lemma_strip_delim_none(t, '～');
        lemma_strip_delim_none(t, '"');
    } else {
        lemma_strip_delim_none(s, '-');
        lemma_strip_delim_none(t, '-');
        if d == '～' {
            lemma_strip_delim_none(t, '"');
        } else {
            lemma_strip_delim_none(s, '～');
            lemma_strip_delim_none(t, '～');
        }
    }
    lemma_strip_delim_none(t, '-');
    lemma_strip_delim_none(t, '～');
    lemma_strip_delim_none(t, '"');
}

/// Whatever follows a double space is no part of a title: a plain title (no white
/// space at either end, no double space) normalises as it does with a double space
/// and any text after it.
pub proof fn lemma_title_cut_at_double_space(t: Seq<char>, rest: Seq<char>)
    requires
        t.len() > 0,
        !is_white_space(t[0]),
        !is_white_space(t.last()),
        find_seq(t, seq![' ', ' ']) is None,
    ensures
        title_norm(t + seq![' ', ' '] + rest) == title_norm(t),
{
    let s = t + seq![' ', ' '] + rest;
    let n: int = t.len() as int;
    let dd = seq![' ', ' '];
    assert(s[0] == t[0]);
    assert(trim_start_by(s, CharSet::WhiteSpace) == s);
    assert(trim_start_by(t, CharSet::WhiteSpace) == t);
    assert(trim_end_by(t, CharSet::WhiteSpace) == t);
    let tr = trim_end_by(s, CharSet::WhiteSpace);
    lemma_trim_end_props(s, CharSet::WhiteSpace);
    assert(s[n - 1] == t.last());
    lemma_trim_end_keeps(s, CharSet::WhiteSpace, n - 1);
    lemma_find_from_props(t, dd, 0);
    if tr.len() == n {
        assert(tr =~= t);
    } else {
        assert(tr.len() != n + 1) by {
            if tr.len() == n + 1 {
                assert(tr.last() == s[n]);
                assert(is_white_space(' '));
            }
        }
        assert(tr.subrange(n, n + 2) =~= dd);
        lemma_find_from_props(tr, dd, 0);
        let j = find_seq(tr, dd)->0;
        assert(j == n) by {
            if j < n - 1 {
                assert(tr.subrange(j, j + 2) =~= t.subrange(j, j + 2));
            }
            if j == n - 1 {
                assert(tr.subrange(j, j + 2)[0] == t.last());
            }
        }
        assert(tr.take(j) =~= t);
    }
    assert(before_double_space(trim_ws(s)) == t);
    assert(before_double_space(trim_ws(t)) == t);
}

/// Dropping an unclosed part adds no occurrence of any character.
proof fn lemma_drop_unclosed_count(s: Seq<char>, open: char, close: char, c: char)
    ensures
        count_char(drop_unclosed(s, open, close), c) <= count_char(s, c),
{
    if count_char(s, open) > count_char(s, close) {
        if let Some(i) = rfind_char(s, open) {
            lemma_rfind_char_props(s, open);
            lemma_count_take_skip(s, i, c);
        }
    }
}

/// Where `open` outnumbers `close`, dropping the unclosed part removes an `open`.
proof fn lemma_drop_unclosed_drops(s: Seq<char>, open: char, close: char)
    requires
        count_char(s, open) > count_char(s, close),
    ensures
        count_char(drop_unclosed(s, open, close), open) < count_char(s, open),
{
    lemma_count_found(s, open);
    lemma_count_before_last(s, open);
}

/// One stage of `trim_incomplete` applied to a text `t` cut from `s`: where
/// `open` outnumbers `close` in `s`, the result holds fewer `open` than `s`.
proof fn lemma_drop_unclosed_stage(s: Seq<char>, t: Seq<char>, open: char, close: char)
    requires
        count_char(t, open) <= count_char(s, open),
        count_char(t, close) <= count_char(s, close),
        count_char(s, open) > count_char(s, close),
    ensures
        count_char(drop_unclosed(t, open, close), open) < count_char(s, open),
{
    lemma_drop_unclosed_count(t, open, close, open);
    if count_char(t, open) == count_char(s, open) {
        lemma_drop_unclosed_drops(t, open, close);
    }
}

/// A text without `c` holds no occurrence of it.
proof fn lemma_count_absent(s: Seq<char>, c: char)
    requires
        forall|k: int| 0 <= k < s.len() ==> s[k] != c,
    ensures
        count_char(s, c) == 0,
{
    if count_char(s, c) > 0 {
        lemma_count_found(s, c);
        lemma_rfind_char_props(s, c);
    }
}

/// The occurrences of `c` around one character.
proof fn lemma_count_around(p: Seq<char>, x: char, q: Seq<char>, c: char)
    ensures
        count_char(p + seq![x] + q, c) == count_char(p, c) + (if x == c { 1nat } else { 0nat }) + count_char(q, c),
{
    lemma_count_concat(p, seq![x], c);
    lemma_count_concat(p + seq![x], q, c);
    assert(seq![x].drop_last() =~= Seq::<char>::empty());
    assert(count_char(Seq::<char>::empty(), c) == 0);
    assert(count_char(seq![x], c) == (if x == c { 1nat } else { 0nat }));
}

/// Where the opening after `p` is the one left unclosed, the part from it on is
/// dropped.
proof fn lemma_drop_unclosed_after(p: Seq<char>, q: Seq<char>, open: char, close: char)
    requires
        open != close,
        count_char(p, open) == count_char(p, close),
        forall|k: int| 0 <= k < q.len() ==> q[k] != open && q[k] != close,
    ensures
        drop_unclosed(p + seq![open] + q, open, close) == p,
{
    let s = p + seq![open] + q;
    lemma_count_absent(q, open);
    lemma_count_absent(q, close);
    lemma_count_around(p, open, q, open);
    lemma_count_around(p, open, q, close);
    lemma_count_found(s, open);
    lemma_rfind_char_props(s, open);
    let i = rfind_char(s, open)->0;
    assert(s[p.len() as int] == open);
    assert(i == p.len()) by {
        if i < p.len() {
            assert(s[p.len() as int] != open);
        }
        if i > p.len() {
            assert(s[i] == q[i - p.len() - 1]);
        }
    }
    assert(s.take(i) =~= p);
}

/// A prefix that opens as many brackets of each kind as it closes, but for one last
/// opening of `(`, `（` or `[`, loses that opening and all that follows it: `"Song [SP "` becomes `"Song"`,
/// and `"Song [A] (B"` becomes `"Song [A]"`.
pub proof fn lemma_unclosed_tail_dropped(p: Seq<char>, q: Seq<char>, open: char)
    requires
        open == '(' || open == '（' || open == '[',
        count_char(p, '(') == count_char(p, ')'),
        count_char(p, '（') == count_char(p, '）'),
        count_char(p, '[') == count_char(p, ']'),
        forall|k: int| 0 <= k < q.len() ==> q[k] != '(' && q[k] != ')' && q[k] != '（' && q[k] != '）'
            && q[k] != '[' && q[k] != ']',
    ensures
        trim_incomplete(p + seq![open] + q) == trim_ws(p),
{
    let s = p + seq![open] + q;
    let pa = p + seq![open];
    let q1 = trim_end_by(q, CharSet::ChunkTail);
    assert(pa.last() == open);
    lemma_trim_end_concat(pa, q, CharSet::ChunkTail);
    assert(s =~= pa + q);
    let s1 = trim_end_by(s, CharSet::ChunkTail);
    assert(s1 == pa + q1);
    lemma_trim_end_props(q, CharSet::ChunkTail);
    assert(s1 =~= p + seq![open] + q1);
    assert forall|k: int| 0 <= k < q1.len() implies q1[k] != '(' && q1[k] != ')' && q1[k] != '（' && q1[k] != '）'
        && q1[k] != '[' && q1[k] != ']' by {
        assert(q1[k] == q[k]);
    }
    if open == '(' {
        lemma_drop_unclosed_after(p, q1, '(', ')');
    } else if open == '（' {
        lemma_count_absent(q1, '(');
        lemma_count_absent(q1, ')');
        lemma_count_around(p, open, q1, '(');
        lemma_count_around(p, open, q1, ')');
        assert(drop_unclosed(s1, '(', ')') == s1);
        lemma_drop_unclosed_after(p, q1, '（', '）');
    } else {
        lemma_count_absent(q1, '(');
        lemma_count_absent(q1, ')');
        lemma_count_absent(q1, '（');
        lemma_count_absent(q1, '）');
        lemma_count_around(p, open, q1, '(');
        lemma_count_around(p, open, q1, ')');
        lemma_count_around(p, open, q1, '（');
        lemma_count_around(p, open, q1, '）');
        assert(drop_unclosed(s1, '(', ')') == s1);
        assert(drop_unclosed(s1, '（', '）') == s1);
        lemma_drop_unclosed_after(p, q1, '[', ']');
    }
}

/// The shared prefix of a package keeps no unclosed bracket of its own: where a
/// text opens more `(`, `（` or `[` than it closes, trimming it gives up at least
/// one of those openings (the part from the last one on).
pub proof fn lemma_unclosed_bracket_dropped(s: Seq<char>)
    ensures
        count_char(s, '(') > count_char(s, ')') ==> count_char(trim_incomplete(s), '(') < count_char(s, '('),
        count_char(s, '（') > count_char(s, '）') ==> count_char(trim_incomplete(s), '（') < count_char(s, '（'),
        count_char(s, '[') > count_char(s, ']') ==> count_char(trim_incomplete(s), '[') < count_char(s, '['),
{
    let s1 = trim_end_by(s, CharSet::ChunkTail);
    let s2 = drop_unclosed(s1, '(', ')');
    let s3 = drop_unclosed(s2, '（', '）');
    let s4 = drop_unclosed(s3, '[', ']');
    let bs = seq!['(', ')', '（', '）', '[', ']'];
    assert forall|k: int| 0 <= k < 6 implies count_char(s1, #[trigger] bs[k]) == count_char(s, bs[k]) by {
        lemma_trim_end_count(s, CharSet::ChunkTail, bs[k]);
    }
    assert forall|k: int| 0 <= k < 6 implies count_char(s2, #[trigger] bs[k]) <= count_char(s1, bs[k])
        && count_char(s3, bs[k]) <= count_char(s2, bs[k]) && count_char(s4, bs[k]) <= count_char(s3, bs[k])
        && count_char(trim_ws(s4), bs[k]) <= count_char(s4, bs[k]) by {
        lemma_drop_unclosed_count(s1, '(', ')', bs[k]);
        lemma_drop_unclosed_count(s2, '（', '）', bs[k]);
        lemma_drop_unclosed_count(s3, '[', ']', bs[k]);
        lemma_trim_ws_count(s4, bs[k]);
    }
    assert(bs[0] == '(' && bs[1] == ')' && bs[2] == '（' && bs[3] == '）' && bs[4] == '[' && bs[5] == ']');
    if count_char(s, '(') > count_char(s, ')') {
        lemma_drop_unclosed_stage(s, s1, '(', ')');
    }
    if count_char(s, '（') > count_char(s, '）') {
        lemma_drop_unclosed_stage(s, s2, '（', '）');
    }
    if count_char(s, '[') > count_char(s, ']') {
        lemma_drop_unclosed_stage(s, s3, '[', ']');
    }
}

/// A shared prefix with every bracket closed, nothing dangling at its end and no
/// white space around it is kept whole.
pub proof fn lemma_closed_prefix_kept(s: Seq<char>)
    requires
        count_char(s, '(') <= count_char(s, ')'),
        count_char(s, '（') <= count_char(s, '）'),
        count_char(s, '[') <= count_char(s, ']'),
        s.len() > 0 ==> !is_white_space(s[0]) && !is_white_space(s.last()),
        s.len() > 0 ==> s.last() != ' ' && s.last() != '/' && s.last() != '-' && s.last() != '_',
    ensures
        trim_incomplete(s) == s,
{
    assert(trim_end_by(s, CharSet::ChunkTail) == s);
    assert(trim_start_by(s, CharSet::WhiteSpace) == s);
    assert(trim_end_by(s, CharSet::WhiteSpace) == s);
}

// ---------------------------------------------------------------------
// Implementation

fn copy_chars(v: &Vec<char>) -> (r: Vec<char>)
    ensures
        r@ == v@,
{
    let r = sub_chars(v, 0, v.len());
    assert(v@.subrange(0, v@.len() as int) =~= v@);
    r
}

fn normalize_token(s: &Vec<char>) -> (r: Vec<char>)
    ensures
        r@ == token(s@),
        is_ascii_text(s@) ==> r@ == keep_ascii_alnum(ascii_lowercase(s@)),
{
    let lower = to_unicode_lowercase(s);
    proof {
        if is_ascii_text(s@) {
            lemma_ascii_lowercase_ascii(s@);
        }
    }
    let mut out: Vec<char> = Vec::new();
    let mut i: usize = 0;
    while i < lower.len()
        invariant
            i <= lower.len(),
            out@ == keep_alphanumeric(lower@.take(i as int)),
            is_ascii_text(s@) ==> lower@ == ascii_lowercase(s@) && is_ascii_text(lower@),
            is_ascii_text(s@) ==> out@ == keep_ascii_alnum(lower@.take(i as int)),
        decreases lower.len() - i,
    {
        assert(lower@.take(i + 1).drop_last() =~= lower@.take(i as int));
        let c = lower[i];
        proof {
            if is_ascii_text(s@) {
                assert((lower@[i as int] as u32) < 128);
            }
        }
        if is_alphanumeric_char(c) {
            out.push(c);
        }
        i += 1;
    }
    assert(lower@.take(lower.len() as int) =~= lower@);
    out
}

fn cut_before_double_space(s: &Vec<char>) -> (r: Vec<char>)
    ensures
        r@ == before_double_space(s@),
{
    let mut needle: Vec<char> = Vec::new();
    needle.push(' ');
    needle.push(' ');
    assert(needle@ =~= seq![' ', ' ']);
    match find_chars(s, &needle) {
        Some(j) => {
            proof {
                lemma_find_from_props(s@, needle@, 0);
            }
            let r = sub_chars(s, 0, j);
            assert(r@ =~= s@.take(j as int));
            r
        },
        None => copy_chars(s),
    }
}

fn strip_trailing_delim_block(s: &Vec<char>, d: char) -> (r: Vec<char>)
    ensures
        r@ == strip_delim_block(s@, d),
{
    let t = trim_chars(s);
    if t.len() == 0 || t[t.len() - 1] != d {
        return t;
    }
    let without_last = sub_chars(&t, 0, t.len() - 1);
    assert(without_last@ =~= t@.drop_last());
    let trimmed = trim_end_ws_chars(&without_last);
    match rfind_char_exec(&trimmed, d) {
        Some(i) => {
            proof {
                lemma_rfind_char_props(trimmed@, d);
            }
            let head = sub_chars(&trimmed, 0, i);
            assert(head@ =~= trimmed@.take(i as int));
            trim_end_ws_chars(&head)
        },
        None => t,
    }
}

fn strip_trailing_pairs(input: Vec<char>, open: char, close: char) -> (r: Vec<char>)
    ensures
        r@ == strip_pairs(input@, open, close),
{
    let mut s = input;
    loop
        invariant
            strip_pairs(s@, open, close) == strip_pairs(input@, open, close),
        decreases s.len(),
    {
        let trimmed = trim_end_ws_chars(&s);
        if trimmed.len() == 0 || trimmed[trimmed.len() - 1] != close {
            return trimmed;
        }
        match rfind_char_exec(&trimmed, open) {
            Some(idx) => {
                proof {
                    lemma_trim_end_props(s@, CharSet::WhiteSpace);
                    lemma_rfind_char_props(trimmed@, open);
                }
                let head = sub_chars(&trimmed, 0, idx);
                assert(head@ =~= trimmed@.take(idx as int));
                let next = trim_end_ws_chars(&head);
                proof {
                    lemma_trim_end_props(head@, CharSet::WhiteSpace);
                }
                s = next;
            },
            None => {
                return trimmed;
            },
        }
    }
}

fn title_chars(s: &Vec<char>) -> (r: Vec<char>)
    ensures
        r@ == title_norm(s@),
        is_ascii_text(s@) ==> r@ == title_ascii(s@),
{
    let text = trim_chars(s);
    let text = cut_before_double_space(&text);
    let text = strip_trailing_delim_block(&text, '-');
    let text = strip_trailing_delim_block(&text, '～');
    let text = strip_trailing_delim_block(&text, '"');
    let text = strip_trailing_pairs(text, '(', ')');
    let text = strip_trailing_pairs(text, '（', '）');
    let text = strip_trailing_pairs(text, '[', ']');
    let text = strip_trailing_pairs(text, '<', '>');
    proof {
        if is_ascii_text(s@) {
            lemma_ascii_title_stripped(s@);
        }
    }
    normalize_token(&text)
}

/// Normalises a title for comparison: trimmed, cut before a double space, without
/// trailing `-…-`, `～…～`, `"…"` blocks and trailing bracketed parts, then
/// lowercased with only alphanumeric characters kept. An ASCII title gives ASCII
/// lowercase letters and digits (`title_ascii`), which normalise to themselves.
pub fn normalize_title(s: &str) -> (r: String)
    ensures
        r@ == title_norm(s@),
        forall|i: int| 0 <= i < r@.len() ==> unicode_alphanumeric(#[trigger] r@[i]),
        is_ascii_text(s@) ==> r@ == title_ascii(s@) && is_ascii_text(r@) && title_ascii(r@) == r@,
{
    let v = str_to_chars(s);
    let t = title_chars(&v);
    proof {
        lemma_keep_alphanumeric(unicode_lowercase(title_stripped(v@)));
        lemma_title_ascii_idempotent(v@);
    }
    chars_to_string(&t)
}

fn cut_at_case_insensitive(s: &Vec<char>, needle: &Vec<char>) -> (r: Option<Vec<char>>)
    ensures
        match r {
            Some(v) => cut_ci(s@, needle@) == Some(v@),
            None => cut_ci(s@, needle@) is None,
        },
        is_ascii_text(s@) && plain_needle(needle@) ==> (r matches Some(v) && v@ == cut_ascii(s@, needle@)),
{
    let lower = to_unicode_lowercase(s);
    let needle_lower = to_unicode_lowercase(needle);
    proof {
        if plain_needle(needle@) {
            assert(ascii_lowercase(needle@) =~= needle@);
            assert(needle_lower@ == needle@);
        }
    }
    match find_chars(&lower, &needle_lower) {
        None => Some(copy_chars(s)),
        Some(j) => {
            proof {
                lemma_find_from_props(lower@, needle_lower@, 0);
                if is_ascii_text(s@) && plain_needle(needle@) {
                    lemma_ascii_lowercase_ascii(s@);
                    lemma_ascii_take_skip(lower@, j as int);
                    lemma_ascii_take_skip(s@, j as int);
                    lemma_utf8_len_ascii(lower@.take(j as int));
                    lemma_utf8_len_ascii(s@.take(j as int));
                    lemma_char_pos_unique(s@, j as int, j as int);
                }
            }
            let b = utf8_len_prefix(&lower, j);
            match char_pos_of_byte_exec(s, b) {
                Some(k) => {
                    let head = sub_chars(s, 0, k);
                    assert(head@ =~= s@.take(k as int));
                    Some(trim_chars(&head))
                },
                None => None,
            }
        },
    }
}

fn first_nonblank_segment(s: &Vec<char>) -> (r: Vec<char>)
    ensures
        r@ == first_segment(s@),
{
    let mut rest = copy_chars(s);
    loop
        invariant
            first_segment(rest@) == first_segment(s@),
        decreases rest.len(),
    {
        match find_char_exec(&rest, '/') {
            None => {
                return trim_chars(&rest);
            },
            Some(j) => {
                proof {
                    lemma_find_char_props(rest@, '/');
                }
                let head = sub_chars(&rest, 0, j);
                assert(head@ =~= rest@.take(j as int));
                let seg = trim_chars(&head);
                if seg.len() > 0 {
                    return seg;
                }
                let tail = sub_chars(&rest, j + 1, rest.len());
                assert(tail@ =~= rest@.skip(j + 1));
                rest = tail;
            },
        }
    }
}

fn artist_chars(s: &Vec<char>) -> (r: Option<Vec<char>>)
    ensures
        match r {
            Some(v) => artist_norm(s@) == Some(v@),
            None => artist_norm(s@) is None,
        },
        is_ascii_text(s@) ==> (r matches Some(v) && v@ == artist_ascii(s@)),
{
    proof {
        reveal_strlit("obj");
        reveal_strlit("note:");
        reveal_strlit("差分");
        assert(plain_needle("obj"@));
        assert(plain_needle("note:"@));
        assert(plain_needle("差分"@));
        if is_ascii_text(s@) {
            lemma_ascii_trim(s@);
            lemma_ascii_cut(trim_ws(s@), "obj"@);
            lemma_ascii_cut(cut_ascii(trim_ws(s@), "obj"@), "note:"@);
            lemma_ascii_cut(cut_ascii(cut_ascii(trim_ws(s@), "obj"@), "note:"@), "差分"@);
            lemma_ascii_first_segment(cut_ascii(cut_ascii(cut_ascii(trim_ws(s@), "obj"@), "note:"@), "差分"@));
        }
    }
    let text = trim_chars(s);
    let t1 = match cut_at_case_insensitive(&text, &str_to_chars("obj")) {
        Some(t) => t,
        None => {
            return None;
        },
    };
    let t2 = match cut_at_case_insensitive(&t1, &str_to_chars("note:")) {
        Some(t) => t,
        None => {
            return None;
        },
    };
    let t3 = match cut_at_case_insensitive(&t2, &str_to_chars("差分")) {
        Some(t) => t,
        None => {
            return None;
        },
    };
    let first = first_nonblank_segment(&t3);
    Some(normalize_token(&first))
}

/// Normalises an artist for comparison: trimmed, cut before a case-insensitive
/// `obj`, `note:` or `差分`, reduced to its first non-blank `/`-separated part, then
/// lowercased with only alphanumeric characters kept. The cut applies the byte
/// position found in the lowercased text to the text before lowercasing; `requires` leaves
/// out the inputs where that position is no character boundary. An ASCII artist
/// always normalises, to `artist_ascii`.
pub fn normalize_artist(s: &str) -> (r: String)
    requires
        artist_norm(s@) is Some,
    ensures
        artist_norm(s@) == Some(r@),
        is_ascii_text(s@) ==> r@ == artist_ascii(s@),
{
    let v = str_to_chars(s);
    match artist_chars(&v) {
        Some(a) => chars_to_string(&a),
        None => {
            proof {
                assert(false);
            }
            String::new()
        },
    }
}

/// `normalize_artist` where it is defined, `None` on the inputs that it refuses.
pub fn normalize_artist_checked(s: &str) -> (r: Option<String>)
    ensures
        opt_view(r) == artist_norm(s@),
        is_ascii_text(s@) ==> (r matches Some(v) && v@ == artist_ascii(s@)),
{
    let v = str_to_chars(s);
    match artist_chars(&v) {
        Some(_) => Some(normalize_artist(s)),
        None => None,
    }
}

fn lcp_chars(a: &Vec<char>, b: &Vec<char>) -> (r: Vec<char>)
    ensures
        r@ == lcp(a@, b@),
{
    let mut k: usize = 0;
    while k < a.len() && k < b.len() && a[k] == b[k]
        invariant
            k <= a.len(),
            k <= b.len(),
            forall|i: int| 0 <= i < k ==> a@[i] == b@[i],
        decreases a.len() - k,
    {
        k += 1;
    }
    proof {
        lemma_lcp_take(a@, b@, k as int);
    }
    let r = sub_chars(a, 0, k);
    assert(r@ =~= a@.take(k as int));
    r
}

fn common_prefix(values: &Vec<Vec<char>>) -> (r: Vec<char>)
    ensures
        r@ == common_prefix_of(views(values@)),
{
    if values.len() == 0 {
        return Vec::new();
    }
    let mut prefix = copy_chars(&values[0]);
    let ghost v = views(values@);
    assert(v.take(1).drop_last() =~= Seq::<Seq<char>>::empty());
    assert(common_prefix_of(v.take(1)) == v[0]);
    let mut i: usize = 1;
    while i < values.len()
        invariant
            v == views(values@),
            1 <= i <= values.len(),
            prefix@ == common_prefix_of(v.take(i as int)),
        decreases values.len() - i,
    {
        assert(v.take(i + 1).drop_last() =~= v.take(i as int));
        assert(v.take(i + 1).last() == values@[i as int]@);
        prefix = lcp_chars(&prefix, &values[i]);
        i += 1;
        if prefix.len() == 0 {
            proof {
                lemma_common_prefix_stays_empty(v, i as int, v.len() as int);
                assert(v.take(v.len() as int) =~= v);
            }
            return prefix;
        }
    }
    assert(v.take(values.len() as int) =~= v);
    prefix
}

fn without_index(values: &Vec<Vec<char>>, skip: usize) -> (r: Vec<Vec<char>>)
    requires
        skip < values.len(),
    ensures
        views(r@) == views(values@).remove(skip as int),
{
    let mut out: Vec<Vec<char>> = Vec::new();
    let mut i: usize = 0;
    while i < values.len()
        invariant
            skip < values.len(),
            i <= values.len(),
            views(out@) == (if i <= skip {
                views(values@).take(i as int)
            } else {
                views(values@).remove(skip as int).take(i - 1)
            }),
        decreases values.len() - i,
    {
        if i != skip {
            let c = copy_chars(&values[i]);
            let ghost prev = out@;
            out.push(c);
            assert(out@ == prev.push(c));
            assert(views(out@) =~= views(prev).push(values@[i as int]@));
            if i < skip {
                assert(views(values@).take(i + 1) =~= views(values@).take(i as int).push(
                    values@[i as int]@,
                ));
            } else {
                assert(views(values@).remove(skip as int)[i - 1] == values@[i as int]@);
                assert(views(values@).remove(skip as int).take(i as int) =~= views(
                    values@,
                ).remove(skip as int).take(i - 1).push(values@[i as int]@));
            }
        } else {
            assert(views(values@).take(i as int) =~= views(values@).remove(skip as int).take(
                i as int,
            ));
        }
        i += 1;
    }
    assert(views(values@).remove(skip as int).take(values.len() - 1) =~= views(values@).remove(
        skip as int,
    ));
    out
}

fn drop_unclosed_chars(s: Vec<char>, open: char, close: char) -> (r: Vec<char>)
    ensures
        r@ == drop_unclosed(s@, open, close),
{
    if count_char_exec(&s, open) > count_char_exec(&s, close) {
        match rfind_char_exec(&s, open) {
            Some(i) => {
                proof {
                    lemma_rfind_char_props(s@, open);
                }
                let r = sub_chars(&s, 0, i);
                assert(r@ =~= s@.take(i as int));
                r
            },
            None => s,
        }
    } else {
        s
    }
}

fn trim_incomplete_chunks(s: &Vec<char>) -> (r: Vec<char>)
    ensures
        r@ == trim_incomplete(s@),
{
    let s1 = trim_end_chars(s, CharSet::ChunkTail);
    let s2 = drop_unclosed_chars(s1, '(', ')');
    let s3 = drop_unclosed_chars(s2, '（', '）');
    let s4 = drop_unclosed_chars(s3, '[', ']');
    trim_chars(&s4)
}

fn common_prefix_with_one_skip(values: &Vec<Vec<char>>) -> (r: Vec<char>)
    ensures
        r@ == prefix_with_one_skip(views(values@)),
{
    if values.len() == 0 {
        return Vec::new();
    }
    if values.len() == 1 {
        return copy_chars(&values[0]);
    }
    let ghost v = views(values@);
    let mut best = common_prefix(values);
    if values.len() >= 3 {
        let mut i: usize = 0;
        while i < values.len()
            invariant
                v == views(values@),
                i <= values.len(),
                best@ == best_prefix_upto(v, i as int),
            decreases values.len() - i,
        {
            let subset = without_index(values, i);
            let cand = common_prefix(&subset);
            if cand.len() > best.len() {
                best = cand;
            }
            i += 1;
        }
    }
    trim_incomplete_chunks(&best)
}

fn present_field_chars(rows: &[(Option<String>, Option<String>)], first: bool) -> (r: Vec<
    Vec<char>,
>)
    ensures
        views(r@) == present_fields(rows@, first),
{
    let mut out: Vec<Vec<char>> = Vec::new();
    let mut i: usize = 0;
    while i < rows.len()
        invariant
            i <= rows.len(),
            views(out@) == present_fields(rows@.take(i as int), first),
        decreases rows.len() - i,
    {
        assert(rows@.take(i + 1).drop_last() =~= rows@.take(i as int));
        assert(rows@.take(i + 1).last() == rows@[i as int]);
        let field = if first {
            &rows[i].0
        } else {
            &rows[i].1
        };
        match field {
            Some(t) => {
                let tv = str_to_chars(t.as_str());
                let trimmed = trim_chars(&tv);
                if trimmed.len() > 0 {
                    out.push(trimmed);
                    assert(views(out@) =~= present_fields(rows@.take(i as int), first).push(
                        trim_ws(t@),
                    ));
                }
            },
            None => {},
        }
        i += 1;
    }
    assert(rows@.take(rows.len() as int) =~= rows@);
    out
}

fn nonempty_string(v: &Vec<char>) -> (r: Option<String>)
    ensures
        opt_view(r) == nonempty(v@),
{
    if v.len() == 0 {
        None
    } else {
        Some(chars_to_string(v))
    }
}

fn package_meta_chars(rows: &[(Option<String>, Option<String>)]) -> (r: Option<
    (Option<String>, Option<String>),
>)
    ensures
        match r {
            Some((t, a)) => package_meta(rows@) == Some((opt_view(t), opt_view(a))),
            None => package_meta(rows@) is None,
        },
{
    let titles = present_field_chars(rows, true);
    let artists = present_field_chars(rows, false);
    let title_prefix = common_prefix_with_one_skip(&titles);
    let artist_prefix = common_prefix_with_one_skip(&artists);
    let title = title_chars(&title_prefix);
    match artist_chars(&artist_prefix) {
        Some(artist) => Some((nonempty_string(&title), nonempty_string(&artist))),
        None => None,
    }
}

/// Estimates a package's song title and artist: the normalised shared prefix of
/// its charts' trimmed, non-blank titles and artists (one value may disagree when
/// there are three or more), `None` where it normalises to nothing.
pub fn estimate_package_meta(rows: &[(Option<String>, Option<String>)]) -> (r: (
    Option<String>,
    Option<String>,
))
    requires
        package_meta(rows@) is Some,
    ensures
        package_meta(rows@) == Some((opt_view(r.0), opt_view(r.1))),
{
    match package_meta_chars(rows) {
        Some(m) => m,
        None => {
            proof {
                assert(false);
            }
            (None, None)
        },
    }
}

/// `estimate_package_meta` where it is defined, `None` on the rows that it refuses.
pub fn estimate_package_meta_checked(rows: &[(Option<String>, Option<String>)]) -> (r: Option<
    (Option<String>, Option<String>),
>)
    ensures
        match r {
            Some((t, a)) => package_meta(rows@) == Some((opt_view(t), opt_view(a))),
            None => package_meta(rows@) is None,
        },
{
    match package_meta_chars(rows) {
        Some(_) => Some(estimate_package_meta(rows)),
        None => None,
    }
}

fn opt_str_chars(s: Option<&str>) -> (r: Vec<char>)
    ensures
        r@ == opt_chars(s),
{
    match s {
        Some(t) => str_to_chars(t),
        None => Vec::new(),
    }
}

fn song_key_chars(title: Option<&str>, artist: Option<&str>) -> (r: Option<Option<String>>)
    ensures
        match r {
            Some(k) => song_key(opt_chars(title), opt_chars(artist)) == Some(opt_view(k)),
            None => song_key(opt_chars(title), opt_chars(artist)) is None,
        },
{
    let t = title_chars(&opt_str_chars(title));
    match artist_chars(&opt_str_chars(artist)) {
        None => None,
        Some(a) => {
            if t.len() == 0 || a.len() == 0 {
                Some(None)
            } else {
                let mut sep: Vec<char> = Vec::new();
                sep.push('|');
                let key = concat_chars(&concat_chars(&t, &sep), &a);
                assert(sep@ =~= seq!['|']);
                Some(Some(chars_to_string(&key)))
            }
        },
    }
}

/// The key `"{title}|{artist}"` of the normalised title and artist, `None` when
/// either normalises to nothing.
pub fn normalize_song_key(title: Option<&str>, artist: Option<&str>) -> (r: Option<String>)
    requires
        song_key(opt_chars(title), opt_chars(artist)) is Some,
    ensures
        song_key(opt_chars(title), opt_chars(artist)) == Some(opt_view(r)),
{
    match song_key_chars(title, artist) {
        Some(k) => k,
        None => {
            proof {
                assert(false);
            }
            None
        },
    }
}

/// `normalize_song_key` where it is defined, `None` on the inputs that it refuses.
pub fn normalize_song_key_checked(title: Option<&str>, artist: Option<&str>) -> (r: Option<
    Option<String>,
>)
    ensures
        match r {
            Some(k) => song_key(opt_chars(title), opt_chars(artist)) == Some(opt_view(k)),
            None => song_key(opt_chars(title), opt_chars(artist)) is None,
        },
{
    match song_key_chars(title, artist) {
        Some(_) => Some(normalize_song_key(title, artist)),
        None => None,
    }
}

}
