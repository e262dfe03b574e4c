//! Minimal BMS header parsing: metadata, referenced WAV/BMP files, and the MD5
//! hashes that tie local charts to difficulty tables.
use crate::digest::{hex_lower, hex_lower_chars, is_lower_hex, lemma_hex_lower_shape, md5_bytes, md5_digest};
use crate::song_norm::{opt_view, views};
use crate::text::{
    ascii_lowercase, ascii_lowercase_chars, ascii_uppercase, ascii_uppercase_chars, chars_eq,
    chars_less, chars_lt, chars_to_string, lemma_chars_lt_total,
    lemma_chars_lt_transitive, matches_at, str_to_chars, sub_chars, trim_chars, trim_start_by,
    trim_start_chars, trim_ws, utf8_bytes, utf8_lossy, utf8_lossy_chars, CharSet,
};
use vstd::prelude::*;

verus! {

/// What one BMS chart file declares in its header, with its hashes.
pub struct ParsedBms {
    pub title: Option<String>,
    pub subtitle: Option<String>,
    pub artist: Option<String>,
    pub subartist: Option<String>,
    pub genre: Option<String>,
    pub playlevel: Option<String>,
    pub bpm: Option<String>,
    pub total: Option<String>,
    pub player: Option<String>,
    pub wav_list: Vec<String>,
    pub bmp_list: Vec<String>,
    pub file_md5: String,
    pub bms_norm_hash: Option<String>,
}

/// The header commands that the parser reads.
#[derive(Clone, Copy, PartialEq, Eq, Structural)]
pub enum HeaderField {
    Title,
    Subtitle,
    Artist,
    Subartist,
    Genre,
    Playlevel,
    Bpm,
    Total,
    Player,
    Wav,
    Bmp,
    Other,
}

// ---------------------------------------------------------------------
// Specification

/// The pieces of `text` between `'\n'` characters (`str::split('\n')`).
pub open spec fn split_lines(text: Seq<char>) -> Seq<Seq<char>>
    decreases text.len(),
{
    if text.len() == 0 {
        seq![seq![]]
    } else {
        let prev = split_lines(text.drop_last());
        if text.last() == '\n' {
            prev.push(seq![])
        } else {
            prev.update(prev.len() - 1, prev.last().push(text.last()))
        }
    }
}

/// `char::is_ascii_whitespace`.
pub open spec fn is_ascii_ws(c: char) -> bool {
    c == ' ' || c == '\t' || c == '\n' || c == '\x0C' || c == '\r'
}

/// Index of the first character that ends a header key: ASCII white space or `':'`.
pub open spec fn key_end(s: Seq<char>) -> Option<int>
    decreases s.len(),
{
    if s.len() == 0 {
        None
    } else if is_ascii_ws(s[0]) || s[0] == ':' {
        Some(0)
    } else {
        match key_end(s.drop_first()) {
            Some(i) => Some(i + 1),
            None => None,
        }
    }
}

/// `#KEY value` split into the key and the value after any spaces, tabs and colons.
pub open spec fn split_header(line: Seq<char>) -> Option<(Seq<char>, Seq<char>)> {
    if line.len() == 0 || line[0] != '#' {
        None
    } else {
        let content = line.drop_first();
        match key_end(content) {
            None => None,
            Some(i) => Some(
                (content.take(i), trim_start_by(content.skip(i), CharSet::HeaderSeparator)),
            ),
        }
    }
}

pub open spec fn starts_with(s: Seq<char>, p: Seq<char>) -> bool {
    p.len() <= s.len() && s.take(p.len() as int) == p
}

/// The field that an uppercased header key names.
pub open spec fn field_of_key(key: Seq<char>) -> HeaderField {
    if key == "TITLE"@ {
        HeaderField::Title
    } else if key == "SUBTITLE"@ {
        HeaderField::Subtitle
    } else if key == "ARTIST"@ {
        HeaderField::Artist
    } else if key == "SUBARTIST"@ {
        HeaderField::Subartist
    } else if key == "GENRE"@ {
        HeaderField::Genre
    } else if key == "PLAYLEVEL"@ {
        HeaderField::Playlevel
    } else if key == "BPM"@ {
        HeaderField::Bpm
    } else if key == "TOTAL"@ {
        HeaderField::Total
    } else if key == "PLAYER"@ {
        HeaderField::Player
    } else if starts_with(key, "WAV"@) {
        HeaderField::Wav
    } else if starts_with(key, "BMP"@) {
        HeaderField::Bmp
    } else {
        HeaderField::Other
    }
}

/// A header line: a line that starts with `'#'` once trimmed.
pub open spec fn header_line(line: Seq<char>) -> Option<Seq<char>> {
    let l = trim_ws(line);
    if l.len() > 0 && l[0] == '#' {
        Some(l)
    } else {
        None
    }
}

/// The field and trimmed value that a line sets, if it is a header command.
pub open spec fn line_entry(line: Seq<char>) -> Option<(HeaderField, Seq<char>)> {
    match header_line(line) {
        None => None,
        Some(l) => match split_header(l) {
            None => None,
            Some((k, v)) => Some((field_of_key(ascii_uppercase(k)), trim_ws(v))),
        },
    }
}

pub open spec fn nonempty_value(v: Seq<char>) -> Option<Seq<char>> {
    if v.len() == 0 {
        None
    } else {
        Some(v)
    }
}

/// The value that the last line naming `f` gives it (`None` if empty or absent).
pub open spec fn field_value(lines: Seq<Seq<char>>, f: HeaderField) -> Option<Seq<char>>
    decreases lines.len(),
{
    if lines.len() == 0 {
        None
    } else {
        match line_entry(lines.last()) {
            Some((g, v)) => if g == f {
                nonempty_value(v)
            } else {
                field_value(lines.drop_last(), f)
            },
            None => field_value(lines.drop_last(), f),
        }
    }
}

/// The non-empty values of all lines naming `f`.
pub open spec fn field_values(lines: Seq<Seq<char>>, f: HeaderField) -> Set<Seq<char>>
    decreases lines.len(),
{
    if lines.len() == 0 {
        Set::empty()
    } else {
        let rest = field_values(lines.drop_last(), f);
        match line_entry(lines.last()) {
            Some((g, v)) => if g == f && v.len() > 0 {
                rest.insert(v)
            } else {
                rest
            },
            None => rest,
        }
    }
}

/// The header lines, ASCII-lowercased, in order.
pub open spec fn normalized_lines(lines: Seq<Seq<char>>) -> Seq<Seq<char>>
    decreases lines.len(),
{
    if lines.len() == 0 {
        seq![]
    } else {
        let rest = normalized_lines(lines.drop_last());
        match header_line(lines.last()) {
            Some(l) => rest.push(ascii_lowercase(l)),
            None => rest,
        }
    }
}

/// The lines joined by `'\n'`.
pub open spec fn join_lines(v: Seq<Seq<char>>) -> Seq<char>
    decreases v.len(),
{
    if v.len() == 0 {
        seq![]
    } else if v.len() == 1 {
        v[0]
    } else {
        join_lines(v.drop_last()) + seq!['\n'] + v.last()
    }
}

/// Strictly increasing in code-point order (the order of a `BTreeSet<String>`).
pub open spec fn strictly_sorted(v: Seq<Seq<char>>) -> bool {
    forall|i: int, j: int| 0 <= i < j < v.len() ==> chars_lt(#[trigger] v[i], #[trigger] v[j])
}

/// The views of a sequence of strings.
pub open spec fn string_views(v: Seq<String>) -> Seq<Seq<char>> {
    v.map_values(|x: String| x@)
}

/// The header lines of a text.
pub open spec fn text_lines(bytes: Seq<u8>) -> Seq<Seq<char>> {
    split_lines(utf8_lossy(bytes))
}

/// The hash of the normalised header: MD5 of the lowercased header lines joined by
/// newlines, absent when there is no header line.
pub open spec fn norm_hash(lines: Seq<Seq<char>>) -> Option<Seq<char>> {
    let n = normalized_lines(lines);
    if n.len() == 0 {
        None
    } else {
        Some(hex_lower(md5_digest(vstd::utf8::encode_utf8(join_lines(n)))))
    }
}

/// A sorted list holds exactly the given set.
pub open spec fn lists_set(list: Seq<Seq<char>>, s: Set<Seq<char>>) -> bool {
    &&& strictly_sorted(list)
    &&& forall|x: Seq<char>| list.contains(x) <==> s.contains(x)
}

// ---------------------------------------------------------------------
// Lemmas

proof fn lemma_split_lines_nonempty(text: Seq<char>)
    ensures
        split_lines(text).len() >= 1,
    decreases text.len(),
{
    if text.len() > 0 {
        lemma_split_lines_nonempty(text.drop_last());
    }
}

proof fn lemma_normalized_nonempty(lines: Seq<Seq<char>>)
    ensures
        forall|i: int|
            0 <= i < normalized_lines(lines).len() ==> #[trigger] normalized_lines(lines)[i].len()
                > 0,
    decreases lines.len(),
{
    if lines.len() > 0 {
        lemma_normalized_nonempty(lines.drop_last());
        match header_line(lines.last()) {
            Some(l) => {
                let rest = normalized_lines(lines.drop_last());
                let n = rest.push(ascii_lowercase(l));
                assert(ascii_lowercase(l).len() == l.len());
                assert(normalized_lines(lines) == n);
                assert forall|i: int| 0 <= i < n.len() implies #[trigger] n[i].len() > 0 by {
                    if i < rest.len() {
                        assert(n[i] == rest[i]);
                    }
                }
            },
            None => {},
        }
    }
}

proof fn lemma_join_empty(v: Seq<Seq<char>>)
    requires
        forall|i: int| 0 <= i < v.len() ==> #[trigger] v[i].len() > 0,
    ensures
        (join_lines(v).len() == 0) == (v.len() == 0),
    decreases v.len(),
{
    if v.len() > 1 {
        lemma_join_empty(v.drop_last());
    }
}

/// The trimmed header lines of a text, in order.
pub open spec fn header_lines(lines: Seq<Seq<char>>) -> Seq<Seq<char>>
    decreases lines.len(),
{
    if lines.len() == 0 {
        seq![]
    } else {
        let rest = header_lines(lines.drop_last());
        match header_line(lines.last()) {
            Some(l) => rest.push(l),
            None => rest,
        }
    }
}

proof fn lemma_normalized_lines_map(lines: Seq<Seq<char>>)
    ensures
        normalized_lines(lines) == header_lines(lines).map_values(|l: Seq<char>| ascii_lowercase(l)),
    decreases lines.len(),
{
    if lines.len() > 0 {
        lemma_normalized_lines_map(lines.drop_last());
        let r = header_lines(lines.drop_last());
        match header_line(lines.last()) {
            Some(l) => {
                assert(r.push(l).map_values(|l: Seq<char>| ascii_lowercase(l)) =~= r.map_values(
                    |l: Seq<char>| ascii_lowercase(l),
                ).push(ascii_lowercase(l)));
            },
            None => {},
        }
    }
}

/// The normalisation hash of a chart file sees only its header lines, up to ASCII
/// case: files whose trimmed `#`-lines agree, in order, once ASCII-lowercased have
/// the same hash, whatever their other lines, the white space around lines or their
/// line endings; and the hash is absent exactly when there is no header line.
pub proof fn lemma_norm_hash_header_only(b1: Seq<u8>, b2: Seq<u8>)
    requires
        header_lines(text_lines(b1)).len() == header_lines(text_lines(b2)).len(),
        forall|i: int|
            0 <= i < header_lines(text_lines(b1)).len() ==> ascii_lowercase(#[trigger] header_lines(text_lines(b1))[i])
                == ascii_lowercase(header_lines(text_lines(b2))[i]),
    ensures
        norm_hash(text_lines(b1)) == norm_hash(text_lines(b2)),
        norm_hash(text_lines(b1)) is None <==> header_lines(text_lines(b1)).len() == 0,
{
    let h1 = header_lines(text_lines(b1));
    let h2 = header_lines(text_lines(b2));
    lemma_normalized_lines_map(text_lines(b1));
    lemma_normalized_lines_map(text_lines(b2));
    assert(normalized_lines(text_lines(b1)) =~= normalized_lines(text_lines(b2)));
}

// ---------------------------------------------------------------------
// Implementation

fn split_text_lines(text: &Vec<char>) -> (r: Vec<Vec<char>>)
    ensures
        views(r@) == split_lines(text@),
{
    let mut lines: Vec<Vec<char>> = Vec::new();
    let mut cur: Vec<char> = Vec::new();
    let mut i: usize = 0;
    assert(text@.take(0) =~= Seq::<char>::empty());
    assert(views(lines@).push(cur@) =~= split_lines(text@.take(0)));
    while i < text.len()
        invariant
            i <= text.len(),
            views(lines@).push(cur@) == split_lines(text@.take(i as int)),
        decreases text.len() - i,
    {
        let ghost prev = split_lines(text@.take(i as int));
        assert(text@.take(i + 1).drop_last() =~= text@.take(i as int));
        let c = text[i];
        if c == '\n' {
            let done = cur;
            let ghost lv = lines@;
            lines.push(done);
            cur = Vec::new();
            assert(views(lines@) =~= views(lv).push(done@));
            assert(views(lines@).push(cur@) =~= prev.push(seq![]));
        } else {
            let ghost old_cur = cur@;
            cur.push(c);
            assert(views(lines@).push(cur@) =~= prev.update(prev.len() - 1, prev.last().push(c)));
        }
        i += 1;
    }
    assert(text@.take(text.len() as int) =~= text@);
    let ghost lv = lines@;
    lines.push(cur);
    assert(views(lines@) =~= views(lv).push(cur@));
    lines
}

fn key_end_exec(s: &Vec<char>) -> (r: Option<usize>)
    ensures
        match r {
            Some(i) => key_end(s@) == Some(i as int) && i < s.len(),
            None => key_end(s@) is None,
        },
{
    let mut i: usize = 0;
    assert(s@.skip(0) =~= s@);
    while i < s.len()
        invariant
            i <= s.len(),
            key_end(s@) == match key_end(s@.skip(i as int)) {
                Some(j) => Some(j + i),
                None => None,
            },
        decreases s.len() - i,
    {
        assert(s@.skip(i as int).drop_first() =~= s@.skip(i + 1));
        let c = s[i];
        if c == ' ' || c == '\t' || c == '\n' || c == '\x0C' || c == '\r' || c == ':' {
            return Some(i);
        }
        i += 1;
    }
    None
}

fn split_header_exec(line: &Vec<char>) -> (r: Option<(Vec<char>, Vec<char>)>)
    ensures
        match r {
            Some((k, v)) => split_header(line@) == Some((k@, v@)),
            None => split_header(line@) is None,
        },
{
    if line.len() == 0 || line[0] != '#' {
        return None;
    }
    let content = sub_chars(line, 1, line.len());
    assert(content@ =~= line@.drop_first());
    match key_end_exec(&content) {
        None => None,
        Some(i) => {
            let key = sub_chars(&content, 0, i);
            let rest = sub_chars(&content, i, content.len());
            assert(key@ =~= content@.take(i as int));
            assert(rest@ =~= content@.skip(i as int));
            let value = trim_start_chars(&rest, CharSet::HeaderSeparator);
            Some((key, value))
        },
    }
}

fn is_key(key: &Vec<char>, name: &str) -> (r: bool)
    ensures
        r == (key@ == name@),
{
    chars_eq(key, &str_to_chars(name))
}

fn key_starts_with(key: &Vec<char>, prefix: &str) -> (r: bool)
    ensures
        r == starts_with(key@, prefix@),
{
    let p = str_to_chars(prefix);
    if p.len() <= key.len() {
        let m = matches_at(key, &p, 0);
        assert(key@.subrange(0, p.len() as int) =~= key@.take(p.len() as int));
        m
    } else {
        false
    }
}

fn field_of(key: &Vec<char>) -> (r: HeaderField)
    ensures
        r == field_of_key(key@),
{
    if is_key(key, "TITLE") {
        HeaderField::Title
    } else if is_key(key, "SUBTITLE") {
        HeaderField::Subtitle
    } else if is_key(key, "ARTIST") {
        HeaderField::Artist
    } else if is_key(key, "SUBARTIST") {
        HeaderField::Subartist
    } else if is_key(key, "GENRE") {
        HeaderField::Genre
    } else if is_key(key, "PLAYLEVEL") {
        HeaderField::Playlevel
    } else if is_key(key, "BPM") {
        HeaderField::Bpm
    } else if is_key(key, "TOTAL") {
        HeaderField::Total
    } else if is_key(key, "PLAYER") {
        HeaderField::Player
    } else if key_starts_with(key, "WAV") {
        HeaderField::Wav
    } else if key_starts_with(key, "BMP") {
        HeaderField::Bmp
    } else {
        HeaderField::Other
    }
}

fn header_line_exec(line: &Vec<char>) -> (r: Option<Vec<char>>)
    ensures
        match r {
            Some(l) => header_line(line@) == Some(l@),
            None => header_line(line@) is None,
        },
{
    let l = trim_chars(line);
    if l.len() > 0 && l[0] == '#' {
        Some(l)
    } else {
        None
    }
}

fn line_entry_exec(l: &Vec<char>) -> (r: Option<(HeaderField, Vec<char>)>)
    requires
        l@.len() > 0 && l@[0] == '#',
        trim_ws(l@) == l@,
    ensures
        match r {
            Some((f, v)) => match split_header(l@) {
                Some((k, v0)) => f == field_of_key(ascii_uppercase(k)) && v@ == trim_ws(v0),
                None => false,
            },
            None => split_header(l@) is None,
        },
{
    match split_header_exec(l) {
        None => None,
        Some((k, v)) => {
            let key = ascii_uppercase_chars(&k);
            let value = trim_chars(&v);
            Some((field_of(&key), value))
        },
    }
}

/// Inserts `x` into a strictly sorted list of texts, keeping it a sorted set.
fn sorted_insert(list: &mut Vec<Vec<char>>, x: Vec<char>)
    requires
        strictly_sorted(views(old(list)@)),
    ensures
        strictly_sorted(views(final(list)@)),
        forall|y: Seq<char>|
            views(final(list)@).contains(y) <==> (views(old(list)@).contains(y) || y == x@),
{
    let ghost old_v = views(list@);
    let mut p: usize = 0;
    while p < list.len() && chars_less(&list[p], &x)
        invariant
            p <= list.len(),
            old_v == views(list@),
            forall|i: int| 0 <= i < p ==> chars_lt(#[trigger] old_v[i], x@),
        decreases list.len() - p,
    {
        p += 1;
    }
    if p < list.len() && chars_eq(&list[p], &x) {
        assert(old_v[p as int] == x@);
        return;
    }
    proof {
        if p < list.len() {
            lemma_chars_lt_total(old_v[p as int], x@);
        }
        assert forall|i: int| p <= i < old_v.len() implies chars_lt(x@, #[trigger] old_v[i]) by {
            if i > p {
                lemma_chars_lt_transitive(x@, old_v[p as int], old_v[i]);
            }
        }
    }
    list.insert(p, x);
    let ghost new_v = views(list@);
    assert(new_v =~= old_v.insert(p as int, x@));
    proof {
        assert forall|i: int, j: int| 0 <= i < j < new_v.len() implies chars_lt(
            #[trigger] new_v[i],
            #[trigger] new_v[j],
        ) by {
            if j < p {
                assert(new_v[i] == old_v[i]);
                assert(new_v[j] == old_v[j]);
            } else if j == p {
                assert(new_v[i] == old_v[i]);
            } else if i < p {
                assert(new_v[i] == old_v[i]);
                assert(new_v[j] == old_v[j - 1]);
                lemma_chars_lt_transitive(old_v[i], x@, old_v[j - 1]);
            } else if i == p {
                assert(new_v[j] == old_v[j - 1]);
            } else {
                assert(new_v[i] == old_v[i - 1]);
                assert(new_v[j] == old_v[j - 1]);
            }
        }
        assert forall|y: Seq<char>| new_v.contains(y) <==> (old_v.contains(y) || y == x@) by {
            if new_v.contains(y) {
                let k = choose|k: int| 0 <= k < new_v.len() && new_v[k] == y;
                if k < p {
                    assert(old_v[k] == y);
                } else if k > p {
                    assert(old_v[k - 1] == y);
                }
            }
            if old_v.contains(y) {
                let k = choose|k: int| 0 <= k < old_v.len() && old_v[k] == y;
                if k < p {
                    assert(new_v[k] == y);
                } else {
                    assert(new_v[k + 1] == y);
                }
            }
            if y == x@ {
                assert(new_v[p as int] == y);
            }
        }
    }
}

fn to_strings(v: &Vec<Vec<char>>) -> (r: Vec<String>)
    ensures
        string_views(r@) == views(v@),
{
    let mut out: Vec<String> = Vec::new();
    let mut i: usize = 0;
    while i < v.len()
        invariant
            i <= v.len(),
            string_views(out@) == views(v@).take(i as int),
        decreases v.len() - i,
    {
        let s = chars_to_string(&v[i]);
        let ghost prev = out@;
        out.push(s);
        assert(string_views(out@) =~= string_views(prev).push(v@[i as int]@));
        assert(views(v@).take(i + 1) =~= views(v@).take(i as int).push(v@[i as int]@));
        i += 1;
    }
    assert(views(v@).take(v.len() as int) =~= views(v@));
    out
}

fn opt_string(v: &Option<Vec<char>>) -> (r: Option<String>)
    ensures
        opt_view(r) == match v {
            Some(x) => Some(x@),
            None => None,
        },
{
    match v {
        Some(x) => Some(chars_to_string(x)),
        None => None,
    }
}

fn join_newline(v: &Vec<Vec<char>>) -> (r: Vec<char>)
    ensures
        r@ == join_lines(views(v@)),
{
    let mut out: Vec<char> = Vec::new();
    let mut i: usize = 0;
    while i < v.len()
        invariant
            i <= v.len(),
            out@ == join_lines(views(v@).take(i as int)),
        decreases v.len() - i,
    {
        assert(views(v@).take(i + 1).drop_last() =~= views(v@).take(i as int));
        assert(views(v@).take(i + 1).last() == v@[i as int]@);
        if i > 0 {
            out.push('\n');
        }
        let line = &v[i];
        let mut k: usize = 0;
        let ghost base = out@;
        while k < line.len()
            invariant
                k <= line.len(),
                out@ == base + line@.take(k as int),
            decreases line.len() - k,
        {
            out.push(line[k]);
            k += 1;
            assert(out@ =~= base + line@.take(k as int));
        }
        assert(line@.take(line.len() as int) =~= line@);
        i += 1;
        if i == 1 {
            assert(out@ =~= join_lines(views(v@).take(i as int)));
        } else {
            assert(out@ =~= join_lines(views(v@).take(i as int)));
        }
    }
    assert(views(v@).take(v.len() as int) =~= views(v@));
    out
}

spec fn field_index(f: HeaderField) -> int {
    match f {
        HeaderField::Title => 0,
        HeaderField::Subtitle => 1,
        HeaderField::Artist => 2,
        HeaderField::Subartist => 3,
        HeaderField::Genre => 4,
        HeaderField::Playlevel => 5,
        HeaderField::Bpm => 6,
        HeaderField::Total => 7,
        HeaderField::Player => 8,
        _ => 9,
    }
}

spec fn field_at(k: int) -> HeaderField {
    if k == 0 {
        HeaderField::Title
    } else if k == 1 {
        HeaderField::Subtitle
    } else if k == 2 {
        HeaderField::Artist
    } else if k == 3 {
        HeaderField::Subartist
    } else if k == 4 {
        HeaderField::Genre
    } else if k == 5 {
        HeaderField::Playlevel
    } else if k == 6 {
        HeaderField::Bpm
    } else if k == 7 {
        HeaderField::Total
    } else {
        HeaderField::Player
    }
}

spec fn opt_chars_view(v: Option<Vec<char>>) -> Option<Seq<char>> {
    match v {
        Some(x) => Some(x@),
        None => None,
    }
}

fn scalar_slot(f: HeaderField) -> (r: Option<usize>)
    ensures
        match r {
            Some(k) => k < 9 && field_at(k as int) == f,
            None => f == HeaderField::Wav || f == HeaderField::Bmp || f == HeaderField::Other,
        },
{
    match f {
        HeaderField::Title => Some(0),
        HeaderField::Subtitle => Some(1),
        HeaderField::Artist => Some(2),
        HeaderField::Subartist => Some(3),
        HeaderField::Genre => Some(4),
        HeaderField::Playlevel => Some(5),
        HeaderField::Bpm => Some(6),
        HeaderField::Total => Some(7),
        HeaderField::Player => Some(8),
        _ => None,
    }
}

/// Parses a BMS chart file's bytes: the text is decoded lossily as UTF-8 and split
/// into lines; each line that starts with `#` once trimmed is a header line. For
/// each metadata field the last header line naming it decides its value (absent
/// when blank); `#WAVxx`/`#BMPxx` values are collected as sorted sets. `file_md5`
/// is the MD5 of the bytes and `bms_norm_hash` that of the lowercased header lines
/// joined by newlines, both in lowercase hexadecimal.
pub fn parse_chart(bytes: &[u8]) -> (r: ParsedBms)
    ensures
        opt_view(r.title) == field_value(text_lines(bytes@), HeaderField::Title),
        opt_view(r.subtitle) == field_value(text_lines(bytes@), HeaderField::Subtitle),
        opt_view(r.artist) == field_value(text_lines(bytes@), HeaderField::Artist),
        opt_view(r.subartist) == field_value(text_lines(bytes@), HeaderField::Subartist),
        opt_view(r.genre) == field_value(text_lines(bytes@), HeaderField::Genre),
        opt_view(r.playlevel) == field_value(text_lines(bytes@), HeaderField::Playlevel),
        opt_view(r.bpm) == field_value(text_lines(bytes@), HeaderField::Bpm),
        opt_view(r.total) == field_value(text_lines(bytes@), HeaderField::Total),
        opt_view(r.player) == field_value(text_lines(bytes@), HeaderField::Player),
        lists_set(
            string_views(r.wav_list@),
            field_values(text_lines(bytes@), HeaderField::Wav),
        ),
        lists_set(
            string_views(r.bmp_list@),
            field_values(text_lines(bytes@), HeaderField::Bmp),
        ),
        r.file_md5@ == hex_lower(md5_digest(bytes@)),
        r.file_md5@.len() == 32,
        forall|i: int| 0 <= i < r.file_md5@.len() ==> is_lower_hex(#[trigger] r.file_md5@[i]),
        opt_view(r.bms_norm_hash) == norm_hash(text_lines(bytes@)),
{
    let text = utf8_lossy_chars(bytes);
    let lines = split_text_lines(&text);
    let ghost lv = views(lines@);
    let mut fields: Vec<Option<Vec<char>>> = Vec::new();
    let mut k: usize = 0;
    while k < 9
        invariant
            k <= 9,
            fields@.len() == k,
            forall|j: int| 0 <= j < k ==> fields@[j] is None,
        decreases 9 - k,
    {
        fields.push(None);
        k += 1;
    }
    let mut wav: Vec<Vec<char>> = Vec::new();
    let mut bmp: Vec<Vec<char>> = Vec::new();
    let mut normalized: Vec<Vec<char>> = Vec::new();
    let mut i: usize = 0;
    assert(lv.take(0) =~= Seq::<Seq<char>>::empty());
    while i < lines.len()
        invariant
            lv == views(lines@),
            i <= lines.len(),
            fields@.len() == 9,
            forall|j: int|
                0 <= j < 9 ==> opt_chars_view(#[trigger] fields@[j]) == field_value(
                    lv.take(i as int),
                    field_at(j),
                ),
            lists_set(views(wav@), field_values(lv.take(i as int), HeaderField::Wav)),
            lists_set(views(bmp@), field_values(lv.take(i as int), HeaderField::Bmp)),
            views(normalized@) == normalized_lines(lv.take(i as int)),
        decreases lines.len() - i,
    {
        let ghost pre = lv.take(i as int);
        let ghost post = lv.take(i + 1);
        assert(post.drop_last() =~= pre);
        assert(post.last() == lines@[i as int]@);
        let ghost line = lines@[i as int]@;
        match header_line_exec(&lines[i]) {
            None => {},
            Some(l) => {
                proof {
                    crate::text::lemma_trim_start_props(line, CharSet::WhiteSpace);
                    crate::text::lemma_trim_end_props(
                        trim_start_by(line, CharSet::WhiteSpace),
                        CharSet::WhiteSpace,
                    );
                    crate::text::lemma_trim_ws_idempotent(line);
                }
                let lower = ascii_lowercase_chars(&l);
                let ghost nv = normalized@;
                normalized.push(lower);
                assert(views(normalized@) =~= views(nv).push(ascii_lowercase(l@)));
                match line_entry_exec(&l) {
                    None => {},
                    Some((f, value)) => {
                        match scalar_slot(f) {
                            Some(slot) => {
                                if value.len() == 0 {
                                    fields.set(slot, None);
                                } else {
                                    fields.set(slot, Some(value));
                                }
                            },
                            None => {
                                if value.len() > 0 {
                                    let ghost wv = views(wav@);
                                    let ghost bv = views(bmp@);
                                    if f == HeaderField::Wav {
                                        sorted_insert(&mut wav, value);
                                    } else if f == HeaderField::Bmp {
                                        sorted_insert(&mut bmp, value);
                                    }
                                }
                            },
                        }
                    },
                }
            },
        }
        i += 1;
        proof {
            assert forall|j: int| 0 <= j < 9 implies opt_chars_view(#[trigger] fields@[j])
                == field_value(post, field_at(j)) by {}
        }
    }
    assert(lv.take(lines.len() as int) =~= lv);
    let digest = md5_bytes(bytes);
    proof {
        lemma_hex_lower_shape(digest@);
    }
    let file_md5 = chars_to_string(&hex_lower_chars(digest.as_slice()));
    let joined = join_newline(&normalized);
    proof {
        lemma_normalized_nonempty(lv);
        lemma_join_empty(normalized_lines(lv));
    }
    let bms_norm_hash = if joined.len() == 0 {
        None
    } else {
        let jb = utf8_bytes(&joined);
        Some(chars_to_string(&hex_lower_chars(md5_bytes(jb.as_slice()).as_slice())))
    };
    ParsedBms {
        title: opt_string(&fields[0]),
        subtitle: opt_string(&fields[1]),
        artist: opt_string(&fields[2]),
        subartist: opt_string(&fields[3]),
        genre: opt_string(&fields[4]),
        playlevel: opt_string(&fields[5]),
        bpm: opt_string(&fields[6]),
        total: opt_string(&fields[7]),
        player: opt_string(&fields[8]),
        wav_list: to_strings(&wav),
        bmp_list: to_strings(&bmp),
        file_md5,
        bms_norm_hash,
    }
}

}
