//! Character-level text utilities: trimming, ASCII case mapping, searching,
//! lexicographic order and UTF-8 widths, over `Seq<char>` models.
use vstd::prelude::*;

verus! {

/// Appends one character to a `String` (`String::push`).
#[verifier::external_body]
pub(crate) fn push_char(s: &mut String, c: char)
    ensures
        final(s)@ == old(s)@.push(c),
{
    s.push(c);
}

/// The characters of a string slice, in order.
pub fn str_to_chars(s: &str) -> (r: Vec<char>)
    ensures
        r@ == s@,
{
    let mut out: Vec<char> = Vec::new();
    let chars_it = s.chars();
    for c in it: chars_it
        invariant
            out@ == it.seq().take(it.index() as int),
            it.seq() == s@,
    {
        out.push(c);
    }
    out
}

/// A `String` holding the given characters.
pub fn chars_to_string(v: &Vec<char>) -> (r: String)
    ensures
        r@ == v@,
{
    let mut out = String::new();
    let mut i: usize = 0;
    while i < v.len()
        invariant
            i <= v.len(),
            out@ == v@.take(i as int),
        decreases v.len() - i,
    {
        push_char(&mut out, v[i]);
        i += 1;
        assert(v@.take(i as int) == v@.take((i - 1) as int).push(v@[i - 1]));
    }
    assert(v@.take(v.len() as int) == v@);
    out
}

/// A copy of `v[from..to]`.
pub fn sub_chars(v: &Vec<char>, from: usize, to: usize) -> (r: Vec<char>)
    requires
        from <= to <= v.len(),
    ensures
        r@ == v@.subrange(from as int, to as int),
{
    let mut out: Vec<char> = Vec::new();
    let mut i = from;
    while i < to
        invariant
            from <= i <= to <= v.len(),
            out@ == v@.subrange(from as int, i as int),
        decreases to - i,
    {
        out.push(v[i]);
        i += 1;
        assert(v@.subrange(from as int, i as int) == v@.subrange(from as int, i - 1).push(
            v@[i - 1],
        ));
    }
    out
}

/// `a` followed by `b`.
pub fn concat_chars(a: &Vec<char>, b: &Vec<char>) -> (r: Vec<char>)
    ensures
        r@ == a@ + b@,
{
    let mut out = sub_chars(a, 0, a.len());
    let mut i: usize = 0;
    while i < b.len()
        invariant
            i <= b.len(),
            out@ == a@ + b@.take(i as int),
        decreases b.len() - i,
    {
        out.push(b[i]);
        i += 1;
        assert(a@ + b@.take(i as int) == (a@ + b@.take(i - 1)).push(b@[i - 1]));
    }
    assert(b@.take(b.len() as int) == b@);
    assert(a@.subrange(0, a@.len() as int) == a@);
    out
}

/// Whether two character sequences are equal.
pub fn chars_eq(a: &Vec<char>, b: &Vec<char>) -> (r: bool)
    ensures
        r == (a@ == b@),
{
    if a.len() != b.len() {
        return false;
    }
    let mut i: usize = 0;
    while i < a.len()
        invariant
            a.len() == b.len(),
            i <= a.len(),
            forall|k: int| 0 <= k < i ==> a@[k] == b@[k],
        decreases a.len() - i,
    {
        if a[i] != b[i] {
            return false;
        }
        i += 1;
    }
    assert(a@ =~= b@);
    true
}

// ---------------------------------------------------------------------
// Unicode White_Space and character classes used for trimming

/// The Unicode `White_Space` property, which `char::is_whitespace` and
/// `str::trim` go by.
pub open spec fn is_white_space(c: char) -> bool {
    let u = c as u32;
    ||| 0x09 <= u <= 0x0d
    ||| u == 0x20
    ||| u == 0x85
    ||| u == 0xa0
    ||| u == 0x1680
    ||| 0x2000 <= u <= 0x200a
    ||| u == 0x2028
    ||| u == 0x2029
    ||| u == 0x202f
    ||| u == 0x205f
    ||| u == 0x3000
}

/// `char::is_whitespace`.
pub fn is_whitespace_char(c: char) -> (r: bool)
    ensures
        r == is_white_space(c),
{
    let u = c as u32;
    (0x09 <= u && u <= 0x0d) || u == 0x20 || u == 0x85 || u == 0xa0 || u == 0x1680 || (0x2000
        <= u && u <= 0x200a) || u == 0x2028 || u == 0x2029 || u == 0x202f || u == 0x205f || u
        == 0x3000
}

/// The sets of characters that the library trims.
#[derive(Clone, Copy, PartialEq, Eq, Structural)]
pub enum CharSet {
    /// Unicode white space.
    WhiteSpace,
    /// `' '`, `'\t'` and `':'`, which separate a header key from its value.
    HeaderSeparator,
    /// `' '`, `'/'`, `'-'` and `'_'`, left dangling at the end of a shared prefix.
    ChunkTail,
}

pub open spec fn in_set(set: CharSet, c: char) -> bool {
    match set {
        CharSet::WhiteSpace => is_white_space(c),
        CharSet::HeaderSeparator => c == ' ' || c == '\t' || c == ':',
        CharSet::ChunkTail => c == ' ' || c == '/' || c == '-' || c == '_',
    }
}

pub fn char_in_set(set: CharSet, c: char) -> (r: bool)
    ensures
        r == in_set(set, c),
{
    match set {
        CharSet::WhiteSpace => is_whitespace_char(c),
        CharSet::HeaderSeparator => c == ' ' || c == '\t' || c == ':',
        CharSet::ChunkTail => c == ' ' || c == '/' || c == '-' || c == '_',
    }
}

/// `s` without its leading characters of `set` (`trim_start_matches`).
pub open spec fn trim_start_by(s: Seq<char>, set: CharSet) -> Seq<char>
    decreases s.len(),
{
    if s.len() > 0 && in_set(set, s[0]) {
        trim_start_by(s.drop_first(), set)
    } else {
        s
    }
}

/// `s` without its trailing characters of `set` (`trim_end_matches`).
pub open spec fn trim_end_by(s: Seq<char>, set: CharSet) -> Seq<char>
    decreases s.len(),
{
    if s.len() > 0 && in_set(set, s.last()) {
        trim_end_by(s.drop_last(), set)
    } else {
        s
    }
}

/// `str::trim`: white space removed at both ends.
pub open spec fn trim_ws(s: Seq<char>) -> Seq<char> {
    trim_end_by(trim_start_by(s, CharSet::WhiteSpace), CharSet::WhiteSpace)
}

/// `str::trim_end`.
pub open spec fn trim_end_ws(s: Seq<char>) -> Seq<char> {
    trim_end_by(s, CharSet::WhiteSpace)
}

proof fn lemma_trim_start_skip(s: Seq<char>, set: CharSet, i: int)
    requires
        0 <= i <= s.len(),
        forall|k: int| 0 <= k < i ==> in_set(set, #[trigger] s[k]),
    ensures
        trim_start_by(s, set) == trim_start_by(s.skip(i), set),
    decreases i,
{
    if i > 0 {
        assert(in_set(set, s[0]));
        lemma_trim_start_skip(s.drop_first(), set, i - 1);
        assert(s.drop_first().skip(i - 1) =~= s.skip(i));
    } else {
        assert(s.skip(0) =~= s);
    }
}

proof fn lemma_trim_end_take(s: Seq<char>, set: CharSet, j: int)
    requires
        0 <= j <= s.len(),
        forall|k: int| j <= k < s.len() ==> in_set(set, #[trigger] s[k]),
    ensures
        trim_end_by(s, set) == trim_end_by(s.take(j), set),
    decreases s.len() - j,
{
    if j < s.len() {
        assert(in_set(set, s.last()));
        lemma_trim_end_take(s.drop_last(), set, j);
        assert(s.drop_last().take(j) =~= s.take(j));
    } else {
        assert(s.take(j) =~= s);
    }
}

/// Proves facts about trimming: the result is a subrange and not further trimmable.
pub proof fn lemma_trim_start_props(s: Seq<char>, set: CharSet)
    ensures
        trim_start_by(s, set).len() <= s.len(),
        trim_start_by(s, set) == s.skip(s.len() - trim_start_by(s, set).len()),
        trim_start_by(s, set).len() > 0 ==> !in_set(set, trim_start_by(s, set)[0]),
    decreases s.len(),
{
    if s.len() > 0 && in_set(set, s[0]) {
        lemma_trim_start_props(s.drop_first(), set);
        let t = trim_start_by(s.drop_first(), set);
        assert(s.drop_first().skip(s.drop_first().len() - t.len()) =~= s.skip(s.len() - t.len()));
    } else {
        assert(s.skip(0) =~= s);
    }
}

pub proof fn lemma_trim_end_props(s: Seq<char>, set: CharSet)
    ensures
        trim_end_by(s, set).len() <= s.len(),
        trim_end_by(s, set) == s.take(trim_end_by(s, set).len() as int),
        trim_end_by(s, set).len() > 0 ==> !in_set(set, trim_end_by(s, set).last()),
    decreases s.len(),
{
    if s.len() > 0 && in_set(set, s.last()) {
        lemma_trim_end_props(s.drop_last(), set);
        let t = trim_end_by(s.drop_last(), set);
        assert(s.drop_last().take(t.len() as int) =~= s.take(t.len() as int));
    } else {
        assert(s.take(s.len() as int) =~= s);
    }
}

/// `trim_start_matches` over a character set.
pub fn trim_start_chars(s: &Vec<char>, set: CharSet) -> (r: Vec<char>)
    ensures
        r@ == trim_start_by(s@, set),
{
    let mut i: usize = 0;
    while i < s.len() && char_in_set(set, s[i])
        invariant
            i <= s.len(),
            forall|k: int| 0 <= k < i ==> in_set(set, #[trigger] s@[k]),
        decreases s.len() - i,
    {
        i += 1;
    }
    proof {
        lemma_trim_start_skip(s@, set, i as int);
        assert(s@.skip(i as int) =~= s@.subrange(i as int, s@.len() as int));
    }
    sub_chars(s, i, s.len())
}

/// `trim_end_matches` over a character set.
pub fn trim_end_chars(s: &Vec<char>, set: CharSet) -> (r: Vec<char>)
    ensures
        r@ == trim_end_by(s@, set),
{
    let mut j: usize = s.len();
    while j > 0 && char_in_set(set, s[j - 1])
        invariant
            j <= s.len(),
            forall|k: int| j <= k < s.len() ==> in_set(set, #[trigger] s@[k]),
        decreases j,
    {
        j -= 1;
    }
    proof {
        lemma_trim_end_take(s@, set, j as int);
        assert(s@.take(j as int) =~= s@.subrange(0, j as int));
    }
    sub_chars(s, 0, j)
}

/// `str::trim`.
pub fn trim_chars(s: &Vec<char>) -> (r: Vec<char>)
    ensures
        r@ == trim_ws(s@),
{
    let t = trim_start_chars(s, CharSet::WhiteSpace);
    trim_end_chars(&t, CharSet::WhiteSpace)
}

/// `str::trim_end`.
pub fn trim_end_ws_chars(s: &Vec<char>) -> (r: Vec<char>)
    ensures
        r@ == trim_end_ws(s@),
{
    trim_end_chars(s, CharSet::WhiteSpace)
}

// ---------------------------------------------------------------------
// ASCII case mapping

pub open spec fn ascii_lower(c: char) -> char {
    if 'A' <= c <= 'Z' {
        ((c as u8) + 32) as char
    } else {
        c
    }
}

pub open spec fn ascii_upper(c: char) -> char {
    if 'a' <= c <= 'z' {
        ((c as u8) - 32) as char
    } else {
        c
    }
}

/// `str::to_ascii_lowercase`.
pub open spec fn ascii_lowercase(s: Seq<char>) -> Seq<char> {
    s.map_values(|c: char| ascii_lower(c))
}

/// `str::to_ascii_uppercase`.
pub open spec fn ascii_uppercase(s: Seq<char>) -> Seq<char> {
    s.map_values(|c: char| ascii_upper(c))
}

pub fn ascii_lower_char(c: char) -> (r: char)
    ensures
        r == ascii_lower(c),
{
    if 'A' <= c && c <= 'Z' {
        ((c as u8) + 32) as char
    } else {
        c
    }
}

pub fn ascii_upper_char(c: char) -> (r: char)
    ensures
        r == ascii_upper(c),
{
    if 'a' <= c && c <= 'z' {
        ((c as u8) - 32) as char
    } else {
        c
    }
}

pub fn ascii_lowercase_chars(s: &Vec<char>) -> (r: Vec<char>)
    ensures
        r@ == ascii_lowercase(s@),
{
    let mut out: Vec<char> = Vec::new();
    let mut i: usize = 0;
    while i < s.len()
        invariant
            i <= s.len(),
            out@ == ascii_lowercase(s@.take(i as int)),
        decreases s.len() - i,
    {
        out.push(ascii_lower_char(s[i]));
        i += 1;
        assert(ascii_lowercase(s@.take(i as int)) =~= ascii_lowercase(s@.take(i - 1)).push(
            ascii_lower(s@[i - 1]),
        ));
    }
    assert(s@.take(s.len() as int) =~= s@);
    out
}

pub fn ascii_uppercase_chars(s: &Vec<char>) -> (r: Vec<char>)
    ensures
        r@ == ascii_uppercase(s@),
{
    let mut out: Vec<char> = Vec::new();
    let mut i: usize = 0;
    while i < s.len()
        invariant
            i <= s.len(),
            out@ == ascii_uppercase(s@.take(i as int)),
        decreases s.len() - i,
    {
        out.push(ascii_upper_char(s[i]));
        i += 1;
        assert(ascii_uppercase(s@.take(i as int)) =~= ascii_uppercase(s@.take(i - 1)).push(
            ascii_upper(s@[i - 1]),
        ));
    }
    assert(s@.take(s.len() as int) =~= s@);
    out
}

// ---------------------------------------------------------------------
// Searching

/// First index `j >= from` at which `n` occurs in `h`.
pub open spec fn find_from(h: Seq<char>, n: Seq<char>, from: int) -> Option<int>
    decreases h.len() - from,
{
    if from < 0 || from + n.len() > h.len() {
        None
    } else if h.subrange(from, from + n.len()) == n {
        Some(from)
    } else if from < h.len() {
        find_from(h, n, from + 1)
    } else {
        None
    }
}

/// `str::find` with a string pattern, as a character index.
pub open spec fn find_seq(h: Seq<char>, n: Seq<char>) -> Option<int> {
    find_from(h, n, 0)
}

/// Index of the last occurrence of `c` (`str::rfind` with a char pattern, as a character index).
pub open spec fn rfind_char(s: Seq<char>, c: char) -> Option<int>
    decreases s.len(),
{
    if s.len() == 0 {
        None
    } else if s.last() == c {
        Some(s.len() - 1)
    } else {
        rfind_char(s.drop_last(), c)
    }
}

/// Number of occurrences of `c` (`str::matches(c).count()`).
pub open spec fn count_char(s: Seq<char>, c: char) -> nat
    decreases s.len(),
{
    if s.len() == 0 {
        0
    } else {
        count_char(s.drop_last(), c) + if s.last() == c {
            1nat
        } else {
            0nat
        }
    }
}

/// `str::ends_with` with a char pattern.
pub open spec fn ends_with_char(s: Seq<char>, c: char) -> bool {
    s.len() > 0 && s.last() == c
}

proof fn lemma_find_from_step(h: Seq<char>, n: Seq<char>, from: int)
    requires
        0 <= from,
        from + n.len() <= h.len(),
        h.subrange(from, from + n.len()) != n,
    ensures
        find_from(h, n, from) == find_from(h, n, from + 1),
{
    if n.len() == 0 {
        assert(h.subrange(from, from + n.len()) =~= n);
    }
}

/// Proves the result of `find_from` is a match at or after `from`, and the first such.
pub proof fn lemma_find_from_props(h: Seq<char>, n: Seq<char>, from: int)
    ensures
        find_from(h, n, from) matches Some(j) ==> {
            &&& from <= j
            &&& 0 <= j
            &&& j + n.len() <= h.len()
            &&& h.subrange(j, j + n.len()) == n
            &&& forall|k: int|
                from <= k < j ==> #[trigger] h.subrange(k, k + n.len()) != n
        },
        find_from(h, n, from) is None && 0 <= from ==> forall|k: int|
            from <= k && k + n.len() <= h.len() ==> #[trigger] h.subrange(k, k + n.len()) != n,
    decreases h.len() - from,
{
    if from < 0 || from + n.len() > h.len() {
    } else if h.subrange(from, from + n.len()) == n {
    } else if from < h.len() {
        lemma_find_from_props(h, n, from + 1);
    } else {
        assert(h.subrange(from, from + n.len()) =~= n);
    }
}

/// Whether `n` occurs in `h` at index `j`.
pub fn matches_at(h: &Vec<char>, n: &Vec<char>, j: usize) -> (r: bool)
    requires
        j + n.len() <= h.len(),
    ensures
        r == (h@.subrange(j as int, j + n.len()) == n@),
{
    let mut k: usize = 0;
    while k < n.len()
        invariant
            j + n.len() <= h.len(),
            k <= n.len(),
            forall|i: int| 0 <= i < k ==> h@[j + i] == n@[i],
        decreases n.len() - k,
    {
        if h[j + k] != n[k] {
            assert(h@.subrange(j as int, j + n.len())[k as int] != n@[k as int]);
            return false;
        }
        k += 1;
    }
    assert(h@.subrange(j as int, j + n.len()) =~= n@);
    true
}

/// `str::find` with a string pattern, as a character index.
pub fn find_chars(h: &Vec<char>, n: &Vec<char>) -> (r: Option<usize>)
    ensures
        match r {
            Some(j) => find_seq(h@, n@) == Some(j as int),
            None => find_seq(h@, n@) is None,
        },
{
    if n.len() > h.len() {
        return None;
    }
    if n.len() == 0 {
        assert(h@.subrange(0, 0) =~= n@);
        return Some(0);
    }
    let mut j: usize = 0;
    while j <= h.len() - n.len()
        invariant
            1 <= n.len() <= h.len(),
            j <= h.len() - n.len() + 1,
            find_seq(h@, n@) == find_from(h@, n@, j as int),
        decreases h.len() - j,
    {
        if matches_at(h, n, j) {
            return Some(j);
        }
        proof {
            lemma_find_from_step(h@, n@, j as int);
        }
        j += 1;
    }
    None
}

/// Index of the last occurrence of `c`.
pub fn rfind_char_exec(s: &Vec<char>, c: char) -> (r: Option<usize>)
    ensures
        match r {
            Some(j) => rfind_char(s@, c) == Some(j as int),
            None => rfind_char(s@, c) is None,
        },
{
    let mut j: usize = s.len();
    assert(s@.take(j as int) =~= s@);
    while j > 0
        invariant
            j <= s.len(),
            rfind_char(s@, c) == rfind_char(s@.take(j as int), c),
        decreases j,
    {
        assert(s@.take(j as int).last() == s@[j - 1]);
        assert(s@.take(j as int).drop_last() =~= s@.take(j - 1));
        if s[j - 1] == c {
            return Some(j - 1);
        }
        j -= 1;
    }
    None
}

/// Number of occurrences of `c`.
pub fn count_char_exec(s: &Vec<char>, c: char) -> (r: usize)
    ensures
        r == count_char(s@, c),
{
    let mut i: usize = 0;
    let mut n: usize = 0;
    while i < s.len()
        invariant
            i <= s.len(),
            n == count_char(s@.take(i as int), c),
            n <= i,
        decreases s.len() - i,
    {
        assert(s@.take(i + 1).drop_last() =~= s@.take(i as int));
        if s[i] == c {
            n += 1;
        }
        i += 1;
    }
    assert(s@.take(s.len() as int) =~= s@);
    n
}

// ---------------------------------------------------------------------
// Lexicographic order by code point, which is the byte order of UTF-8 strings

pub open spec fn chars_lt(a: Seq<char>, b: Seq<char>) -> bool
    decreases a.len(),
{
    if a.len() == 0 {
        b.len() > 0
    } else if b.len() == 0 {
        false
    } else if a[0] == b[0] {
        chars_lt(a.drop_first(), b.drop_first())
    } else {
        (a[0] as u32) < (b[0] as u32)
    }
}

pub proof fn lemma_chars_lt_irreflexive(a: Seq<char>)
    ensures
        !chars_lt(a, a),
    decreases a.len(),
{
    if a.len() > 0 {
        lemma_chars_lt_irreflexive(a.drop_first());
    }
}

pub proof fn lemma_chars_lt_transitive(a: Seq<char>, b: Seq<char>, c: Seq<char>)
    requires
        chars_lt(a, b),
        chars_lt(b, c),
    ensures
        chars_lt(a, c),
    decreases a.len(),
{
    if a.len() > 0 && b.len() > 0 && c.len() > 0 {
        if a[0] == b[0] && b[0] == c[0] {
            lemma_chars_lt_transitive(a.drop_first(), b.drop_first(), c.drop_first());
        }
    }
}

pub proof fn lemma_chars_lt_total(a: Seq<char>, b: Seq<char>)
    ensures
        a == b || chars_lt(a, b) || chars_lt(b, a),
    decreases a.len(),
{
    if a.len() > 0 && b.len() > 0 {
        if a[0] == b[0] {
            lemma_chars_lt_total(a.drop_first(), b.drop_first());
            if a.drop_first() == b.drop_first() {
                assert(a =~= seq![a[0]] + a.drop_first());
                assert(b =~= seq![b[0]] + b.drop_first());
            }
        } else {
            vstd::utf8::char_u32_cast(a[0], a[0] as u32);
            vstd::utf8::char_u32_cast(b[0], b[0] as u32);
            assert((a[0] as u32) != (b[0] as u32));
        }
    } else if a.len() == 0 && b.len() == 0 {
        assert(a =~= b);
    }
}

/// Lexicographic "less than" by code point.
pub fn chars_less(a: &Vec<char>, b: &Vec<char>) -> (r: bool)
    ensures
        r == chars_lt(a@, b@),
{
    let mut i: usize = 0;
    assert(a@.skip(0) =~= a@);
    assert(b@.skip(0) =~= b@);
    while i < a.len() && i < b.len() && a[i] == b[i]
        invariant
            i <= a.len(),
            i <= b.len(),
            chars_lt(a@, b@) == chars_lt(a@.skip(i as int), b@.skip(i as int)),
        decreases a.len() - i,
    {
        assert(a@.skip(i as int).drop_first() =~= a@.skip(i + 1));
        assert(b@.skip(i as int).drop_first() =~= b@.skip(i + 1));
        i += 1;
    }
    if i == a.len() {
        i < b.len()
    } else if i == b.len() {
        false
    } else {
        (a[i] as u32) < (b[i] as u32)
    }
}

// ---------------------------------------------------------------------
// UTF-8 widths

/// `char::len_utf8`.
pub open spec fn utf8_width(c: char) -> nat {
    let u = c as u32;
    if u < 0x80 {
        1
    } else if u < 0x800 {
        2
    } else if u < 0x10000 {
        3
    } else {
        4
    }
}

/// Number of bytes in the UTF-8 encoding of `s` (`str::len`).
pub open spec fn utf8_len(s: Seq<char>) -> nat
    decreases s.len(),
{
    if s.len() == 0 {
        0
    } else {
        utf8_len(s.drop_last()) + utf8_width(s.last())
    }
}

pub fn utf8_width_exec(c: char) -> (r: u8)
    ensures
        r == utf8_width(c),
        1 <= r <= 4,
{
    let u = c as u32;
    if u < 0x80 {
        1
    } else if u < 0x800 {
        2
    } else if u < 0x10000 {
        3
    } else {
        4
    }
}

/// Proves that a longer prefix has a longer UTF-8 encoding.
pub proof fn lemma_utf8_len_prefix_strict(s: Seq<char>, i: int, j: int)
    requires
        0 <= i < j <= s.len(),
    ensures
        utf8_len(s.take(i)) < utf8_len(s.take(j)),
    decreases j - i,
{
    assert(s.take(j).drop_last() =~= s.take(j - 1));
    if i < j - 1 {
        lemma_utf8_len_prefix_strict(s, i, j - 1);
    }
}

/// The number of characters of `s` whose UTF-8 encoding is the first `b` bytes of
/// `s`, if `b` falls on a character boundary.
pub open spec fn char_pos_of_byte(s: Seq<char>, b: int) -> Option<int> {
    if exists|k: int| 0 <= k <= s.len() && utf8_len(#[trigger] s.take(k)) == b {
        Some(choose|k: int| 0 <= k <= s.len() && utf8_len(#[trigger] s.take(k)) == b)
    } else {
        None
    }
}

/// The character position of a byte offset, where one is.
pub proof fn lemma_char_pos_unique(s: Seq<char>, b: int, k: int)
    requires
        0 <= k <= s.len(),
        utf8_len(s.take(k)) == b,
    ensures
        char_pos_of_byte(s, b) == Some(k),
{
    let c = choose|k2: int| 0 <= k2 <= s.len() && utf8_len(#[trigger] s.take(k2)) == b;
    if c < k {
        lemma_utf8_len_prefix_strict(s, c, k);
    } else if k < c {
        lemma_utf8_len_prefix_strict(s, k, c);
    }
}

/// The character index whose byte offset in `s` is `b` (the slicing `&s[..b]`).
pub fn char_pos_of_byte_exec(s: &Vec<char>, b: u128) -> (r: Option<usize>)
    ensures
        r matches Some(k) ==> k <= s.len(),
        match r {
            Some(k) => char_pos_of_byte(s@, b as int) == Some(k as int),
            None => char_pos_of_byte(s@, b as int) is None,
        },
{
    let mut k: usize = 0;
    let mut acc: u128 = 0;
    while k < s.len() && acc < b
        invariant
            k <= s.len(),
            acc == utf8_len(s@.take(k as int)),
            acc <= 4 * k,
            forall|k2: int| 0 <= k2 < k ==> utf8_len(#[trigger] s@.take(k2)) < b,
        decreases s.len() - k,
    {
        assert(s@.take(k + 1).drop_last() =~= s@.take(k as int));
        let w = utf8_width_exec(s[k]);
        acc = acc + w as u128;
        k += 1;
    }
    if acc == b {
        proof {
            lemma_char_pos_unique(s@, b as int, k as int);
        }
        Some(k)
    } else {
        proof {
            assert forall|k2: int| 0 <= k2 <= s@.len() implies utf8_len(
                #[trigger] s@.take(k2),
            ) != b by {
                if k2 > k {
                    lemma_utf8_len_prefix_strict(s@, k as int, k2);
                    if k < s.len() {
                    } else {
                        assert(false);
                    }
                } else if k2 == k {
                }
            }
        }
        None
    }
}

/// Number of bytes in the UTF-8 encoding of `s[..k]`.
pub fn utf8_len_prefix(s: &Vec<char>, k: usize) -> (r: u128)
    requires
        k <= s.len(),
    ensures
        r == utf8_len(s@.take(k as int)),
{
    let mut i: usize = 0;
    let mut acc: u128 = 0;
    while i < k
        invariant
            k <= s.len(),
            i <= k,
            acc == utf8_len(s@.take(i as int)),
            acc <= 4 * i,
        decreases k - i,
    {
        assert(s@.take(i + 1).drop_last() =~= s@.take(i as int));
        let w = utf8_width_exec(s[i]);
        acc = acc + w as u128;
        i += 1;
    }
    acc
}

// ---------------------------------------------------------------------
// Unicode case mapping and character classes, from std

/// What `str::to_lowercase` returns for a string with the given characters.
pub uninterp spec fn unicode_lowercase(s: Seq<char>) -> Seq<char>;

/// What `char::is_alphanumeric` returns.
pub uninterp spec fn unicode_alphanumeric(c: char) -> bool;

/// Calls `str::to_lowercase`: the Unicode lowercase mapping of the whole string
/// (which, unlike a per-character mapping, treats a final sigma by its context).
/// The contract ties the result to the name `unicode_lowercase` and states two
/// plain cases: ASCII letters map as `to_ascii_lowercase` does (A–Z to a–z, other
/// ASCII characters unchanged), and CJK Unified Ideographs (U+4E00–U+9FFF), which
/// have no lowercase mapping, stay as they are; so a text of such characters only
/// is lowercased as `to_ascii_lowercase` does. The Unicode tables are not restated.
#[verifier::external_body]
pub(crate) fn to_unicode_lowercase(s: &Vec<char>) -> (r: Vec<char>)
    ensures
        r@ == unicode_lowercase(s@),
        (forall|i: int| 0 <= i < s@.len() ==> (#[trigger] s@[i] as u32) < 128 || (0x4E00 <= (s@[i] as u32)
            <= 0x9FFF)) ==> r@ == ascii_lowercase(s@),
{
    let text: String = s.iter().collect();
    text.to_lowercase().chars().collect()
}

/// Calls `char::is_alphanumeric` (Unicode `Alphabetic` or `Numeric`); the
/// contract ties the result to the name `unicode_alphanumeric` and states the
/// ASCII case: the ASCII letters and digits are alphanumeric, no other ASCII
/// character is.
#[verifier::external_body]
pub(crate) fn is_alphanumeric_char(c: char) -> (r: bool)
    ensures
        r == unicode_alphanumeric(c),
        (c as u32) < 128 ==> (r <==> ('a' <= c <= 'z' || 'A' <= c <= 'Z' || '0' <= c <= '9')),
{
    c.is_alphanumeric()
}

/// Index of the first occurrence of `c` (`str::find` with a char pattern).
pub open spec fn find_char(s: Seq<char>, c: char) -> Option<int>
    decreases s.len(),
{
    if s.len() == 0 {
        None
    } else if s[0] == c {
        Some(0)
    } else {
        match find_char(s.drop_first(), c) {
            Some(i) => Some(i + 1),
            None => None,
        }
    }
}

pub proof fn lemma_find_char_props(s: Seq<char>, c: char)
    ensures
        find_char(s, c) matches Some(i) ==> 0 <= i < s.len() && s[i] == c && forall|k: int|
            0 <= k < i ==> s[k] != c,
        find_char(s, c) is None ==> forall|k: int| 0 <= k < s.len() ==> s[k] != c,
    decreases s.len(),
{
    if s.len() > 0 && s[0] != c {
        lemma_find_char_props(s.drop_first(), c);
        if find_char(s.drop_first(), c) is None {
            assert forall|k: int| 0 <= k < s.len() implies s[k] != c by {
                if k > 0 {
                    assert(s[k] == s.drop_first()[k - 1]);
                }
            }
        } else {
            let i = find_char(s.drop_first(), c)->0;
            assert forall|k: int| 0 <= k < i + 1 implies s[k] != c by {
                if k > 0 {
                    assert(s[k] == s.drop_first()[k - 1]);
                }
            }
        }
    }
}

pub proof fn lemma_rfind_char_props(s: Seq<char>, c: char)
    ensures
        rfind_char(s, c) matches Some(i) ==> 0 <= i < s.len() && s[i] == c && forall|k: int|
            i < k < s.len() ==> s[k] != c,
        rfind_char(s, c) is None ==> forall|k: int| 0 <= k < s.len() ==> s[k] != c,
    decreases s.len(),
{
    if s.len() > 0 && s.last() != c {
        lemma_rfind_char_props(s.drop_last(), c);
        assert forall|k: int| 0 <= k < s.len() - 1 implies s[k] == s.drop_last()[k] by {}
    }
}

/// The occurrences of `c` in a concatenation are those of its two parts.
pub proof fn lemma_count_concat(a: Seq<char>, b: Seq<char>, c: char)
    ensures
        count_char(a + b, c) == count_char(a, c) + count_char(b, c),
    decreases b.len(),
{
    if b.len() == 0 {
        assert(a + b =~= a);
    } else {
        lemma_count_concat(a, b.drop_last(), c);
        assert((a + b).drop_last() =~= a + b.drop_last());
    }
}

/// A prefix or a suffix holds no more occurrences of `c` than the whole.
pub proof fn lemma_count_take_skip(s: Seq<char>, k: int, c: char)
    requires
        0 <= k <= s.len(),
    ensures
        count_char(s.take(k), c) + count_char(s.skip(k), c) == count_char(s, c),
{
    lemma_count_concat(s.take(k), s.skip(k), c);
    assert(s.take(k) + s.skip(k) =~= s);
}

/// Cutting at the last occurrence of `c` removes at least one `c`.
pub proof fn lemma_count_before_last(s: Seq<char>, c: char)
    requires
        rfind_char(s, c) is Some,
    ensures
        count_char(s.take(rfind_char(s, c)->0), c) < count_char(s, c),
{
    lemma_rfind_char_props(s, c);
    let i = rfind_char(s, c)->0;
    lemma_count_take_skip(s, i, c);
    lemma_count_concat(seq![c], s.skip(i + 1), c);
    assert(seq![c] + s.skip(i + 1) =~= s.skip(i));
    assert(seq![c].drop_last() =~= Seq::<char>::empty());
}

/// A text with an occurrence of `c` has a last one.
pub proof fn lemma_count_found(s: Seq<char>, c: char)
    requires
        count_char(s, c) > 0,
    ensures
        rfind_char(s, c) is Some,
    decreases s.len(),
{
    if s.len() > 0 && s.last() != c {
        lemma_count_found(s.drop_last(), c);
    }
}

/// Trimming characters of a set at the end keeps every character outside it.
pub proof fn lemma_trim_end_count(s: Seq<char>, set: CharSet, c: char)
    requires
        !in_set(set, c),
    ensures
        count_char(trim_end_by(s, set), c) == count_char(s, c),
    decreases s.len(),
{
    if s.len() > 0 && in_set(set, s.last()) {
        lemma_trim_end_count(s.drop_last(), set, c);
    }
}

/// Trimming at the end stops at the last character outside the set.
pub proof fn lemma_trim_end_keeps(s: Seq<char>, set: CharSet, j: int)
    requires
        0 <= j < s.len(),
        !in_set(set, s[j]),
    ensures
        trim_end_by(s, set).len() > j,
    decreases s.len(),
{
    if in_set(set, s.last()) {
        assert(j < s.len() - 1);
        lemma_trim_end_keeps(s.drop_last(), set, j);
    }
}

/// Trimming white space adds no occurrence of `c`.
pub proof fn lemma_trim_ws_count(s: Seq<char>, c: char)
    ensures
        count_char(trim_ws(s), c) <= count_char(s, c),
{
    let t = trim_start_by(s, CharSet::WhiteSpace);
    lemma_trim_start_props(s, CharSet::WhiteSpace);
    lemma_count_take_skip(s, s.len() - t.len(), c);
    lemma_trim_end_props(t, CharSet::WhiteSpace);
    lemma_count_take_skip(t, trim_ws(s).len() as int, c);
}

/// Index of the first occurrence of `c`.
pub fn find_char_exec(s: &Vec<char>, c: char) -> (r: Option<usize>)
    ensures
        match r {
            Some(i) => find_char(s@, c) == Some(i as int),
            None => find_char(s@, c) is None,
        },
{
    let mut i: usize = 0;
    while i < s.len()
        invariant
            i <= s.len(),
            forall|k: int| 0 <= k < i ==> s@[k] != c,
        decreases s.len() - i,
    {
        if s[i] == c {
            proof {
                lemma_find_char_props(s@, c);
            }
            return Some(i);
        }
        i += 1;
    }
    proof {
        lemma_find_char_props(s@, c);
    }
    None
}

/// The characters that `String::from_utf8_lossy` makes of the given bytes.
pub uninterp spec fn utf8_lossy(bytes: Seq<u8>) -> Seq<char>;

/// Calls `String::from_utf8_lossy`: invalid UTF-8 sequences become U+FFFD. The
/// contract ties the result to the name `utf8_lossy` and states what the
/// documentation promises of valid input: it is decoded unchanged.
#[verifier::external_body]
pub(crate) fn utf8_lossy_chars(bytes: &[u8]) -> (r: Vec<char>)
    ensures
        r@ == utf8_lossy(bytes@),
        vstd::utf8::valid_utf8(bytes@) ==> r@ == vstd::utf8::decode_utf8(bytes@),
{
    String::from_utf8_lossy(bytes).chars().collect()
}

/// The UTF-8 encoding of the characters.
pub fn utf8_bytes(v: &Vec<char>) -> (r: Vec<u8>)
    ensures
        r@ == vstd::utf8::encode_utf8(v@),
{
    let s = chars_to_string(v);
    let b = s.as_str().as_bytes();
    let mut out: Vec<u8> = Vec::new();
    let mut i: usize = 0;
    while i < b.len()
        invariant
            i <= b.len(),
            out@ == b@.take(i as int),
        decreases b.len() - i,
    {
        out.push(b[i]);
        i += 1;
        assert(out@ =~= b@.take(i as int));
    }
    assert(b@.take(b.len() as int) =~= b@);
    out
}

/// Proves that trimming twice is trimming once.
pub proof fn lemma_trim_ws_idempotent(s: Seq<char>)
    ensures
        trim_ws(trim_ws(s)) == trim_ws(s),
{
    let u = trim_start_by(s, CharSet::WhiteSpace);
    lemma_trim_start_props(s, CharSet::WhiteSpace);
    let t = trim_end_by(u, CharSet::WhiteSpace);
    lemma_trim_end_props(u, CharSet::WhiteSpace);
    if t.len() > 0 {
        assert(t[0] == u[0]);
    }
    assert(trim_start_by(t, CharSet::WhiteSpace) == t);
    assert(trim_end_by(t, CharSet::WhiteSpace) == t);
}

}
