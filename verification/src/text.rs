//! Character-level text primitives shared by the parsers of this crate.
//!
//! Text is handled as a sequence of Unicode scalar values. Every delimiter the
//! parsers look for is ASCII, so a position counted in characters finds the same
//! place as the byte offsets a `str` uses.
use vstd::prelude::*;

verus! {

/// The ASCII whitespace of `char::is_ascii_whitespace`: space, tab, line feed,
/// form feed and carriage return.
pub open spec fn spec_is_ascii_whitespace(c: char) -> bool {
    c == ' ' || c == '\t' || c == '\n' || c == '\x0C' || c == '\r'
}

/// The Unicode `White_Space` property, as `char::is_whitespace` tests it.
pub open spec fn spec_is_whitespace(c: char) -> bool {
    let u = c as u32;
    ||| (0x09 <= u && u <= 0x0D)
    ||| u == 0x20
    ||| u == 0x85
    ||| u == 0xA0
    ||| u == 0x1680
    ||| (0x2000 <= u && u <= 0x200A)
    ||| u == 0x2028
    ||| u == 0x2029
    ||| u == 0x202F
    ||| u == 0x205F
    ||| u == 0x3000
}

pub open spec fn spec_is_ascii_alphabetic(c: char) -> bool {
    ('a' <= c && c <= 'z') || ('A' <= c && c <= 'Z')
}

pub open spec fn spec_is_ascii_alphanumeric(c: char) -> bool {
    spec_is_ascii_alphabetic(c) || ('0' <= c && c <= '9')
}

/// `char::to_ascii_lowercase`.
pub open spec fn spec_to_ascii_lowercase(c: char) -> char {
    if 'A' <= c && c <= 'Z' {
        ((c as u32) + 32) as char
    } else {
        c
    }
}

/// `eq_ignore_ascii_case` on character sequences.
pub open spec fn spec_eq_ignore_ascii_case(a: Seq<char>, b: Seq<char>) -> bool {
    &&& a.len() == b.len()
    &&& forall|i: int|
        0 <= i < a.len() ==> spec_to_ascii_lowercase(#[trigger] a[i]) == spec_to_ascii_lowercase(
            b[i],
        )
}

pub open spec fn spec_lowercase(s: Seq<char>) -> Seq<char> {
    Seq::new(s.len(), |i: int| spec_to_ascii_lowercase(s[i]))
}

pub fn is_ascii_whitespace(c: char) -> (r: bool)
    ensures
        r == spec_is_ascii_whitespace(c),
{
    c == ' ' || c == '\t' || c == '\n' || c == '\x0C' || c == '\r'
}

pub fn is_whitespace(c: char) -> (r: bool)
    ensures
        r == spec_is_whitespace(c),
{
    let u = c as u32;
    (0x09 <= u && u <= 0x0D) || u == 0x20 || u == 0x85 || u == 0xA0 || u == 0x1680 || (0x2000
        <= u && u <= 0x200A) || u == 0x2028 || u == 0x2029 || u == 0x202F || u == 0x205F || u
        == 0x3000
}

pub fn is_ascii_alphabetic(c: char) -> (r: bool)
    ensures
        r == spec_is_ascii_alphabetic(c),
{
    ('a' <= c && c <= 'z') || ('A' <= c && c <= 'Z')
}

pub fn is_ascii_alphanumeric(c: char) -> (r: bool)
    ensures
        r == spec_is_ascii_alphanumeric(c),
{
    is_ascii_alphabetic(c) || ('0' <= c && c <= '9')
}

pub fn to_ascii_lowercase(c: char) -> (r: char)
    ensures
        r == spec_to_ascii_lowercase(c),
{
    if 'A' <= c && c <= 'Z' {
        let u = (c as u32) + 32;
        assert(0x61 <= u <= 0x7A);
        char_from_ascii(u)
    } else {
        c
    }
}

fn char_from_ascii(u: u32) -> (c: char)
    requires
        0x61 <= u <= 0x7A,
    ensures
        c == u as char,
{
    let b: u8 = u as u8;
    b as char
}

/// The classes of characters that the scanners of this crate stop at.
#[derive(Clone, Copy, PartialEq, Eq, Debug)]
pub enum CharClass {
    /// One given character.
    Exact(char),
    /// `char::is_ascii_whitespace`.
    AsciiWhitespace,
    /// Anything but ASCII whitespace.
    NotAsciiWhitespace,
    /// `char::is_whitespace`.
    Whitespace,
    /// Anything but Unicode whitespace.
    NotWhitespace,
    /// The end of an HTML tag name: ASCII whitespace, `/` or `>`.
    TagNameEnd,
    /// The end of an HTML attribute name: ASCII whitespace, `=` or `/`.
    AttributeNameEnd,
    /// The end of an unquoted attribute value: ASCII whitespace or `>`.
    UnquotedValueEnd,
}

pub open spec fn in_class(cls: CharClass, c: char) -> bool {
    match cls {
        CharClass::Exact(x) => c == x,
        CharClass::AsciiWhitespace => spec_is_ascii_whitespace(c),
        CharClass::NotAsciiWhitespace => !spec_is_ascii_whitespace(c),
        CharClass::Whitespace => spec_is_whitespace(c),
        CharClass::NotWhitespace => !spec_is_whitespace(c),
        CharClass::TagNameEnd => spec_is_ascii_whitespace(c) || c == '/' || c == '>',
        CharClass::AttributeNameEnd => spec_is_ascii_whitespace(c) || c == '=' || c == '/',
        CharClass::UnquotedValueEnd => spec_is_ascii_whitespace(c) || c == '>',
    }
}

pub fn class_contains(cls: CharClass, c: char) -> (r: bool)
    ensures
        r == in_class(cls, c),
{
    match cls {
        CharClass::Exact(x) => c == x,
        CharClass::AsciiWhitespace => is_ascii_whitespace(c),
        CharClass::NotAsciiWhitespace => !is_ascii_whitespace(c),
        CharClass::Whitespace => is_whitespace(c),
        CharClass::NotWhitespace => !is_whitespace(c),
        CharClass::TagNameEnd => is_ascii_whitespace(c) || c == '/' || c == '>',
        CharClass::AttributeNameEnd => is_ascii_whitespace(c) || c == '=' || c == '/',
        CharClass::UnquotedValueEnd => is_ascii_whitespace(c) || c == '>',
    }
}

/// The first position at or after `start` whose character is in `cls`, or the
/// length of `s` when there is none.
pub open spec fn find_class(s: Seq<char>, start: int, cls: CharClass) -> int
    decreases s.len() - start,
{
    if start < 0 || start >= s.len() {
        s.len() as int
    } else if in_class(cls, s[start]) {
        start
    } else {
        find_class(s, start + 1, cls)
    }
}

/// What `find_class` returns, stated without recursion.
pub proof fn lemma_find_class(s: Seq<char>, start: int, cls: CharClass)
    requires
        0 <= start <= s.len(),
    ensures
        start <= find_class(s, start, cls) <= s.len(),
        forall|j: int| start <= j < find_class(s, start, cls) ==> !in_class(cls, #[trigger] s[j]),
        find_class(s, start, cls) < s.len() ==> in_class(cls, s[find_class(s, start, cls)]),
    decreases s.len() - start,
{
    if start < s.len() && !in_class(cls, s[start]) {
        lemma_find_class(s, start + 1, cls);
    }
}

/// `find_class` on a text behind a prefix is `find_class` on the text, moved
/// by the prefix's length.
pub proof fn lemma_find_class_shift(x: Seq<char>, y: Seq<char>, j: int, cls: CharClass)
    requires
        0 <= j <= y.len(),
    ensures
        find_class(x + y, x.len() + j, cls) == x.len() + find_class(y, j, cls),
    decreases y.len() - j,
{
    if j < y.len() {
        assert((x + y)[x.len() + j] == y[j]);
        if !in_class(cls, y[j]) {
            lemma_find_class_shift(x, y, j + 1, cls);
        }
    }
}

/// A position is what `find_class` returns when it meets the characterization.
pub proof fn lemma_find_class_is(s: Seq<char>, start: int, cls: CharClass, k: int)
    requires
        0 <= start <= k <= s.len(),
        forall|j: int| start <= j < k ==> !in_class(cls, #[trigger] s[j]),
        k < s.len() ==> in_class(cls, s[k]),
    ensures
        find_class(s, start, cls) == k,
    decreases k - start,
{
    if start < k {
        lemma_find_class_is(s, start + 1, cls, k);
    }
}

pub fn find_class_from(s: &Vec<char>, start: usize, cls: CharClass) -> (r: usize)
    requires
        start <= s.len(),
    ensures
        r == find_class(s@, start as int, cls),
        start <= r <= s.len(),
{
    let mut i = start;
    while i < s.len()
        invariant
            start <= i <= s.len(),
            find_class(s@, start as int, cls) == find_class(s@, i as int, cls),
        decreases s.len() - i,
    {
        if class_contains(cls, s[i]) {
            return i;
        }
        i = i + 1;
    }
    i
}

/// `pat` occurs in `s` at position `i`.
pub open spec fn matches_at(s: Seq<char>, i: int, pat: Seq<char>) -> bool {
    &&& 0 <= i
    &&& i + pat.len() <= s.len()
    &&& s.subrange(i, i + pat.len()) =~= pat
}

/// The first occurrence of `pat` in `s` at or after `start`.
pub open spec fn find_pat(s: Seq<char>, start: int, pat: Seq<char>) -> Option<int>
    decreases s.len() - start,
{
    if start < 0 || start + pat.len() > s.len() {
        None
    } else if matches_at(s, start, pat) {
        Some(start)
    } else {
        find_pat(s, start + 1, pat)
    }
}

/// `find_pat` on a text behind a prefix is `find_pat` on the text, moved by
/// the prefix's length.
pub proof fn lemma_find_pat_shift(x: Seq<char>, y: Seq<char>, j: int, pat: Seq<char>)
    requires
        0 <= j,
    ensures
        match find_pat(y, j, pat) {
            Some(k) => find_pat(x + y, x.len() + j, pat) == Some(x.len() + k),
            None => find_pat(x + y, x.len() + j, pat) is None,
        },
    decreases y.len() - j,
{
    if j + pat.len() <= y.len() {
        assert((x + y).subrange(x.len() + j, x.len() + j + pat.len()) =~= y.subrange(
            j,
            j + pat.len(),
        ));
        if !matches_at(y, j, pat) {
            lemma_find_pat_shift(x, y, j + 1, pat);
        }
    }
}

/// `find_pat` passes over positions where the pattern does not occur.
pub proof fn lemma_find_pat_skip(s: Seq<char>, i: int, m: int, pat: Seq<char>)
    requires
        0 <= i <= m,
        forall|j: int| i <= j < m ==> !#[trigger] matches_at(s, j, pat),
    ensures
        find_pat(s, i, pat) == find_pat(s, m, pat),
    decreases m - i,
{
    if i < m && i + pat.len() <= s.len() {
        assert(!matches_at(s, i, pat));
        lemma_find_pat_skip(s, i + 1, m, pat);
    }
}

pub proof fn lemma_find_pat(s: Seq<char>, start: int, pat: Seq<char>)
    requires
        0 <= start,
    ensures
        find_pat(s, start, pat) matches Some(k) ==> start <= k && matches_at(s, k, pat),
        find_pat(s, start, pat) matches Some(k) ==> forall|j: int|
            start <= j < k ==> !#[trigger] matches_at(s, j, pat),
        find_pat(s, start, pat) is None ==> forall|j: int|
            start <= j ==> !#[trigger] matches_at(s, j, pat),
    decreases s.len() - start,
{
    if start + pat.len() <= s.len() && !matches_at(s, start, pat) {
        lemma_find_pat(s, start + 1, pat);
    }
}

pub fn matches_at_exec(s: &Vec<char>, i: usize, pat: &Vec<char>) -> (r: bool)
    ensures
        r == matches_at(s@, i as int, pat@),
{
    if i > s.len() || pat.len() > s.len() - i {
        return false;
    }
    let mut k: usize = 0;
    while k < pat.len()
        invariant
            i + pat.len() <= s.len(),
            0 <= k <= pat.len(),
            forall|j: int| 0 <= j < k ==> s@[i + j] == pat@[j],
        decreases pat.len() - k,
    {
        if s[i + k] != pat[k] {
            assert(s@.subrange(i as int, i + pat.len())[k as int] != pat@[k as int]);
            return false;
        }
        k = k + 1;
    }
    assert(s@.subrange(i as int, i + pat.len()) =~= pat@);
    true
}

pub fn find_pat_from(s: &Vec<char>, start: usize, pat: &Vec<char>) -> (r: Option<usize>)
    ensures
        r is None <==> find_pat(s@, start as int, pat@) is None,
        r matches Some(k) ==> find_pat(s@, start as int, pat@) == Some(k as int),
        r matches Some(k) ==> start <= k && k + pat.len() <= s.len(),
{
    let mut i = start;
    while i <= s.len() && pat.len() <= s.len() - i
        invariant
            start <= i,
            find_pat(s@, start as int, pat@) == find_pat(s@, i as int, pat@),
        decreases s.len() + 1 - i,
    {
        if matches_at_exec(s, i, pat) {
            return Some(i);
        }
        i = i + 1;
    }
    None
}

/// `s` holds nothing but Unicode whitespace: `str::trim` leaves it empty.
pub open spec fn is_blank(s: Seq<char>) -> bool {
    find_class(s, 0, CharClass::NotWhitespace) == s.len()
}

pub fn is_blank_chars(s: &Vec<char>) -> (r: bool)
    ensures
        r == is_blank(s@),
{
    find_class_from(s, 0, CharClass::NotWhitespace) == s.len()
}

pub fn is_blank_str(s: &str) -> (r: bool)
    ensures
        r == is_blank(s@),
{
    let cs = chars_of(s);
    is_blank_chars(&cs)
}

/// The length that `str::trim_end` keeps of the first `end` characters.
pub open spec fn trim_end_len(s: Seq<char>, end: int) -> int
    decreases end,
{
    if end <= 0 || end > s.len() {
        0
    } else if !spec_is_whitespace(s[end - 1]) {
        end
    } else {
        trim_end_len(s, end - 1)
    }
}

/// `str::trim_start`.
pub open spec fn trim_start(s: Seq<char>) -> Seq<char> {
    s.subrange(find_class(s, 0, CharClass::NotWhitespace), s.len() as int)
}

/// `str::trim_end`.
pub open spec fn trim_end(s: Seq<char>) -> Seq<char> {
    s.subrange(0, trim_end_len(s, s.len() as int))
}

/// `str::trim`.
pub open spec fn trim(s: Seq<char>) -> Seq<char> {
    trim_end(trim_start(s))
}

pub proof fn lemma_trim_end_len(s: Seq<char>, end: int)
    requires
        0 <= end <= s.len(),
    ensures
        0 <= trim_end_len(s, end) <= end,
    decreases end,
{
    if end > 0 && spec_is_whitespace(s[end - 1]) {
        lemma_trim_end_len(s, end - 1);
    }
}

pub fn trim_start_chars(s: &Vec<char>) -> (r: Vec<char>)
    ensures
        r@ == trim_start(s@),
{
    let a = find_class_from(s, 0, CharClass::NotWhitespace);
    slice_chars(s, a, s.len())
}

pub fn trim_end_len_exec(s: &Vec<char>) -> (r: usize)
    ensures
        r == trim_end_len(s@, s.len() as int),
        r <= s.len(),
{
    let mut e = s.len();
    while e > 0 && is_whitespace(s[e - 1])
        invariant
            e <= s.len(),
            trim_end_len(s@, s.len() as int) == trim_end_len(s@, e as int),
        decreases e,
    {
        e = e - 1;
    }
    proof {
        lemma_trim_end_len(s@, e as int);
    }
    e
}

pub fn trim_chars(s: &Vec<char>) -> (r: Vec<char>)
    ensures
        r@ == trim(s@),
{
    let t = trim_start_chars(s);
    let e = trim_end_len_exec(&t);
    slice_chars(&t, 0, e)
}

/// The characters `s[from..to]`.
pub fn slice_chars(s: &Vec<char>, from: usize, to: usize) -> (r: Vec<char>)
    requires
        from <= to <= s.len(),
    ensures
        r@ == s@.subrange(from as int, to as int),
{
    let mut r: Vec<char> = Vec::new();
    let mut i = from;
    while i < to
        invariant
            from <= i <= to <= s.len(),
            r@ == s@.subrange(from as int, i as int),
        decreases to - i,
    {
        r.push(s[i]);
        proof {
            assert(s@.subrange(from as int, i + 1) =~= s@.subrange(from as int, i as int).push(
                s@[i as int],
            ));
        }
        i = i + 1;
    }
    r
}

/// Appends `s[from..to]` to `out`.
pub fn extend_chars(out: &mut Vec<char>, s: &Vec<char>, from: usize, to: usize)
    requires
        from <= to <= s.len(),
    ensures
        final(out)@ == old(out)@ + s@.subrange(from as int, to as int),
{
    let ghost start = out@;
    let mut i = from;
    while i < to
        invariant
            from <= i <= to <= s.len(),
            out@ == start + s@.subrange(from as int, i as int),
        decreases to - i,
    {
        out.push(s[i]);
        proof {
            assert(s@.subrange(from as int, i + 1) =~= s@.subrange(from as int, i as int).push(
                s@[i as int],
            ));
        }
        i = i + 1;
    }
}

/// Appends all of `s` to `out`.
pub fn extend_all(out: &mut Vec<char>, s: &Vec<char>)
    ensures
        final(out)@ == old(out)@ + s@,
{
    extend_chars(out, s, 0, s.len());
    proof {
        assert(s@.subrange(0, s@.len() as int) =~= s@);
    }
}

pub fn starts_with_chars(s: &Vec<char>, pat: &Vec<char>) -> (r: bool)
    ensures
        r == matches_at(s@, 0, pat@),
{
    matches_at_exec(s, 0, pat)
}

pub fn eq_ignore_ascii_case_chars(a: &Vec<char>, from: usize, to: usize, b: &Vec<char>) -> (r:
    bool)
    requires
        from <= to <= a.len(),
    ensures
        r == spec_eq_ignore_ascii_case(a@.subrange(from as int, to as int), b@),
{
    let ghost sub = a@.subrange(from as int, to as int);
    if to - from != b.len() {
        return false;
    }
    let mut k: usize = 0;
    while k < b.len()
        invariant
            from + b.len() == to <= a.len(),
            sub == a@.subrange(from as int, to as int),
            0 <= k <= b.len(),
            forall|j: int|
                0 <= j < k ==> spec_to_ascii_lowercase(#[trigger] sub[j])
                    == spec_to_ascii_lowercase(b@[j]),
        decreases b.len() - k,
    {
        if to_ascii_lowercase(a[from + k]) != to_ascii_lowercase(b[k]) {
            assert(sub[k as int] == a@[from + k]);
            return false;
        }
        assert(sub[k as int] == a@[from + k]);
        k = k + 1;
    }
    true
}

pub fn lowercase_chars(s: &Vec<char>) -> (r: Vec<char>)
    ensures
        r@ == spec_lowercase(s@),
{
    let mut r: Vec<char> = Vec::new();
    let mut i: usize = 0;
    while i < s.len()
        invariant
            i <= s.len(),
            r@ =~= spec_lowercase(s@.subrange(0, i as int)),
        decreases s.len() - i,
    {
        r.push(to_ascii_lowercase(s[i]));
        i = i + 1;
    }
    assert(s@.subrange(0, s@.len() as int) =~= s@);
    r
}

/// The characters of a string slice, in order.
pub fn chars_of(s: &str) -> (out: Vec<char>)
    ensures
        out@ == s@,
{
    let mut out: Vec<char> = Vec::new();
    for c in it: s.chars()
        invariant
            out@ == it.seq().take(it.index() as int),
    {
        out.push(c);
    }
    proof {
        assert(out@ =~= s@);
    }
    out
}

/// Appends one character to a `String`.
#[verifier::external_body]
pub(crate) fn push_char(s: &mut String, c: char)
    ensures
        final(s)@ == old(s)@.push(c),
{
    s.push(c);
}

/// The `String` made of the given characters.
pub fn string_from_chars(cs: &Vec<char>) -> (s: String)
    ensures
        s@ == cs@,
{
    let mut s = String::new();
    let mut i: usize = 0;
    while i < cs.len()
        invariant
            i <= cs.len(),
            s@ =~= cs@.subrange(0, i as int),
        decreases cs.len() - i,
    {
        push_char(&mut s, cs[i]);
        i = i + 1;
    }
    proof {
        assert(cs@.subrange(0, cs@.len() as int) =~= cs@);
    }
    s
}

/// The `String` holding `s[from..to]`.
pub fn string_from_range(s: &Vec<char>, from: usize, to: usize) -> (r: String)
    requires
        from <= to <= s.len(),
    ensures
        r@ == s@.subrange(from as int, to as int),
{
    let v = slice_chars(s, from, to);
    string_from_chars(&v)
}

pub open spec fn char_vecs_view(v: Seq<Vec<char>>) -> Seq<Seq<char>> {
    v.map_values(|x: Vec<char>| x@)
}

pub open spec fn strings_view(v: Seq<String>) -> Seq<Seq<char>> {
    v.map_values(|s: String| s@)
}


/// The end of the line that starts at `i`, its line feed included.
pub open spec fn line_end(s: Seq<char>, i: int) -> int {
    let k = find_class(s, i, CharClass::Exact('\n'));
    if k < s.len() {
        k + 1
    } else {
        s.len() as int
    }
}

/// The length of a line without its ending (`\r\n` or `\n`).
pub open spec fn content_len(line: Seq<char>) -> int {
    if line.len() >= 2 && line[line.len() - 2] == '\r' && line[line.len() - 1] == '\n' {
        line.len() - 2
    } else if line.len() >= 1 && line[line.len() - 1] == '\n' {
        line.len() - 1
    } else {
        line.len() as int
    }
}


pub fn chars_eq(a: &Vec<char>, b: &Vec<char>) -> (r: bool)
    ensures
        r == (a@ == b@),
{
    if a.len() != b.len() {
        return false;
    }
    let mut i: usize = 0;
    while i < a.len()
        invariant
            a.len() == b.len(),
            i <= a.len(),
            forall|j: int| 0 <= j < i ==> a@[j] == b@[j],
        decreases a.len() - i,
    {
        if a[i] != b[i] {
            return false;
        }
        i = i + 1;
    }
    assert(a@ =~= b@);
    true
}


pub open spec fn contains_char(s: Seq<char>, c: char) -> bool {
    find_class(s, 0, CharClass::Exact(c)) < s.len()
}


pub fn contains(s: &Vec<char>, c: char) -> (r: bool)
    ensures
        r == contains_char(s@, c),
{
    find_class_from(s, 0, CharClass::Exact(c)) < s.len()
}


/// The pieces of `s` between the occurrences of `c`, from position `i` on, as
/// `str::split` gives them.
pub open spec fn split_from(s: Seq<char>, i: int, c: char) -> Seq<Seq<char>>
    decreases s.len() - i,
{
    if i < 0 || i > s.len() {
        seq![]
    } else {
        let k = find_class(s, i, CharClass::Exact(c));
        proof {
            lemma_find_class(s, i, CharClass::Exact(c));
        }
        if k >= s.len() {
            seq![s.subrange(i, s.len() as int)]
        } else {
            seq![s.subrange(i, k)] + split_from(s, k + 1, c)
        }
    }
}

/// A path segment that `Path::components` drops: empty, or `.`.
pub open spec fn is_skipped_segment(seg: Seq<char>) -> bool {
    seg.len() == 0 || seg == seq!['.']
}

/// The segments of a path that are named components, in order.
pub open spec fn normal_parts(segs: Seq<Seq<char>>) -> Seq<Seq<char>>
    decreases segs.len(),
{
    if segs.len() == 0 {
        seq![]
    } else {
        (if is_skipped_segment(segs[0]) {
            seq![]
        } else {
            seq![segs[0]]
        }) + normal_parts(segs.drop_first())
    }
}

pub open spec fn has_parent_segment(segs: Seq<Seq<char>>) -> bool {
    exists|k: int| 0 <= k < segs.len() && segs[k] == seq!['.', '.']
}


pub fn split_chars(s: &Vec<char>, c: char) -> (r: Vec<Vec<char>>)
    ensures
        char_vecs_view(r@) == split_from(s@, 0, c),
{
    let mut out: Vec<Vec<char>> = Vec::new();
    let mut i: usize = 0;
    loop
        invariant
            i <= s.len(),
            split_from(s@, 0, c) == char_vecs_view(out@) + split_from(s@, i as int, c),
        decreases s.len() - i,
    {
        let ghost before = char_vecs_view(out@);
        let k = find_class_from(s, i, CharClass::Exact(c));
        if k >= s.len() {
            let piece = slice_chars(s, i, s.len());
            out.push(piece);
            proof {
                assert(char_vecs_view(out@) =~= before + seq![s@.subrange(i as int, s@.len() as int)]);
            }
            return out;
        }
        let piece = slice_chars(s, i, k);
        out.push(piece);
        proof {
            assert(char_vecs_view(out@) =~= before + seq![s@.subrange(i as int, k as int)]);
        }
        i = k + 1;
    }
}



/// The pieces joined with `sep` between each two, as `[String]::join` does.
pub open spec fn join_with(v: Seq<Seq<char>>, sep: Seq<char>) -> Seq<char>
    decreases v.len(),
{
    if v.len() == 0 {
        seq![]
    } else if v.len() == 1 {
        v[0]
    } else {
        join_with(v.drop_last(), sep) + sep + v.last()
    }
}

/// `[String]::join`.
pub fn join_strings(v: &Vec<String>, sep: &str) -> (r: String)
    ensures
        r@ == join_with(strings_view(v@), sep@),
{
    let ghost all = strings_view(v@);
    let mut r = String::new();
    let mut i: usize = 0;
    while i < v.len()
        invariant
            i <= v.len(),
            all == strings_view(v@),
            r@ == join_with(all.take(i as int), sep@),
        decreases v.len() - i,
    {
        proof {
            assert(all.take(i + 1).drop_last() =~= all.take(i as int));
            assert(all.take(i + 1).last() == v@[i as int]@);
        }
        if i > 0 {
            r.append(sep);
        } else {
            assert(all.take(1) =~= seq![v@[0]@]);
        }
        r.append(v[i].as_str());
        i = i + 1;
    }
    assert(all.take(v.len() as int) =~= all);
    r
}

} // verus!
