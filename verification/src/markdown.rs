//! Image references in article Markdown: finding them, checking that they point
//! at supported image files inside the article directory, and rewriting their
//! sources.
use crate::text::{
    char_vecs_view, chars_eq, chars_of, contains, contains_char, content_len,
    eq_ignore_ascii_case_chars, extend_all, extend_chars, find_class, find_class_from, find_pat,
    find_pat_from, has_parent_segment, is_ascii_alphabetic, is_blank, is_blank_chars,
    is_skipped_segment, lemma_find_class, lemma_find_class_is, lemma_find_class_shift,
    lemma_find_pat, lemma_find_pat_shift, lemma_find_pat_skip, line_end, lowercase_chars, matches_at,
    matches_at_exec, normal_parts, slice_chars, spec_eq_ignore_ascii_case,
    spec_is_ascii_alphabetic, spec_is_whitespace, spec_lowercase, spec_to_ascii_lowercase, split_chars, split_from, starts_with_chars,
    string_from_chars, strings_view, trim, trim_chars, trim_start, trim_start_chars, CharClass,
};
use vstd::prelude::*;

verus! {

// ---------------------------------------------------------------------------
// HTML tag scanning
// ---------------------------------------------------------------------------

/// `skip_whitespace`: the first position at or after `i` that is not ASCII
/// whitespace.
pub open spec fn skip_ws(s: Seq<char>, i: int) -> int {
    find_class(s, i, CharClass::NotAsciiWhitespace)
}

/// `read_tag_name_end`.
pub open spec fn tag_name_end(s: Seq<char>, i: int) -> int {
    find_class(s, i, CharClass::TagNameEnd)
}

/// `find_tag_end`: the position of the `>` that closes a tag, skipping quoted
/// attribute values; `quote` is the quote character currently open.
pub open spec fn tag_end_from(s: Seq<char>, i: int, quote: Option<char>) -> Option<int>
    decreases s.len() - i,
{
    if i < 0 || i >= s.len() {
        None
    } else {
        let c = s[i];
        match quote {
            Some(q) => if q == c {
                tag_end_from(s, i + 1, None)
            } else {
                tag_end_from(s, i + 1, quote)
            },
            None => if c == '"' || c == '\'' {
                tag_end_from(s, i + 1, Some(c))
            } else if c == '>' {
                Some(i)
            } else {
                tag_end_from(s, i + 1, None)
            },
        }
    }
}

pub proof fn lemma_tag_end_from(s: Seq<char>, i: int, quote: Option<char>)
    requires
        0 <= i,
    ensures
        tag_end_from(s, i, quote) matches Some(k) ==> i <= k < s.len() && s[k] == '>',
    decreases s.len() - i,
{
    if 0 <= i < s.len() {
        lemma_tag_end_from(s, i + 1, None);
        lemma_tag_end_from(s, i + 1, quote);
        lemma_tag_end_from(s, i + 1, Some(s[i]));
    }
}

/// The value of an attribute that starts at `i`: the range `(start, end)` of
/// its text and the position after it. A quoted value runs to the matching
/// quote, or to the end of the text when there is none; an unquoted value runs
/// to ASCII whitespace or `>`.
pub open spec fn attr_value_range(s: Seq<char>, i: int) -> (int, int, int) {
    if i >= s.len() {
        (i, i, i)
    } else if s[i] == '"' || s[i] == '\'' {
        let k = find_class(s, i + 1, CharClass::Exact(s[i]));
        if k >= s.len() {
            (i + 1, s.len() as int, s.len() as int)
        } else {
            (i + 1, k, k + 1)
        }
    } else {
        let e = find_class(s, i, CharClass::UnquotedValueEnd);
        (i, e, e)
    }
}

pub proof fn lemma_attr_value_range(s: Seq<char>, i: int)
    requires
        0 <= i <= s.len(),
    ensures
        ({
            let (vs, ve, next) = attr_value_range(s, i);
            i <= vs <= ve <= next <= s.len()
        }),
{
    if i < s.len() {
        if s[i] == '"' || s[i] == '\'' {
            lemma_find_class(s, i + 1, CharClass::Exact(s[i]));
        } else {
            lemma_find_class(s, i, CharClass::UnquotedValueEnd);
        }
    }
}

pub open spec fn src_name() -> Seq<char> {
    seq!['s', 'r', 'c']
}

pub open spec fn img_name() -> Seq<char> {
    seq!['i', 'm', 'g']
}

/// `read_src_attribute`: the value of the first `src` attribute in the
/// attribute text `s`, scanning from `i`.
pub open spec fn src_attr_from(s: Seq<char>, i: int) -> Option<Seq<char>>
    decreases s.len() - i,
{
    if i < 0 || i >= s.len() {
        None
    } else {
        let j = skip_ws(s, i);
        if j >= s.len() {
            None
        } else {
            let ne = find_class(s, j, CharClass::AttributeNameEnd);
            if ne <= j {
                proof {
                    lemma_find_class(s, i, CharClass::NotAsciiWhitespace);
                }
                src_attr_from(s, j + 1)
            } else {
                let k = skip_ws(s, ne);
                proof {
                    lemma_find_class(s, i, CharClass::NotAsciiWhitespace);
                    lemma_find_class(s, j, CharClass::AttributeNameEnd);
                    lemma_find_class(s, ne, CharClass::NotAsciiWhitespace);
                }
                if !matches_at(s, k, seq!['=']) {
                    src_attr_from(s, k)
                } else {
                    let m = skip_ws(s, k + 1);
                    let (vs, ve, next) = attr_value_range(s, m);
                    proof {
                        lemma_find_class(s, k + 1, CharClass::NotAsciiWhitespace);
                        lemma_attr_value_range(s, m);
                    }
                    if spec_eq_ignore_ascii_case(s.subrange(j, ne), src_name()) {
                        Some(s.subrange(vs, ve))
                    } else {
                        src_attr_from(s, next)
                    }
                }
            }
        }
    }
}

/// `html_img_sources`: the `src` values of the `<img>` tags of an HTML
/// fragment, in order, scanning from `i`.
pub open spec fn img_sources_from(s: Seq<char>, i: int) -> Seq<Seq<char>>
    decreases s.len() - i,
{
    if i < 0 || i >= s.len() {
        seq![]
    } else {
        let ts = find_class(s, i, CharClass::Exact('<'));
        proof {
            lemma_find_class(s, i, CharClass::Exact('<'));
        }
        if ts >= s.len() {
            seq![]
        } else {
            let tns = ts + 1;
            if tns >= s.len() || s[tns] == '/' {
                img_sources_from(s, tns)
            } else {
                let tne = tag_name_end(s, tns);
                proof {
                    lemma_find_class(s, tns, CharClass::TagNameEnd);
                }
                if !spec_eq_ignore_ascii_case(s.subrange(tns, tne), img_name()) {
                    img_sources_from(s, tne)
                } else {
                    proof {
                        lemma_tag_end_from(s, tne, None);
                    }
                    match tag_end_from(s, tne, None) {
                        None => seq![],
                        Some(te) => {
                            let found = match src_attr_from(s.subrange(tne, te), 0) {
                                Some(v) => seq![v],
                                None => seq![],
                            };
                            found + img_sources_from(s, te + 1)
                        },
                    }
                }
            }
        }
    }
}

fn skip_whitespace(text: &Vec<char>, index: usize) -> (r: usize)
    requires
        index <= text.len(),
    ensures
        r == skip_ws(text@, index as int),
        index <= r <= text.len(),
{
    find_class_from(text, index, CharClass::NotAsciiWhitespace)
}

fn read_tag_name_end(html: &Vec<char>, start: usize) -> (r: usize)
    requires
        start <= html.len(),
    ensures
        r == tag_name_end(html@, start as int),
        start <= r <= html.len(),
{
    find_class_from(html, start, CharClass::TagNameEnd)
}

fn find_tag_end(html: &Vec<char>, start: usize) -> (r: Option<usize>)
    requires
        start <= html.len(),
    ensures
        r is None <==> tag_end_from(html@, start as int, None) is None,
        r matches Some(k) ==> tag_end_from(html@, start as int, None) == Some(k as int),
{
    let mut quote: Option<char> = None;
    let mut i = start;
    while i < html.len()
        invariant
            start <= i <= html.len(),
            tag_end_from(html@, start as int, None) == tag_end_from(html@, i as int, quote),
        decreases html.len() - i,
    {
        let c = html[i];
        match quote {
            Some(q) => {
                if q == c {
                    quote = None;
                }
            },
            None => {
                if c == '"' || c == '\'' {
                    quote = Some(c);
                } else if c == '>' {
                    return Some(i);
                }
            },
        }
        i = i + 1;
    }
    None
}

fn read_attribute_value_range(text: &Vec<char>, index: usize) -> (r: (usize, usize, usize))
    requires
        index <= text.len(),
    ensures
        r.0 as int == attr_value_range(text@, index as int).0,
        r.1 as int == attr_value_range(text@, index as int).1,
        r.2 as int == attr_value_range(text@, index as int).2,
        index <= r.0 <= r.1 <= r.2 <= text.len(),
{
    proof {
        lemma_attr_value_range(text@, index as int);
    }
    if index >= text.len() {
        return (index, index, index);
    }
    let first = text[index];
    if first == '"' || first == '\'' {
        let k = find_class_from(text, index + 1, CharClass::Exact(first));
        if k >= text.len() {
            (index + 1, text.len(), text.len())
        } else {
            (index + 1, k, k + 1)
        }
    } else {
        let e = find_class_from(text, index, CharClass::UnquotedValueEnd);
        (index, e, e)
    }
}

/// `read_attribute_value`: the value of the attribute that starts at `index`
/// and the position after it.
fn read_attribute_value(attributes: &Vec<char>, index: usize) -> (r: (Vec<char>, usize))
    requires
        index <= attributes.len(),
    ensures
        ({
            let (vs, ve, next) = attr_value_range(attributes@, index as int);
            r.0@ == attributes@.subrange(vs, ve) && r.1 as int == next
        }),
        index <= r.1 <= attributes.len(),
{
    let (vs, ve, next) = read_attribute_value_range(attributes, index);
    (slice_chars(attributes, vs, ve), next)
}

fn read_src_attribute(s: &Vec<char>) -> (r: Option<Vec<char>>)
    ensures
        r is None <==> src_attr_from(s@, 0) is None,
        r matches Some(v) ==> src_attr_from(s@, 0) == Some(v@),
{
    let src = vec!['s', 'r', 'c'];
    let eq = vec!['='];
    let mut index: usize = 0;
    while index < s.len()
        invariant
            index <= s.len(),
            src@ == src_name(),
            eq@ == seq!['='],
            src_attr_from(s@, 0) == src_attr_from(s@, index as int),
        decreases s.len() - index,
    {
        let j = skip_whitespace(s, index);
        if j >= s.len() {
            return None;
        }
        let ne = find_class_from(s, j, CharClass::AttributeNameEnd);
        if ne <= j {
            index = j + 1;
            continue;
        }
        let k = skip_whitespace(s, ne);
        if !matches_at_exec(s, k, &eq) {
            index = k;
            continue;
        }
        let m = skip_whitespace(s, k + 1);
        let (value, next) = read_attribute_value(s, m);
        if eq_ignore_ascii_case_chars(s, j, ne, &src) {
            return Some(value);
        }
        index = next;
    }
    None
}

/// `html_img_sources`.
fn html_img_sources(s: &Vec<char>) -> (r: Vec<Vec<char>>)
    ensures
        char_vecs_view(r@) == img_sources_from(s@, 0),
{
    let img = vec!['i', 'm', 'g'];
    let mut sources: Vec<Vec<char>> = Vec::new();
    let mut index: usize = 0;
    while index < s.len()
        invariant
            index <= s.len(),
            img@ == img_name(),
            img_sources_from(s@, 0) == char_vecs_view(sources@) + img_sources_from(
                s@,
                index as int,
            ),
        decreases s.len() - index,
    {
        let ghost before = char_vecs_view(sources@);
        let ts = find_class_from(s, index, CharClass::Exact('<'));
        if ts >= s.len() {
            proof {
                assert(img_sources_from(s@, index as int) =~= seq![]);
                assert(before + seq![] =~= before);
            }
            return sources;
        }
        let tns = ts + 1;
        if tns >= s.len() || s[tns] == '/' {
            index = tns;
            continue;
        }
        let tne = read_tag_name_end(s, tns);
        if !eq_ignore_ascii_case_chars(s, tns, tne, &img) {
            index = tne;
            continue;
        }
        match find_tag_end(s, tne) {
            None => {
                proof {
                    assert(before + seq![] =~= before);
                }
                return sources;
            },
            Some(te) => {
                proof {
                    lemma_tag_end_from(s@, tne as int, None);
                }
                let attrs = slice_chars(s, tne, te);
                match read_src_attribute(&attrs) {
                    Some(v) => {
                        sources.push(v);
                        proof {
                            assert(char_vecs_view(sources@) =~= before + seq![v@]);
                            assert(before + (seq![v@] + img_sources_from(s@, te + 1)) =~= (before
                                + seq![v@]) + img_sources_from(s@, te + 1));
                        }
                    },
                    None => {
                        proof {
                            assert(seq![] + img_sources_from(s@, te + 1) =~= img_sources_from(
                                s@,
                                te + 1,
                            ));
                        }
                    },
                }
                index = te + 1;
            },
        }
    }
    proof {
        assert(img_sources_from(s@, index as int) =~= seq![]);
        assert(char_vecs_view(sources@) + seq![] =~= char_vecs_view(sources@));
    }
    sources
}


// ---------------------------------------------------------------------------
// Rewriting image sources
// ---------------------------------------------------------------------------

/// The replacement pairs `(from, to)` as character sequences.
pub open spec fn pairs_view(reps: Seq<(String, String)>) -> Seq<(Seq<char>, Seq<char>)> {
    reps.map_values(|p: (String, String)| (p.0@, p.1@))
}

/// `replacement_for`: the target of the first pair whose source is `source`.
pub open spec fn replacement_of(source: Seq<char>, reps: Seq<(Seq<char>, Seq<char>)>) -> Option<
    Seq<char>,
>
    decreases reps.len(),
{
    if reps.len() == 0 {
        None
    } else if reps[0].0 == source {
        Some(reps[0].1)
    } else {
        replacement_of(source, reps.drop_first())
    }
}

pub open spec fn image_prefix() -> Seq<char> {
    seq!['!', '[']
}

pub open spec fn label_suffix() -> Seq<char> {
    seq![']', '(']
}

/// `markdown_destination_parts`: a Markdown image destination split at its
/// first whitespace into the path and the rest (such as a title).
pub open spec fn destination_split(d: Seq<char>) -> int {
    find_class(d, 0, CharClass::Whitespace)
}

/// The text of a Markdown image destination after replacement.
pub open spec fn replaced_destination(src: Seq<char>, reps: Seq<(Seq<char>, Seq<char>)>) -> Seq<
    char,
> {
    let k = destination_split(src);
    match replacement_of(src.subrange(0, k), reps) {
        Some(r) => r + src.subrange(k, src.len() as int),
        None => src,
    }
}

/// `replace_markdown_image_sources_in_line`, from position `i` of the line:
/// each `![label](destination)` has the path of its destination replaced.
pub open spec fn md_replace_from(s: Seq<char>, i: int, reps: Seq<(Seq<char>, Seq<char>)>) -> Seq<
    char,
>
    decreases s.len() - i,
{
    if i < 0 || i > s.len() {
        seq![]
    } else {
        match find_pat(s, i, image_prefix()) {
            None => s.subrange(i, s.len() as int),
            Some(st) => match find_pat(s, st + 2, label_suffix()) {
                None => s.subrange(i, s.len() as int),
                Some(le) => {
                    let ss = le + 2;
                    let se = find_class(s, ss, CharClass::Exact(')'));
                    proof {
                        lemma_find_pat(s, i, image_prefix());
                        lemma_find_pat(s, st + 2, label_suffix());
                        lemma_find_class(s, ss, CharClass::Exact(')'));
                    }
                    if se >= s.len() {
                        s.subrange(i, s.len() as int)
                    } else {
                        s.subrange(i, ss) + replaced_destination(s.subrange(ss, se), reps) + seq![
                            ')',
                        ] + md_replace_from(s, se + 1, reps)
                    }
                },
            },
        }
    }
}

/// `find_src_attribute_value`, scanning the tag text `t` from `i`: the range
/// of the value of its first `src` attribute.
pub open spec fn src_range_from(t: Seq<char>, i: int) -> Option<(int, int)>
    decreases t.len() - i,
{
    if i < 0 || i >= t.len() {
        None
    } else {
        let j = skip_ws(t, i);
        proof {
            lemma_find_class(t, i, CharClass::NotAsciiWhitespace);
        }
        if j >= t.len() || t[j] == '>' {
            None
        } else {
            let ne = find_class(t, j, CharClass::AttributeNameEnd);
            if ne <= j {
                src_range_from(t, j + 1)
            } else {
                let k = skip_ws(t, ne);
                proof {
                    lemma_find_class(t, j, CharClass::AttributeNameEnd);
                    lemma_find_class(t, ne, CharClass::NotAsciiWhitespace);
                }
                if !matches_at(t, k, seq!['=']) {
                    src_range_from(t, k)
                } else {
                    let m = skip_ws(t, k + 1);
                    let (vs, ve, next) = attr_value_range(t, m);
                    proof {
                        lemma_find_class(t, k + 1, CharClass::NotAsciiWhitespace);
                        lemma_attr_value_range(t, m);
                    }
                    if spec_eq_ignore_ascii_case(t.subrange(j, ne), src_name()) {
                        Some((vs, ve))
                    } else {
                        src_range_from(t, next)
                    }
                }
            }
        }
    }
}

pub proof fn lemma_src_range_from(t: Seq<char>, i: int)
    requires
        0 <= i,
    ensures
        src_range_from(t, i) matches Some((vs, ve)) ==> 0 <= vs <= ve <= t.len(),
    decreases t.len() - i,
{
    if i < t.len() {
        let j = skip_ws(t, i);
        lemma_find_class(t, i, CharClass::NotAsciiWhitespace);
        if j < t.len() && t[j] != '>' {
            let ne = find_class(t, j, CharClass::AttributeNameEnd);
            lemma_find_class(t, j, CharClass::AttributeNameEnd);
            if ne <= j {
                lemma_src_range_from(t, j + 1);
            } else {
                let k = skip_ws(t, ne);
                lemma_find_class(t, ne, CharClass::NotAsciiWhitespace);
                if !matches_at(t, k, seq!['=']) {
                    lemma_src_range_from(t, k);
                } else {
                    let m = skip_ws(t, k + 1);
                    lemma_find_class(t, k + 1, CharClass::NotAsciiWhitespace);
                    lemma_attr_value_range(t, m);
                    let (vs, ve, next) = attr_value_range(t, m);
                    lemma_src_range_from(t, next);
                }
            }
        }
    }
}

/// The `src` value range of a whole tag `<name ...>`, scanned after its name.
pub open spec fn src_range_in_tag(t: Seq<char>) -> Option<(int, int)> {
    if t.len() < 1 {
        None
    } else {
        src_range_from(t, tag_name_end(t, 1))
    }
}

/// A whole `<img ...>` tag after replacement of its `src` value.
pub open spec fn replaced_tag(tag: Seq<char>, reps: Seq<(Seq<char>, Seq<char>)>) -> Seq<char> {
    match src_range_in_tag(tag) {
        Some((vs, ve)) => {
            let v = tag.subrange(vs, ve);
            let r = match replacement_of(v, reps) {
                Some(r) => r,
                None => v,
            };
            tag.subrange(0, vs) + r + tag.subrange(ve, tag.len() as int)
        },
        None => tag,
    }
}

/// `replace_html_image_sources_in_line`, from position `i` of the line.
pub open spec fn html_replace_from(s: Seq<char>, i: int, reps: Seq<(Seq<char>, Seq<char>)>) -> Seq<
    char,
>
    decreases s.len() - i,
{
    if i < 0 || i >= s.len() {
        seq![]
    } else {
        let ts = find_class(s, i, CharClass::Exact('<'));
        proof {
            lemma_find_class(s, i, CharClass::Exact('<'));
        }
        if ts >= s.len() {
            s.subrange(i, s.len() as int)
        } else {
            let tns = ts + 1;
            if tns >= s.len() || s[tns] == '/' {
                s.subrange(i, tns) + html_replace_from(s, tns, reps)
            } else {
                let tne = tag_name_end(s, tns);
                proof {
                    lemma_find_class(s, tns, CharClass::TagNameEnd);
                }
                if !spec_eq_ignore_ascii_case(s.subrange(tns, tne), img_name()) {
                    s.subrange(i, tne) + html_replace_from(s, tne, reps)
                } else {
                    proof {
                        lemma_tag_end_from(s, tne, None);
                    }
                    match tag_end_from(s, tne, None) {
                        None => s.subrange(i, s.len() as int),
                        Some(te) => s.subrange(i, ts) + replaced_tag(s.subrange(ts, te + 1), reps)
                            + html_replace_from(s, te + 1, reps),
                    }
                }
            }
        }
    }
}

/// `replace_image_sources_in_line`.
pub open spec fn replace_line(s: Seq<char>, reps: Seq<(Seq<char>, Seq<char>)>) -> Seq<char> {
    html_replace_from(md_replace_from(s, 0, reps), 0, reps)
}

/// `is_fence_line`: the line opens or closes a fenced code block.
pub open spec fn is_fence(content: Seq<char>) -> bool {
    let t = trim_start(content);
    matches_at(t, 0, seq!['`', '`', '`']) || matches_at(t, 0, seq!['~', '~', '~'])
}

/// `replace_image_sources` from position `i`, `in_fence` telling whether a
/// fenced code block is open there. Lines inside fenced code blocks, and the
/// fences themselves, are kept as they are.
pub open spec fn replace_doc_from(
    s: Seq<char>,
    i: int,
    in_fence: bool,
    reps: Seq<(Seq<char>, Seq<char>)>,
) -> Seq<char>
    decreases s.len() - i,
{
    if i < 0 || i >= s.len() {
        seq![]
    } else {
        let e = line_end(s, i);
        proof {
            lemma_find_class(s, i, CharClass::Exact('\n'));
        }
        let line = s.subrange(i, e);
        let c = content_len(line);
        let content = line.subrange(0, c);
        if is_fence(content) {
            line + replace_doc_from(s, e, !in_fence, reps)
        } else if in_fence {
            line + replace_doc_from(s, e, in_fence, reps)
        } else {
            replace_line(content, reps) + line.subrange(c, line.len() as int) + replace_doc_from(
                s,
                e,
                in_fence,
                reps,
            )
        }
    }
}

/// What `replace_image_sources` returns.
pub open spec fn replaced_markdown(s: Seq<char>, reps: Seq<(Seq<char>, Seq<char>)>) -> Seq<char> {
    if reps.len() == 0 {
        s
    } else {
        replace_doc_from(s, 0, false, reps)
    }
}

fn replacement_for(source: &Vec<char>, replacements: &[(String, String)]) -> (r: Option<Vec<char>>)
    ensures
        r is None <==> replacement_of(source@, pairs_view(replacements@)) is None,
        r matches Some(t) ==> replacement_of(source@, pairs_view(replacements@)) == Some(t@),
{
    let ghost all = pairs_view(replacements@);
    assert(all.skip(0) =~= all);
    let mut i: usize = 0;
    while i < replacements.len()
        invariant
            i <= replacements.len(),
            all == pairs_view(replacements@),
            replacement_of(source@, all) == replacement_of(source@, all.skip(i as int)),
        decreases replacements.len() - i,
    {
        let from = chars_of(replacements[i].0.as_str());
        proof {
            assert(all.skip(i as int).drop_first() =~= all.skip(i + 1));
        }
        if chars_eq(&from, source) {
            return Some(chars_of(replacements[i].1.as_str()));
        }
        i = i + 1;
    }
    None
}

fn append_replacement(
    out: &mut Vec<char>,
    src: &Vec<char>,
    from: usize,
    to: usize,
    replacements: &[(String, String)],
)
    requires
        from <= to <= src.len(),
    ensures
        final(out)@ == old(out)@ + replaced_destination(
            src@.subrange(from as int, to as int),
            pairs_view(replacements@),
        ),
{
    let d = slice_chars(src, from, to);
    let k = find_class_from(&d, 0, CharClass::Whitespace);
    let path = slice_chars(&d, 0, k);
    match replacement_for(&path, replacements) {
        Some(r) => {
            extend_all(out, &r);
            extend_chars(out, &d, k, d.len());
            proof {
                assert(r@ + d@.subrange(k as int, d@.len() as int) =~= replaced_destination(
                    d@,
                    pairs_view(replacements@),
                ));
            }
        },
        None => {
            extend_all(out, &d);
        },
    }
}

#[verifier::spinoff_prover]
#[verifier::rlimit(30)]
fn replace_markdown_image_sources_in_line(line: &Vec<char>, replacements: &[(String, String)]) -> (r:
    Vec<char>)
    ensures
        r@ == md_replace_from(line@, 0, pairs_view(replacements@)),
{
    let ghost reps = pairs_view(replacements@);
    let prefix = vec!['!', '['];
    let suffix = vec![']', '('];
    let mut out: Vec<char> = Vec::new();
    let mut index: usize = 0;
    loop
        invariant
            index <= line.len(),
            reps == pairs_view(replacements@),
            prefix@ == image_prefix(),
            suffix@ == label_suffix(),
            md_replace_from(line@, 0, reps) == out@ + md_replace_from(line@, index as int, reps),
        decreases line.len() - index,
    {
        let ghost before = out@;
        match find_pat_from(line, index, &prefix) {
            None => {
                extend_chars(&mut out, line, index, line.len());
                return out;
            },
            Some(st) => {
                proof {
                    lemma_find_pat(line@, index as int, image_prefix());
                }
                match find_pat_from(line, st + 2, &suffix) {
                    None => {
                        extend_chars(&mut out, line, index, line.len());
                        return out;
                    },
                    Some(le) => {
                        let ss = le + 2;
                        let se = find_class_from(line, ss, CharClass::Exact(')'));
                        if se >= line.len() {
                            extend_chars(&mut out, line, index, line.len());
                            return out;
                        }
                        extend_chars(&mut out, line, index, ss);
                        append_replacement(&mut out, line, ss, se, replacements);
                        out.push(')');
                        proof {
                            let mid = replaced_destination(line@.subrange(ss as int, se as int), reps);
                            assert(out@ =~= before + (line@.subrange(index as int, ss as int) + mid
                                + seq![')']));
                            assert(md_replace_from(line@, index as int, reps) == line@.subrange(
                                index as int,
                                ss as int,
                            ) + mid + seq![')'] + md_replace_from(line@, se + 1, reps));
                        }
                        index = se + 1;
                    },
                }
            },
        }
    }
}

fn find_src_attribute_value(t: &Vec<char>) -> (r: Option<(usize, usize)>)
    requires
        t.len() >= 1,
    ensures
        r is None <==> src_range_in_tag(t@) is None,
        r matches Some((vs, ve)) ==> src_range_in_tag(t@) == Some((vs as int, ve as int)) && vs
            <= ve <= t.len(),
{
    let eq = vec!['='];
    let src = vec!['s', 'r', 'c'];
    let start = read_tag_name_end(t, 1);
    let mut index = start;
    proof {
        lemma_src_range_from(t@, start as int);
    }
    while index < t.len()
        invariant
            index <= t.len(),
            src@ == src_name(),
            eq@ == seq!['='],
            src_range_in_tag(t@) == src_range_from(t@, index as int),
        decreases t.len() - index,
    {
        proof {
            lemma_src_range_from(t@, index as int);
        }
        let j = skip_whitespace(t, index);
        if j >= t.len() || t[j] == '>' {
            return None;
        }
        let ne = find_class_from(t, j, CharClass::AttributeNameEnd);
        if ne <= j {
            index = j + 1;
            continue;
        }
        let k = skip_whitespace(t, ne);
        if !matches_at_exec(t, k, &eq) {
            index = k;
            continue;
        }
        let m = skip_whitespace(t, k + 1);
        let (vs, ve, next) = read_attribute_value_range(t, m);
        if eq_ignore_ascii_case_chars(t, j, ne, &src) {
            return Some((vs, ve));
        }
        index = next;
    }
    None
}

fn append_replaced_tag(out: &mut Vec<char>, tag: &Vec<char>, replacements: &[(String, String)])
    requires
        tag.len() >= 1,
    ensures
        final(out)@ == old(out)@ + replaced_tag(tag@, pairs_view(replacements@)),
{
    match find_src_attribute_value(tag) {
        Some((vs, ve)) => {
            let v = slice_chars(tag, vs, ve);
            extend_chars(out, tag, 0, vs);
            match replacement_for(&v, replacements) {
                Some(r) => extend_all(out, &r),
                None => extend_all(out, &v),
            }
            extend_chars(out, tag, ve, tag.len());
            proof {
                assert(final(out)@ =~= old(out)@ + replaced_tag(tag@, pairs_view(replacements@)));
            }
        },
        None => extend_all(out, tag),
    }
}

fn replace_html_image_sources_in_line(line: &Vec<char>, replacements: &[(String, String)]) -> (r:
    Vec<char>)
    ensures
        r@ == html_replace_from(line@, 0, pairs_view(replacements@)),
{
    let ghost reps = pairs_view(replacements@);
    let img = vec!['i', 'm', 'g'];
    let mut out: Vec<char> = Vec::new();
    let mut index: usize = 0;
    while index < line.len()
        invariant
            index <= line.len(),
            reps == pairs_view(replacements@),
            img@ == img_name(),
            html_replace_from(line@, 0, reps) == out@ + html_replace_from(line@, index as int, reps),
        decreases line.len() - index,
    {
        let ghost before = out@;
        let ts = find_class_from(line, index, CharClass::Exact('<'));
        if ts >= line.len() {
            extend_chars(&mut out, line, index, line.len());
            return out;
        }
        let tns = ts + 1;
        if tns >= line.len() || line[tns] == '/' {
            extend_chars(&mut out, line, index, tns);
            proof {
                assert(before + (line@.subrange(index as int, tns as int) + html_replace_from(
                    line@,
                    tns as int,
                    reps,
                )) =~= out@ + html_replace_from(line@, tns as int, reps));
            }
            index = tns;
            continue;
        }
        let tne = read_tag_name_end(line, tns);
        if !eq_ignore_ascii_case_chars(line, tns, tne, &img) {
            extend_chars(&mut out, line, index, tne);
            proof {
                assert(before + (line@.subrange(index as int, tne as int) + html_replace_from(
                    line@,
                    tne as int,
                    reps,
                )) =~= out@ + html_replace_from(line@, tne as int, reps));
            }
            index = tne;
            continue;
        }
        match find_tag_end(line, tne) {
            None => {
                extend_chars(&mut out, line, index, line.len());
                return out;
            },
            Some(te) => {
                proof {
                    lemma_tag_end_from(line@, tne as int, None);
                }
                extend_chars(&mut out, line, index, ts);
                let tag = slice_chars(line, ts, te + 1);
                append_replaced_tag(&mut out, &tag, replacements);
                proof {
                    assert(before + (line@.subrange(index as int, ts as int) + replaced_tag(
                        tag@,
                        reps,
                    ) + html_replace_from(line@, te + 1, reps)) =~= out@ + html_replace_from(
                        line@,
                        te + 1,
                        reps,
                    ));
                }
                index = te + 1;
            },
        }
    }
    proof {
        assert(out@ + seq![] =~= out@);
    }
    out
}

fn replace_image_sources_in_line(line: &Vec<char>, replacements: &[(String, String)]) -> (r: Vec<
    char,
>)
    ensures
        r@ == replace_line(line@, pairs_view(replacements@)),
{
    let md = replace_markdown_image_sources_in_line(line, replacements);
    replace_html_image_sources_in_line(&md, replacements)
}

fn is_fence_line(content: &Vec<char>) -> (r: bool)
    ensures
        r == is_fence(content@),
{
    let t = trim_start_chars(content);
    let ticks = vec!['`', '`', '`'];
    let tildes = vec!['~', '~', '~'];
    starts_with_chars(&t, &ticks) || starts_with_chars(&t, &tildes)
}

/// Rewrites the sources of the images of `markdown` by `replacements`: the
/// path of each Markdown image destination and the `src` value of each
/// `<img>` tag that equals the source of a pair becomes the target of the first
/// such pair. Lines inside fenced code blocks are left as they are, and so is
/// all other text.
#[verifier::rlimit(40)]
pub fn replace_image_sources(markdown: &str, replacements: &[(String, String)]) -> (r: String)
    ensures
        r@ == replaced_markdown(markdown@, pairs_view(replacements@)),
{
    if replacements.len() == 0 {
        return markdown.to_owned();
    }
    let s = chars_of(markdown);
    let ghost reps = pairs_view(replacements@);
    let mut out: Vec<char> = Vec::new();
    let mut in_fenced_code = false;
    let mut i: usize = 0;
    while i < s.len()
        invariant
            i <= s.len(),
            s@ == markdown@,
            reps == pairs_view(replacements@),
            replace_doc_from(s@, 0, false, reps) == out@ + replace_doc_from(
                s@,
                i as int,
                in_fenced_code,
                reps,
            ),
        decreases s.len() - i,
    {
        let ghost before = out@;
        let ghost fence_before = in_fenced_code;
        let k = find_class_from(&s, i, CharClass::Exact('\n'));
        let e = if k < s.len() {
            k + 1
        } else {
            s.len()
        };
        let line = slice_chars(&s, i, e);
        let c = if line.len() >= 2 && line[line.len() - 2] == '\r' && line[line.len() - 1]
            == '\n' {
            line.len() - 2
        } else if line.len() >= 1 && line[line.len() - 1] == '\n' {
            line.len() - 1
        } else {
            line.len()
        };
        let content = slice_chars(&line, 0, c);
        if is_fence_line(&content) {
            in_fenced_code = !in_fenced_code;
            extend_all(&mut out, &line);
        } else if in_fenced_code {
            extend_all(&mut out, &line);
        } else {
            let replaced = replace_image_sources_in_line(&content, replacements);
            extend_all(&mut out, &replaced);
            extend_chars(&mut out, &line, c, line.len());
        }
        proof {
            assert(out@ + replace_doc_from(s@, e as int, in_fenced_code, reps) =~= before
                + replace_doc_from(s@, i as int, fence_before, reps));
        }
        i = e;
    }
    proof {
        assert(out@ + seq![] =~= out@);
    }
    string_from_chars(&out)
}


// ---------------------------------------------------------------------------
// Replacing a source by itself changes nothing
// ---------------------------------------------------------------------------

/// Every pair replaces a source by itself.
pub open spec fn all_self_replacements(reps: Seq<(Seq<char>, Seq<char>)>) -> bool {
    forall|k: int| 0 <= k < reps.len() ==> (#[trigger] reps[k]).0 == reps[k].1
}

proof fn lemma_replacement_of_self(x: Seq<char>, reps: Seq<(Seq<char>, Seq<char>)>)
    requires
        all_self_replacements(reps),
    ensures
        replacement_of(x, reps) matches Some(r) ==> r == x,
    decreases reps.len(),
{
    if reps.len() > 0 && reps[0].0 != x {
        let rest = reps.drop_first();
        assert forall|k: int| 0 <= k < rest.len() implies (#[trigger] rest[k]).0 == rest[k].1 by {
            assert(rest[k] == reps[k + 1]);
        }
        lemma_replacement_of_self(x, rest);
    }
}

proof fn lemma_md_identity(s: Seq<char>, i: int, reps: Seq<(Seq<char>, Seq<char>)>)
    requires
        all_self_replacements(reps),
        0 <= i <= s.len(),
    ensures
        md_replace_from(s, i, reps) == s.subrange(i, s.len() as int),
    decreases s.len() - i,
{
    lemma_find_pat(s, i, image_prefix());
    if let Some(st) = find_pat(s, i, image_prefix()) {
        lemma_find_pat(s, st + 2, label_suffix());
        if let Some(le) = find_pat(s, st + 2, label_suffix()) {
            let ss = le + 2;
            let se = find_class(s, ss, CharClass::Exact(')'));
            lemma_find_class(s, ss, CharClass::Exact(')'));
            if se < s.len() {
                let src = s.subrange(ss, se);
                let k = destination_split(src);
                lemma_find_class(src, 0, CharClass::Whitespace);
                lemma_replacement_of_self(src.subrange(0, k), reps);
                assert(replaced_destination(src, reps) =~= src);
                lemma_md_identity(s, se + 1, reps);
                assert(s.subrange(i, ss) + src + seq![')'] + s.subrange(se + 1, s.len() as int)
                    =~= s.subrange(i, s.len() as int));
            }
        }
    }
}

// ---------------------------------------------------------------------------
// Each Markdown image of a line is rewritten, wherever it stands
// ---------------------------------------------------------------------------

/// Text in which no image starts passes through unchanged.
proof fn lemma_md_skip(s: Seq<char>, i: int, m: int, reps: Seq<(Seq<char>, Seq<char>)>)
    requires
        0 <= i <= m <= s.len(),
        forall|j: int| i <= j < m ==> !#[trigger] matches_at(s, j, image_prefix()),
    ensures
        md_replace_from(s, i, reps) == s.subrange(i, m) + md_replace_from(s, m, reps),
{
    lemma_find_pat_skip(s, i, m, image_prefix());
    lemma_find_pat(s, m, image_prefix());
    assert(s.subrange(i, s.len() as int) =~= s.subrange(i, m) + s.subrange(m, s.len() as int));
    if let Some(st) = find_pat(s, m, image_prefix()) {
        lemma_find_pat(s, st + 2, label_suffix());
        if let Some(le) = find_pat(s, st + 2, label_suffix()) {
            let ss = le + 2;
            lemma_find_class(s, ss, CharClass::Exact(')'));
            assert(s.subrange(i, ss) =~= s.subrange(i, m) + s.subrange(m, ss));
        }
    }
}

/// Rewriting a line behind a prefix, from a position past the prefix, is
/// rewriting the line alone.
proof fn lemma_md_shift(x: Seq<char>, y: Seq<char>, j: int, reps: Seq<(Seq<char>, Seq<char>)>)
    requires
        0 <= j <= y.len(),
    ensures
        md_replace_from(x + y, x.len() + j, reps) == md_replace_from(y, j, reps),
    decreases y.len() - j,
{
    let s = x + y;
    let i = x.len() + j;
    lemma_find_pat_shift(x, y, j, image_prefix());
    lemma_find_pat(y, j, image_prefix());
    assert(s.subrange(i, s.len() as int) =~= y.subrange(j, y.len() as int));
    if let Some(st) = find_pat(y, j, image_prefix()) {
        lemma_find_pat_shift(x, y, st + 2, label_suffix());
        lemma_find_pat(y, st + 2, label_suffix());
        if let Some(le) = find_pat(y, st + 2, label_suffix()) {
            let ss = le + 2;
            lemma_find_class_shift(x, y, ss, CharClass::Exact(')'));
            lemma_find_class(y, ss, CharClass::Exact(')'));
            let se = find_class(y, ss, CharClass::Exact(')'));
            if se < y.len() {
                assert(s.subrange(i, x.len() + ss) =~= y.subrange(j, ss));
                assert(s.subrange(x.len() + ss, x.len() + se) =~= y.subrange(ss, se));
                lemma_md_shift(x, y, se + 1, reps);
            }
        }
    }
}

/// Text with no `!` in it is kept as it is, and the rest of the line is
/// rewritten as it would be on its own: an image is rewritten the same way
/// wherever it stands in its line.
pub proof fn law_text_before_an_image_changes_nothing(
    x: Seq<char>,
    y: Seq<char>,
    reps: Seq<(Seq<char>, Seq<char>)>,
)
    requires
        forall|j: int| 0 <= j < x.len() ==> x[j] != '!',
    ensures
        md_replace_from(x + y, 0, reps) == x + md_replace_from(y, 0, reps),
{
    let s = x + y;
    assert forall|j: int| 0 <= j < x.len() implies !#[trigger] matches_at(s, j, image_prefix()) by {
        if matches_at(s, j, image_prefix()) {
            assert(s.subrange(j, j + 2)[0] == s[j]);
            assert(s[j] == x[j]);
        }
    }
    lemma_md_skip(s, 0, x.len() as int, reps);
    lemma_md_shift(x, y, 0, reps);
    assert(s.subrange(0, x.len() as int) =~= x);
}

/// A Markdown image `![label](path)` at the start of a line comes out as
/// `![label](r)`, where `r` is the target of the first pair whose source is
/// `path` (or `path` itself when there is none), and the rest of the line is
/// rewritten in turn, so every later image of the line is rewritten too. The
/// label holds no `](`, and the path no `)` and no whitespace.
pub proof fn law_each_markdown_image_path_is_replaced(
    label: Seq<char>,
    path: Seq<char>,
    y: Seq<char>,
    reps: Seq<(Seq<char>, Seq<char>)>,
)
    requires
        forall|j: int| !#[trigger] matches_at(label, j, label_suffix()),
        forall|j: int| 0 <= j < path.len() ==> #[trigger] path[j] != ')' && !spec_is_whitespace(path[j]),
    ensures
        md_replace_from(image_prefix() + label + label_suffix() + path + seq![')'] + y, 0, reps)
            == image_prefix() + label + label_suffix() + (match replacement_of(path, reps) {
            Some(r) => r,
            None => path,
        }) + seq![')'] + md_replace_from(y, 0, reps),
{
    let head = image_prefix() + label + label_suffix();
    let img = head + path + seq![')'];
    let s = img + y;
    let n = label.len() as int;
    let p = path.len() as int;
    assert(head.len() == n + 4);
    assert(img.len() == n + p + 5);
    assert forall|k: int| 0 <= k < n implies #[trigger] s[2 + k] == label[k] by {
        assert(s[2 + k] == img[2 + k]);
        assert(img[2 + k] == head[2 + k]);
    }
    assert forall|k: int| 0 <= k < p implies #[trigger] s[n + 4 + k] == path[k] by {
        assert(s[n + 4 + k] == img[n + 4 + k]);
    }
    assert(s[n + 2] == ']' && s[n + 3] == '(') by {
        assert(s[n + 2] == head[n + 2]);
        assert(s[n + 3] == head[n + 3]);
    }
    assert(s[n + p + 4] == ')') by {
        assert(s[n + p + 4] == img[n + p + 4]);
    }
    // the image starts the line
    assert(s.subrange(0, 2) =~= image_prefix()) by {
        assert(s[0] == head[0] && s[1] == head[1]);
    }
    assert(find_pat(s, 0, image_prefix()) == Some(0int));
    // its label ends at the first `](`
    assert forall|j: int| 2 <= j < n + 2 implies !#[trigger] matches_at(s, j, label_suffix()) by {
        if matches_at(s, j, label_suffix()) {
            assert(s.subrange(j, j + 2)[0] == s[j]);
            assert(s.subrange(j, j + 2)[1] == s[j + 1]);
            if j + 1 < n + 2 {
                assert(label.subrange(j - 2, j) =~= s.subrange(j, j + 2));
                assert(matches_at(label, j - 2, label_suffix()));
            }
        }
    }
    lemma_find_pat_skip(s, 2, n + 2, label_suffix());
    assert(s.subrange(n + 2, n + 4) =~= label_suffix());
    assert(find_pat(s, n + 2, label_suffix()) == Some(n + 2));
    // its destination ends at the first `)`
    lemma_find_class_is(s, n + 4, CharClass::Exact(')'), n + p + 4);
    assert(s.subrange(n + 4, n + p + 4) =~= path);
    lemma_find_class_is(path, 0, CharClass::Whitespace, p);
    assert(path.subrange(0, p) =~= path);
    assert(path.subrange(p, p) =~= Seq::<char>::empty());
    assert(s.subrange(0, n + 4) =~= head);
    lemma_md_shift(img, y, 0, reps);
    assert(img.len() + 0 == n + p + 5);
}

proof fn lemma_tag_identity(tag: Seq<char>, reps: Seq<(Seq<char>, Seq<char>)>)
    requires
        all_self_replacements(reps),
        tag.len() >= 1,
    ensures
        replaced_tag(tag, reps) == tag,
{
    lemma_find_class(tag, 1, CharClass::TagNameEnd);
    lemma_src_range_from(tag, tag_name_end(tag, 1));
    if let Some((vs, ve)) = src_range_in_tag(tag) {
        lemma_replacement_of_self(tag.subrange(vs, ve), reps);
        assert(tag.subrange(0, vs) + tag.subrange(vs, ve) + tag.subrange(ve, tag.len() as int)
            =~= tag);
    }
}

proof fn lemma_html_identity(s: Seq<char>, i: int, reps: Seq<(Seq<char>, Seq<char>)>)
    requires
        all_self_replacements(reps),
        0 <= i <= s.len(),
    ensures
        html_replace_from(s, i, reps) == s.subrange(i, s.len() as int),
    decreases s.len() - i,
{
    if i < s.len() {
        let ts = find_class(s, i, CharClass::Exact('<'));
        lemma_find_class(s, i, CharClass::Exact('<'));
        if ts < s.len() {
            let tns = ts + 1;
            if tns >= s.len() || s[tns] == '/' {
                lemma_html_identity(s, tns, reps);
                assert(s.subrange(i, tns) + s.subrange(tns, s.len() as int) =~= s.subrange(
                    i,
                    s.len() as int,
                ));
            } else {
                let tne = tag_name_end(s, tns);
                lemma_find_class(s, tns, CharClass::TagNameEnd);
                if !spec_eq_ignore_ascii_case(s.subrange(tns, tne), img_name()) {
                    lemma_html_identity(s, tne, reps);
                    assert(s.subrange(i, tne) + s.subrange(tne, s.len() as int) =~= s.subrange(
                        i,
                        s.len() as int,
                    ));
                } else {
                    lemma_tag_end_from(s, tne, None);
                    if let Some(te) = tag_end_from(s, tne, None) {
                        lemma_tag_identity(s.subrange(ts, te + 1), reps);
                        lemma_html_identity(s, te + 1, reps);
                        assert(s.subrange(i, ts) + s.subrange(ts, te + 1) + s.subrange(
                            te + 1,
                            s.len() as int,
                        ) =~= s.subrange(i, s.len() as int));
                    }
                }
            }
        } else {
            assert(s.subrange(i, s.len() as int) =~= s.subrange(i, s.len() as int));
        }
    } else {
        assert(s.subrange(i, s.len() as int) =~= seq![]);
    }
}

proof fn lemma_doc_identity(s: Seq<char>, i: int, in_fence: bool, reps: Seq<(Seq<char>, Seq<char>)>)
    requires
        all_self_replacements(reps),
        0 <= i <= s.len(),
    ensures
        replace_doc_from(s, i, in_fence, reps) == s.subrange(i, s.len() as int),
    decreases s.len() - i,
{
    if i < s.len() {
        let e = line_end(s, i);
        lemma_find_class(s, i, CharClass::Exact('\n'));
        let line = s.subrange(i, e);
        let c = content_len(line);
        let content = line.subrange(0, c);
        lemma_doc_identity(s, e, !in_fence, reps);
        lemma_doc_identity(s, e, in_fence, reps);
        lemma_md_identity(content, 0, reps);
        assert(content.subrange(0, content.len() as int) =~= content);
        lemma_html_identity(content, 0, reps);
        assert(content + line.subrange(c, line.len() as int) =~= line);
        assert(line + s.subrange(e, s.len() as int) =~= s.subrange(i, s.len() as int));
    } else {
        assert(s.subrange(i, s.len() as int) =~= seq![]);
    }
}

proof fn lemma_doc_shift(
    x: Seq<char>,
    y: Seq<char>,
    j: int,
    in_fence: bool,
    reps: Seq<(Seq<char>, Seq<char>)>,
)
    requires
        0 <= j <= y.len(),
    ensures
        replace_doc_from(x + y, x.len() + j, in_fence, reps) == replace_doc_from(y, j, in_fence, reps),
    decreases y.len() - j,
{
    if j < y.len() {
        lemma_find_class_shift(x, y, j, CharClass::Exact('\n'));
        lemma_find_class(y, j, CharClass::Exact('\n'));
        let e = line_end(y, j);
        assert(line_end(x + y, x.len() + j) == x.len() + e);
        assert((x + y).subrange(x.len() + j, x.len() + e) =~= y.subrange(j, e));
        lemma_doc_shift(x, y, e, true, reps);
        lemma_doc_shift(x, y, e, false, reps);
    }
}

/// A document is rewritten line by line. A line that opens or closes a fenced
/// code block is kept and switches between code and text; a line inside a
/// fenced code block is kept as it is; any other line has its content
/// rewritten (its Markdown images, then its `<img>` tags) and keeps its line
/// ending. The rest of the document is rewritten in the state that the line
/// leaves.
pub proof fn law_documents_are_rewritten_line_by_line(
    t: Seq<char>,
    y: Seq<char>,
    in_fence: bool,
    reps: Seq<(Seq<char>, Seq<char>)>,
)
    requires
        forall|j: int| 0 <= j < t.len() ==> t[j] != '\n',
    ensures
        ({
            let line = t + seq!['\n'];
            let content = line.subrange(0, content_len(line));
            replace_doc_from(line + y, 0, in_fence, reps) == if is_fence(content) {
                line + replace_doc_from(y, 0, !in_fence, reps)
            } else if in_fence {
                line + replace_doc_from(y, 0, true, reps)
            } else {
                replace_line(content, reps) + line.subrange(content_len(line), line.len() as int)
                    + replace_doc_from(y, 0, false, reps)
            }
        }),
{
    let line = t + seq!['\n'];
    let s = line + y;
    assert forall|j: int| 0 <= j < t.len() implies !crate::text::in_class(
        CharClass::Exact('\n'),
        #[trigger] s[j],
    ) by {
        assert(s[j] == t[j]);
    }
    assert(s[t.len() as int] == '\n');
    lemma_find_class_is(s, 0, CharClass::Exact('\n'), t.len() as int);
    assert(line_end(s, 0) == line.len());
    assert(s.subrange(0, line.len() as int) =~= line);
    lemma_doc_shift(line, y, 0, true, reps);
    lemma_doc_shift(line, y, 0, false, reps);
}

// ---------------------------------------------------------------------------
// Each `<img>` tag of a line is rewritten, wherever it stands
// ---------------------------------------------------------------------------

proof fn lemma_tag_end_shift(x: Seq<char>, y: Seq<char>, j: int, quote: Option<char>)
    requires
        0 <= j,
    ensures
        match tag_end_from(y, j, quote) {
            Some(k) => tag_end_from(x + y, x.len() + j, quote) == Some(x.len() + k),
            None => tag_end_from(x + y, x.len() + j, quote) is None,
        },
    decreases y.len() - j,
{
    if j < y.len() {
        assert((x + y)[x.len() + j] == y[j]);
        lemma_tag_end_shift(x, y, j + 1, None);
        lemma_tag_end_shift(x, y, j + 1, quote);
        lemma_tag_end_shift(x, y, j + 1, Some(y[j]));
    }
}

proof fn lemma_tag_end_prefix(x: Seq<char>, y: Seq<char>, i: int, quote: Option<char>)
    requires
        0 <= i,
        tag_end_from(x, i, quote) is Some,
    ensures
        tag_end_from(x + y, i, quote) == tag_end_from(x, i, quote),
    decreases x.len() - i,
{
    if i < x.len() {
        assert((x + y)[i] == x[i]);
        let c = x[i];
        match quote {
            Some(q) => if q == c {
                lemma_tag_end_prefix(x, y, i + 1, None);
            } else {
                lemma_tag_end_prefix(x, y, i + 1, quote);
            },
            None => if c == '"' || c == '\'' {
                lemma_tag_end_prefix(x, y, i + 1, Some(c));
            } else if c != '>' {
                lemma_tag_end_prefix(x, y, i + 1, None);
            },
        }
    }
}

/// Rewriting the tags of a line behind a prefix, from a position past the
/// prefix, is rewriting the line alone.
proof fn lemma_html_shift(x: Seq<char>, y: Seq<char>, j: int, reps: Seq<(Seq<char>, Seq<char>)>)
    requires
        0 <= j <= y.len(),
    ensures
        html_replace_from(x + y, x.len() + j, reps) == html_replace_from(y, j, reps),
    decreases y.len() - j,
{
    if j < y.len() {
        let s = x + y;
        let i = x.len() + j;
        let d = x.len() as int;
        lemma_find_class_shift(x, y, j, CharClass::Exact('<'));
        lemma_find_class(y, j, CharClass::Exact('<'));
        let ts = find_class(y, j, CharClass::Exact('<'));
        if ts < y.len() {
            let tns = ts + 1;
            assert(s.subrange(i, d + tns) =~= y.subrange(j, tns));
            if tns < y.len() {
                assert(s[d + tns] == y[tns]);
                if y[tns] != '/' {
                    lemma_find_class_shift(x, y, tns, CharClass::TagNameEnd);
                    lemma_find_class(y, tns, CharClass::TagNameEnd);
                    let tne = tag_name_end(y, tns);
                    assert(s.subrange(d + tns, d + tne) =~= y.subrange(tns, tne));
                    assert(s.subrange(i, d + tne) =~= y.subrange(j, tne));
                    if !spec_eq_ignore_ascii_case(y.subrange(tns, tne), img_name()) {
                        lemma_html_shift(x, y, tne, reps);
                    } else {
                        lemma_tag_end_shift(x, y, tne, None);
                        lemma_tag_end_from(y, tne, None);
                        assert(s.subrange(i, s.len() as int) =~= y.subrange(j, y.len() as int));
                        if let Some(te) = tag_end_from(y, tne, None) {
                            assert(s.subrange(i, d + ts) =~= y.subrange(j, ts));
                            assert(s.subrange(d + ts, d + te + 1) =~= y.subrange(ts, te + 1));
                            lemma_html_shift(x, y, te + 1, reps);
                        }
                    }
                } else {
                    lemma_html_shift(x, y, tns, reps);
                }
            } else {
                assert(html_replace_from(s, d + tns, reps) == Seq::<char>::empty());
                assert(html_replace_from(y, tns, reps) == Seq::<char>::empty());
            }
        } else {
            assert(s.subrange(i, s.len() as int) =~= y.subrange(j, y.len() as int));
        }
    }
}

/// Text in which no tag starts passes through the tag pass unchanged.
proof fn lemma_html_skip(s: Seq<char>, i: int, m: int, reps: Seq<(Seq<char>, Seq<char>)>)
    requires
        0 <= i <= m <= s.len(),
        forall|j: int| i <= j < m ==> #[trigger] s[j] != '<',
    ensures
        html_replace_from(s, i, reps) == s.subrange(i, m) + html_replace_from(s, m, reps),
{
    let cls = CharClass::Exact('<');
    assert(s.subrange(i, s.len() as int) =~= s.subrange(i, m) + s.subrange(m, s.len() as int));
    if i < m {
        lemma_find_class(s, m, cls);
        let ts = find_class(s, m, cls);
        assert forall|j: int| i <= j < ts implies !crate::text::in_class(cls, #[trigger] s[j]) by {}
        lemma_find_class_is(s, i, cls, ts);
        if m < s.len() && ts < s.len() {
            let tns = ts + 1;
            assert(s.subrange(i, tns) =~= s.subrange(i, m) + s.subrange(m, tns));
            if tns < s.len() && s[tns] != '/' {
                lemma_find_class(s, tns, CharClass::TagNameEnd);
                let tne = tag_name_end(s, tns);
                assert(s.subrange(i, tne) =~= s.subrange(i, m) + s.subrange(m, tne));
                assert(s.subrange(i, ts) =~= s.subrange(i, m) + s.subrange(m, ts));
            }
        }
    }
}

/// Text with no `<` in it is kept as it is, and the rest of the line goes
/// through the tag pass as it would on its own: an `<img>` tag is rewritten
/// the same way wherever it stands in its line.
pub proof fn law_text_before_a_tag_changes_nothing(
    x: Seq<char>,
    y: Seq<char>,
    reps: Seq<(Seq<char>, Seq<char>)>,
)
    requires
        forall|j: int| 0 <= j < x.len() ==> x[j] != '<',
    ensures
        html_replace_from(x + y, 0, reps) == x + html_replace_from(y, 0, reps),
{
    let s = x + y;
    assert forall|j: int| 0 <= j < x.len() implies #[trigger] s[j] != '<' by {
        assert(s[j] == x[j]);
    }
    lemma_html_skip(s, 0, x.len() as int, reps);
    lemma_html_shift(x, y, 0, reps);
    assert(s.subrange(0, x.len() as int) =~= x);
}

/// An `<img>` tag (its name in any ASCII case) at the start of a line comes
/// out with its `src` value replaced, and the rest of the line goes through
/// the tag pass in turn, so every later `<img>` tag of the line is rewritten
/// too. The tag runs from its `<` to the `>` that closes it outside quotes.
pub proof fn law_each_img_tag_is_rewritten(
    tag: Seq<char>,
    y: Seq<char>,
    reps: Seq<(Seq<char>, Seq<char>)>,
)
    requires
        tag.len() > 0,
        tag[0] == '<',
        spec_eq_ignore_ascii_case(tag.subrange(1, tag_name_end(tag, 1)), img_name()),
        tag_end_from(tag, tag_name_end(tag, 1), None) == Some(tag.len() - 1),
    ensures
        html_replace_from(tag + y, 0, reps) == replaced_tag(tag, reps) + html_replace_from(y, 0, reps),
{
    let s = tag + y;
    let n = tag_name_end(tag, 1);
    lemma_find_class(tag, 1, CharClass::TagNameEnd);
    lemma_tag_end_from(tag, n, None);
    assert(s[0] == '<');
    assert(find_class(s, 0, CharClass::Exact('<')) == 0);
    assert(tag.subrange(1, n)[0] == tag[1]);
    assert(spec_to_ascii_lowercase(tag[1]) == 'i');
    assert(s[1] == tag[1]);
    assert(s[1] != '/');
    assert forall|j: int| 1 <= j < n implies !crate::text::in_class(
        CharClass::TagNameEnd,
        #[trigger] s[j],
    ) by {
        assert(s[j] == tag[j]);
    }
    assert(s[n] == tag[n]);
    lemma_find_class_is(s, 1, CharClass::TagNameEnd, n);
    assert(s.subrange(1, n) =~= tag.subrange(1, n));
    lemma_tag_end_prefix(tag, y, n, None);
    assert(s.subrange(0, tag.len() as int) =~= tag);
    assert(s.subrange(0, 0) =~= Seq::<char>::empty());
    lemma_html_shift(tag, y, 0, reps);
    assert(tag.len() + 0 == tag.len());
}

/// Replacing each image source by itself leaves the Markdown exactly as it
/// was: the rewriting touches nothing but the sources it replaces.
pub proof fn law_replacing_sources_by_themselves_changes_nothing(
    markdown: Seq<char>,
    reps: Seq<(Seq<char>, Seq<char>)>,
)
    requires
        all_self_replacements(reps),
    ensures
        replaced_markdown(markdown, reps) == markdown,
{
    if reps.len() > 0 {
        lemma_doc_identity(markdown, 0, false, reps);
        assert(markdown.subrange(0, markdown.len() as int) =~= markdown);
    }
}


// ---------------------------------------------------------------------------
// Collecting image references
// ---------------------------------------------------------------------------

#[derive(Clone, Copy, Debug, PartialEq, Eq)]
pub enum ImageReferenceKind {
    Markdown,
    Html,
}

/// An image that an article refers to.
#[derive(Debug, Clone, PartialEq, Eq)]
pub struct ImageReference {
    pub kind: ImageReferenceKind,
    pub source: String,
}

impl View for ImageReference {
    type V = (ImageReferenceKind, Seq<char>);

    open spec fn view(&self) -> (ImageReferenceKind, Seq<char>) {
        (self.kind, self.source@)
    }
}

pub open spec fn refs_view(v: Seq<ImageReference>) -> Seq<(ImageReferenceKind, Seq<char>)> {
    v.map_values(|r: ImageReference| r@)
}

/// The events of the Markdown parser that image references come from.
pub enum MarkdownEvent {
    /// The start of an image, with its destination.
    Image(String),
    /// A block of raw HTML.
    Html(String),
    /// Raw HTML inside a paragraph.
    InlineHtml(String),
    /// Any other event.
    Other,
}

pub enum MarkdownEventView {
    Image(Seq<char>),
    Html(Seq<char>),
    InlineHtml(Seq<char>),
    Other,
}

impl View for MarkdownEvent {
    type V = MarkdownEventView;

    open spec fn view(&self) -> MarkdownEventView {
        match self {
            MarkdownEvent::Image(s) => MarkdownEventView::Image(s@),
            MarkdownEvent::Html(s) => MarkdownEventView::Html(s@),
            MarkdownEvent::InlineHtml(s) => MarkdownEventView::InlineHtml(s@),
            MarkdownEvent::Other => MarkdownEventView::Other,
        }
    }
}

pub open spec fn events_view(v: Seq<MarkdownEvent>) -> Seq<MarkdownEventView> {
    v.map_values(|e: MarkdownEvent| e@)
}

/// The events that `pulldown_cmark::Parser::new` yields for a Markdown text,
/// each kept as its image destination, its HTML text, or nothing.
pub uninterp spec fn markdown_events_of(markdown: Seq<char>) -> Seq<MarkdownEventView>;

/// Runs the CommonMark parser of `pulldown_cmark` over `markdown` and hands
/// out its events in order: the start of an image with its destination, a
/// block or inline piece of HTML with its text, and every other event as
/// `Other`. The contract claims only that the result is a function of the text.
#[verifier::external_body]
fn markdown_events(markdown: &str) -> (events: Vec<MarkdownEvent>)
    ensures
        events_view(events@) == markdown_events_of(markdown@),
{
    pulldown_cmark::Parser::new(markdown).map(
        |event| match event {
            pulldown_cmark::Event::Start(pulldown_cmark::Tag::Image { dest_url, .. }) => {
                MarkdownEvent::Image(dest_url.to_string())
            },
            pulldown_cmark::Event::Html(html) => MarkdownEvent::Html(html.to_string()),
            pulldown_cmark::Event::InlineHtml(html) => MarkdownEvent::InlineHtml(html.to_string()),
            _ => MarkdownEvent::Other,
        },
    ).collect()
}

/// `is_windows_drive_path`: a letter followed by `:`.
pub open spec fn is_windows_drive(s: Seq<char>) -> bool {
    s.len() >= 2 && spec_is_ascii_alphabetic(s[0]) && s[1] == ':'
}

/// `is_local_reference`: after trimming, the source is not empty, not an
/// anchor, not protocol-relative, and not a URL with a scheme (a `:` before any
/// `/`, `#` or `?`); a source with a backslash or a drive letter counts as
/// local so that validation can reject it.
pub open spec fn is_local_reference(source: Seq<char>) -> bool {
    let t = trim(source);
    let low = spec_lowercase(t);
    if t.len() == 0 || t[0] == '#' || matches_at(t, 0, seq!['/', '/']) {
        false
    } else if contains_char(t, '\\') || is_windows_drive(t) {
        true
    } else {
        let colon = find_class(low, 0, CharClass::Exact(':'));
        !(colon < find_class(low, 0, CharClass::Exact('/')) && colon < find_class(
            low,
            0,
            CharClass::Exact('#'),
        ) && colon < find_class(low, 0, CharClass::Exact('?')))
    }
}

/// The local references among the `src` values of `<img>` tags.
pub open spec fn html_refs(sources: Seq<Seq<char>>) -> Seq<(ImageReferenceKind, Seq<char>)>
    decreases sources.len(),
{
    if sources.len() == 0 {
        seq![]
    } else {
        (if is_local_reference(sources[0]) {
            seq![(ImageReferenceKind::Html, sources[0])]
        } else {
            seq![]
        }) + html_refs(sources.drop_first())
    }
}

/// The local image references of one parser event.
pub open spec fn event_refs(e: MarkdownEventView) -> Seq<(ImageReferenceKind, Seq<char>)> {
    match e {
        MarkdownEventView::Image(src) => if is_local_reference(src) {
            seq![(ImageReferenceKind::Markdown, src)]
        } else {
            seq![]
        },
        MarkdownEventView::Html(h) => html_refs(img_sources_from(h, 0)),
        MarkdownEventView::InlineHtml(h) => html_refs(img_sources_from(h, 0)),
        MarkdownEventView::Other => seq![],
    }
}

/// The local image references of a sequence of parser events, in order.
pub open spec fn refs_from_events(events: Seq<MarkdownEventView>) -> Seq<
    (ImageReferenceKind, Seq<char>),
>
    decreases events.len(),
{
    if events.len() == 0 {
        seq![]
    } else {
        event_refs(events[0]) + refs_from_events(events.drop_first())
    }
}

/// What `collect_image_references` returns for a Markdown text.
pub open spec fn collected_refs(markdown: Seq<char>) -> Seq<(ImageReferenceKind, Seq<char>)> {
    refs_from_events(markdown_events_of(markdown))
}

fn is_windows_drive_path(s: &Vec<char>) -> (r: bool)
    ensures
        r == is_windows_drive(s@),
{
    s.len() >= 2 && is_ascii_alphabetic(s[0]) && s[1] == ':'
}

fn is_local_reference_chars(source: &Vec<char>) -> (r: bool)
    ensures
        r == is_local_reference(source@),
{
    let t = trim_chars(source);
    let low = lowercase_chars(&t);
    let slashes = vec!['/', '/'];
    if t.len() == 0 || t[0] == '#' || starts_with_chars(&t, &slashes) {
        return false;
    }
    if contains(&t, '\\') || is_windows_drive_path(&t) {
        return true;
    }
    let colon = find_class_from(&low, 0, CharClass::Exact(':'));
    let slash = find_class_from(&low, 0, CharClass::Exact('/'));
    let hash = find_class_from(&low, 0, CharClass::Exact('#'));
    let query = find_class_from(&low, 0, CharClass::Exact('?'));
    !(colon < slash && colon < hash && colon < query)
}

fn push_html_refs(out: &mut Vec<ImageReference>, html: &String)
    ensures
        refs_view(final(out)@) == refs_view(old(out)@) + html_refs(img_sources_from(html@, 0)),
{
    let h = chars_of(html.as_str());
    let sources = html_img_sources(&h);
    let ghost all = img_sources_from(h@, 0);
    let ghost start = refs_view(out@);
    let mut i: usize = 0;
    assert(char_vecs_view(sources@).skip(0) =~= all);
    while i < sources.len()
        invariant
            i <= sources.len(),
            char_vecs_view(sources@) == all,
            refs_view(out@) + html_refs(all.skip(i as int)) == start + html_refs(all),
        decreases sources.len() - i,
    {
        let ghost before = refs_view(out@);
        proof {
            assert(all.skip(i as int).drop_first() =~= all.skip(i + 1));
            assert(all.skip(i as int)[0] == sources@[i as int]@);
        }
        if is_local_reference_chars(&sources[i]) {
            out.push(ImageReference { kind: ImageReferenceKind::Html, source: string_from_chars(&sources[i]) });
            proof {
                assert(refs_view(out@) =~= before + seq![(ImageReferenceKind::Html, sources@[i as int]@)]);
            }
        } else {
            proof {
                assert(refs_view(out@) =~= before);
            }
        }
        proof {
            assert(refs_view(out@) + html_refs(all.skip(i + 1)) =~= before + html_refs(all.skip(i as int)));
        }
        i = i + 1;
    }
    proof {
        assert(all.skip(sources.len() as int) =~= seq![]);
        assert(refs_view(out@) + seq![] =~= refs_view(out@));
    }
}

/// The local image references of a sequence of parser events, in order: the
/// destination of each image, and the `src` value of each `<img>` tag in raw
/// HTML, kept when it names a local file rather than a URL or an anchor.
pub fn image_references_from_events(events: &Vec<MarkdownEvent>) -> (refs: Vec<ImageReference>)
    ensures
        refs_view(refs@) == refs_from_events(events_view(events@)),
{
    let ghost all = events_view(events@);
    let mut refs: Vec<ImageReference> = Vec::new();
    let mut i: usize = 0;
    assert(all.skip(0) =~= all);
    while i < events.len()
        invariant
            i <= events.len(),
            all == events_view(events@),
            refs_view(refs@) + refs_from_events(all.skip(i as int)) == refs_from_events(all),
        decreases events.len() - i,
    {
        let ghost before = refs_view(refs@);
        proof {
            assert(all.skip(i as int).drop_first() =~= all.skip(i + 1));
            assert(all.skip(i as int)[0] == events@[i as int]@);
        }
        match &events[i] {
            MarkdownEvent::Image(dest) => {
                let d = chars_of(dest.as_str());
                if is_local_reference_chars(&d) {
                    refs.push(ImageReference { kind: ImageReferenceKind::Markdown, source: dest.clone() });
                    proof {
                        assert(refs_view(refs@) =~= before + seq![(ImageReferenceKind::Markdown, dest@)]);
                    }
                } else {
                    proof {
                        assert(refs_view(refs@) =~= before + seq![]);
                    }
                }
            },
            MarkdownEvent::Html(html) => {
                push_html_refs(&mut refs, html);
            },
            MarkdownEvent::InlineHtml(html) => {
                push_html_refs(&mut refs, html);
            },
            MarkdownEvent::Other => {
                proof {
                    assert(refs_view(refs@) =~= before + seq![]);
                }
            },
        }
        proof {
            assert(refs_view(refs@) + refs_from_events(all.skip(i + 1)) =~= before
                + refs_from_events(all.skip(i as int)));
        }
        i = i + 1;
    }
    proof {
        assert(all.skip(events.len() as int) =~= seq![]);
        assert(refs_view(refs@) + seq![] =~= refs_view(refs@));
    }
    refs
}

/// The local images that a Markdown text refers to, in order, as the
/// CommonMark parser of `pulldown_cmark` sees them: image syntax and `<img>`
/// tags in raw HTML, but nothing inside code.
pub fn collect_image_references(markdown: &str) -> (refs: Vec<ImageReference>)
    ensures
        refs_view(refs@) == collected_refs(markdown@),
{
    let events = markdown_events(markdown);
    image_references_from_events(&events)
}

/// All references in `refs` are local.
pub open spec fn all_local(refs: Seq<(ImageReferenceKind, Seq<char>)>) -> bool {
    forall|k: int| 0 <= k < refs.len() ==> is_local_reference(#[trigger] refs[k].1)
}

proof fn lemma_all_local_concat(a: Seq<(ImageReferenceKind, Seq<char>)>, b: Seq<(ImageReferenceKind, Seq<char>)>)
    requires
        all_local(a),
        all_local(b),
    ensures
        all_local(a + b),
{
    assert forall|k: int| 0 <= k < (a + b).len() implies is_local_reference(#[trigger] (a + b)[k].1) by {
        if k < a.len() {
            assert((a + b)[k] == a[k]);
        } else {
            assert((a + b)[k] == b[k - a.len()]);
        }
    }
}

proof fn lemma_html_refs_local(sources: Seq<Seq<char>>)
    ensures
        all_local(html_refs(sources)),
    decreases sources.len(),
{
    if sources.len() > 0 {
        lemma_html_refs_local(sources.drop_first());
        let head: Seq<(ImageReferenceKind, Seq<char>)> = if is_local_reference(sources[0]) {
            seq![(ImageReferenceKind::Html, sources[0])]
        } else {
            seq![]
        };
        assert(all_local(head));
        lemma_all_local_concat(head, html_refs(sources.drop_first()));
    }
}

proof fn lemma_event_refs_local(events: Seq<MarkdownEventView>)
    ensures
        all_local(refs_from_events(events)),
    decreases events.len(),
{
    if events.len() > 0 {
        lemma_event_refs_local(events.drop_first());
        match events[0] {
            MarkdownEventView::Html(h) => lemma_html_refs_local(img_sources_from(h, 0)),
            MarkdownEventView::InlineHtml(h) => lemma_html_refs_local(img_sources_from(h, 0)),
            _ => {},
        }
        assert(all_local(event_refs(events[0])));
        lemma_all_local_concat(event_refs(events[0]), refs_from_events(events.drop_first()));
    }
}

/// Every image reference collected from a Markdown text is local: URLs with a
/// scheme, protocol-relative URLs, anchors and empty sources never appear.
pub proof fn law_collected_references_are_local(markdown: Seq<char>)
    ensures
        all_local(collected_refs(markdown)),
{
    lemma_event_refs_local(markdown_events_of(markdown));
}


// ---------------------------------------------------------------------------
// Checking image paths
// ---------------------------------------------------------------------------

/// Why an image reference was rejected. Paths are kept as text.
#[derive(Debug, Clone, PartialEq, Eq)]
pub enum ImageValidationError {
    AbsolutePath { article_path: String, source: String },
    UnsafePath { article_path: String, source: String },
    MissingExtension { article_path: String, source: String },
    UnsupportedExtension { article_path: String, source: String, extension: String },
    MissingFile { article_path: String, source: String, image_path: String },
    Symlink { article_path: String, source: String, image_path: String },
    NotFile { article_path: String, source: String, image_path: String },
}

pub enum ImageErrorView {
    AbsolutePath(Seq<char>, Seq<char>),
    UnsafePath(Seq<char>, Seq<char>),
    MissingExtension(Seq<char>, Seq<char>),
    UnsupportedExtension(Seq<char>, Seq<char>, Seq<char>),
    MissingFile(Seq<char>, Seq<char>, Seq<char>),
    Symlink(Seq<char>, Seq<char>, Seq<char>),
    NotFile(Seq<char>, Seq<char>, Seq<char>),
}

impl View for ImageValidationError {
    type V = ImageErrorView;

    open spec fn view(&self) -> ImageErrorView {
        match self {
            ImageValidationError::AbsolutePath { article_path, source } => ImageErrorView::AbsolutePath(
                article_path@,
                source@,
            ),
            ImageValidationError::UnsafePath { article_path, source } => ImageErrorView::UnsafePath(
                article_path@,
                source@,
            ),
            ImageValidationError::MissingExtension { article_path, source } => ImageErrorView::MissingExtension(
                article_path@,
                source@,
            ),
            ImageValidationError::UnsupportedExtension { article_path, source, extension } => ImageErrorView::UnsupportedExtension(
                article_path@,
                source@,
                extension@,
            ),
            ImageValidationError::MissingFile { article_path, source, image_path } => ImageErrorView::MissingFile(
                article_path@,
                source@,
                image_path@,
            ),
            ImageValidationError::Symlink { article_path, source, image_path } => ImageErrorView::Symlink(
                article_path@,
                source@,
                image_path@,
            ),
            ImageValidationError::NotFile { article_path, source, image_path } => ImageErrorView::NotFile(
                article_path@,
                source@,
                image_path@,
            ),
        }
    }
}

pub open spec fn errors_view(v: Seq<ImageValidationError>) -> Seq<ImageErrorView> {
    v.map_values(|e: ImageValidationError| e@)
}

/// `normalize_local_path`, on a Unix path: the named components of a source
/// that is not blank, holds no backslash, no drive letter, no root and no
/// `..`, and names at least one component.
pub open spec fn normalized_parts(source: Seq<char>) -> Option<Seq<Seq<char>>> {
    if is_blank(source) || contains_char(source, '\\') || is_windows_drive(source) {
        None
    } else {
        let segs = split_from(source, 0, '/');
        if (source.len() > 0 && source[0] == '/') || has_parent_segment(segs) {
            None
        } else if normal_parts(segs).len() == 0 {
            None
        } else {
            Some(normal_parts(segs))
        }
    }
}

/// The position of the last `c` before `end`, or -1.
pub open spec fn rfind_char(s: Seq<char>, end: int, c: char) -> int
    decreases end,
{
    if end <= 0 || end > s.len() {
        -1
    } else if s[end - 1] == c {
        end - 1
    } else {
        rfind_char(s, end - 1, c)
    }
}

/// `Path::extension` of a file name: what follows its last `.`, unless there
/// is no `.` or the only one starts the name.
pub open spec fn extension_of(file: Seq<char>) -> Option<Seq<char>> {
    let d = rfind_char(file, file.len() as int, '.');
    if d <= 0 {
        None
    } else {
        Some(file.subrange(d + 1, file.len() as int))
    }
}

pub open spec fn supported_extensions() -> Seq<Seq<char>> {
    seq![
        seq!['p', 'n', 'g'],
        seq!['j', 'p', 'g'],
        seq!['j', 'p', 'e', 'g'],
        seq!['g', 'i', 'f'],
        seq!['w', 'e', 'b', 'p'],
        seq!['t', 'i', 'f', 'f'],
        seq!['a', 'v', 'i', 'f'],
    ]
}

pub open spec fn is_supported_extension(e: Seq<char>) -> bool {
    exists|k: int|
        0 <= k < supported_extensions().len() && spec_eq_ignore_ascii_case(
            e,
            #[trigger] supported_extensions()[k],
        )
}

proof fn lemma_to_ascii_lowercase_idempotent(c: char)
    ensures
        spec_to_ascii_lowercase(spec_to_ascii_lowercase(c)) == spec_to_ascii_lowercase(c),
{
}

/// Against a name in lower case, comparing without regard to ASCII case is
/// comparing the lower-cased text.
proof fn lemma_eq_ignore_case_lowercase(a: Seq<char>, b: Seq<char>)
    requires
        spec_lowercase(b) == b,
    ensures
        spec_eq_ignore_ascii_case(a, b) <==> spec_lowercase(a) == b,
{
    if spec_eq_ignore_ascii_case(a, b) {
        assert forall|i: int| 0 <= i < a.len() implies spec_lowercase(a)[i] == b[i] by {
            assert(spec_to_ascii_lowercase(a[i]) == spec_to_ascii_lowercase(b[i]));
            assert(spec_lowercase(b)[i] == spec_to_ascii_lowercase(b[i]));
        }
        assert(spec_lowercase(a) =~= b);
    }
    if spec_lowercase(a) == b {
        assert forall|i: int| 0 <= i < a.len() implies spec_to_ascii_lowercase(#[trigger] a[i])
            == spec_to_ascii_lowercase(b[i]) by {
            assert(spec_lowercase(a)[i] == spec_to_ascii_lowercase(a[i]));
            lemma_to_ascii_lowercase_idempotent(a[i]);
        }
    }
}

/// Extensions compare without regard to ASCII case: an extension is
/// supported exactly when its lower-cased form is one of `png`, `jpg`,
/// `jpeg`, `gif`, `webp`, `tiff` and `avif`, so an extension and its
/// lower-cased form are supported alike.
pub proof fn law_supported_extensions_ignore_ascii_case(e: Seq<char>)
    ensures
        is_supported_extension(e) <==> ({
            let l = spec_lowercase(e);
            ||| l == seq!['p', 'n', 'g']
            ||| l == seq!['j', 'p', 'g']
            ||| l == seq!['j', 'p', 'e', 'g']
            ||| l == seq!['g', 'i', 'f']
            ||| l == seq!['w', 'e', 'b', 'p']
            ||| l == seq!['t', 'i', 'f', 'f']
            ||| l == seq!['a', 'v', 'i', 'f']
        }),
        is_supported_extension(e) == is_supported_extension(spec_lowercase(e)),
{
    let exts = supported_extensions();
    assert forall|k: int| 0 <= k < exts.len() implies spec_lowercase(#[trigger] exts[k])
        == exts[k] by {
        assert(spec_lowercase(exts[k]) =~= exts[k]);
    }
    let l = spec_lowercase(e);
    assert(spec_lowercase(l) =~= l) by {
        assert forall|i: int| 0 <= i < l.len() implies spec_lowercase(l)[i] == l[i] by {
            lemma_to_ascii_lowercase_idempotent(e[i]);
        }
    }
    assert forall|k: int| 0 <= k < exts.len() implies (spec_eq_ignore_ascii_case(
        e,
        #[trigger] exts[k],
    ) <==> l == exts[k]) && (spec_eq_ignore_ascii_case(l, exts[k]) <==> l == exts[k]) by {
        lemma_eq_ignore_case_lowercase(e, exts[k]);
        lemma_eq_ignore_case_lowercase(l, exts[k]);
    }
    assert(exts[0] == seq!['p', 'n', 'g']);
    assert(exts[1] == seq!['j', 'p', 'g']);
    assert(exts[2] == seq!['j', 'p', 'e', 'g']);
    assert(exts[3] == seq!['g', 'i', 'f']);
    assert(exts[4] == seq!['w', 'e', 'b', 'p']);
    assert(exts[5] == seq!['t', 'i', 'f', 'f']);
    assert(exts[6] == seq!['a', 'v', 'i', 'f']);
}

/// `PathBuf::push` of a named component onto a Unix path.
pub open spec fn push_path(base: Seq<char>, part: Seq<char>) -> Seq<char> {
    if base.len() == 0 || base[base.len() - 1] == '/' {
        base + part
    } else {
        base + seq!['/'] + part
    }
}

/// The path reached from `base` by pushing each of `parts` in turn.
pub open spec fn push_parts(base: Seq<char>, parts: Seq<Seq<char>>) -> Seq<char>
    decreases parts.len(),
{
    if parts.len() == 0 {
        base
    } else {
        push_path(push_parts(base, parts.drop_last()), parts.last())
    }
}

/// The paths checked for symlinks: each prefix of the image path below the
/// article directory.
pub open spec fn probe_paths_of(dir: Seq<char>, parts: Seq<Seq<char>>) -> Seq<Seq<char>> {
    Seq::new(parts.len(), |k: int| push_parts(dir, parts.take(k + 1)))
}

/// The parent directory of a path, as `Path::parent` gives it.
pub uninterp spec fn path_parent_of(path: Seq<char>) -> Option<Seq<char>>;

/// Calls `std::path::Path::parent` on `path`. The contract claims only that
/// the result is a function of the path.
#[verifier::external_body]
fn path_parent(path: &str) -> (r: Option<String>)
    ensures
        r is None <==> path_parent_of(path@) is None,
        r matches Some(p) ==> path_parent_of(path@) == Some(p@),
{
    std::path::Path::new(path).parent().map(|parent| parent.to_string_lossy().into_owned())
}

/// The directory that holds an article: the parent of its path, or `.`.
pub open spec fn article_dir_of(article_path: Seq<char>) -> Seq<char> {
    match path_parent_of(article_path) {
        Some(p) => p,
        None => seq!['.'],
    }
}

/// The part of the check of an image source that needs no file system:
/// the article directory and the named components of the image path.
pub open spec fn image_plan(article_path: Seq<char>, source: Seq<char>) -> Result<
    (Seq<char>, Seq<Seq<char>>),
    ImageErrorView,
> {
    if source.len() > 0 && source[0] == '/' {
        Err(ImageErrorView::AbsolutePath(article_path, source))
    } else {
        match normalized_parts(source) {
            None => Err(ImageErrorView::UnsafePath(article_path, source)),
            Some(parts) => match extension_of(parts.last()) {
                None => Err(ImageErrorView::MissingExtension(article_path, source)),
                Some(e) => if is_supported_extension(e) {
                    Ok((article_dir_of(article_path), parts))
                } else {
                    Err(ImageErrorView::UnsupportedExtension(article_path, source, spec_lowercase(e)))
                },
            },
        }
    }
}

/// What `symlink_metadata` tells of a path.
#[derive(Clone, Copy, Debug, PartialEq, Eq, Structural)]
pub enum FileKind {
    /// There is no metadata for the path.
    Missing,
    /// A regular file.
    File,
    /// A symbolic link.
    Symlink,
    /// Anything else, such as a directory.
    Other,
}

/// What the file system told of the paths it was asked about.
pub struct FileSnapshot {
    entries: Vec<(String, FileKind)>,
}

impl View for FileSnapshot {
    type V = Seq<(Seq<char>, FileKind)>;

    closed spec fn view(&self) -> Seq<(Seq<char>, FileKind)> {
        self.entries@.map_values(|e: (String, FileKind)| (e.0@, e.1))
    }
}

/// The kind recorded first for `path`, or `Missing` when there is none.
pub open spec fn kind_in(entries: Seq<(Seq<char>, FileKind)>, path: Seq<char>) -> FileKind
    decreases entries.len(),
{
    if entries.len() == 0 {
        FileKind::Missing
    } else if entries[0].0 == path {
        entries[0].1
    } else {
        kind_in(entries.drop_first(), path)
    }
}

impl FileSnapshot {
    /// A snapshot that knows no path.
    pub fn new() -> (r: Self)
        ensures
            r@ == Seq::<(Seq<char>, FileKind)>::empty(),
    {
        let r = FileSnapshot { entries: Vec::new() };
        assert(r@ =~= Seq::<(Seq<char>, FileKind)>::empty());
        r
    }

    /// Records what the file system told of `path`.
    pub fn record(&mut self, path: &str, kind: FileKind)
        ensures
            final(self)@ == old(self)@.push((path@, kind)),
    {
        self.entries.push((path.to_owned(), kind));
        assert(self@ =~= old(self)@.push((path@, kind)));
    }

    /// The kind recorded first for `path`, or `Missing`.
    pub fn kind_of(&self, path: &Vec<char>) -> (r: FileKind)
        ensures
            r == kind_in(self@, path@),
    {
        let ghost all = self@;
        let mut i: usize = 0;
        assert(all.skip(0) =~= all);
        while i < self.entries.len()
            invariant
                i <= self.entries.len(),
                all == self@,
                all.len() == self.entries.len(),
                kind_in(all, path@) == kind_in(all.skip(i as int), path@),
            decreases self.entries.len() - i,
        {
            proof {
                assert(all.skip(i as int).drop_first() =~= all.skip(i + 1));
                assert(all.skip(i as int)[0] == (self.entries@[i as int].0@, self.entries@[i as int].1));
            }
            let p = chars_of(self.entries[i].0.as_str());
            if chars_eq(&p, path) {
                return self.entries[i].1;
            }
            i = i + 1;
        }
        FileKind::Missing
    }
}

/// The first probe path, from position `k` on, that is a symlink.
pub open spec fn first_symlink_from(probes: Seq<Seq<char>>, files: Seq<(Seq<char>, FileKind)>, k: int) -> Option<int>
    decreases probes.len() - k,
{
    if k < 0 || k >= probes.len() {
        None
    } else if kind_in(files, probes[k]) == FileKind::Symlink {
        Some(k)
    } else {
        first_symlink_from(probes, files, k + 1)
    }
}

/// `validate_image_reference`: the image path of a source, or why it is
/// rejected, given what the file system told.
pub open spec fn image_resolution(
    article_path: Seq<char>,
    source: Seq<char>,
    files: Seq<(Seq<char>, FileKind)>,
) -> Result<Seq<char>, ImageErrorView> {
    match image_plan(article_path, source) {
        Err(e) => Err(e),
        Ok((dir, parts)) => {
            let probes = probe_paths_of(dir, parts);
            let image_path = push_parts(dir, parts);
            match first_symlink_from(probes, files, 0) {
                Some(k) => Err(ImageErrorView::Symlink(article_path, source, probes[k])),
                None => match kind_in(files, image_path) {
                    FileKind::Missing => Err(ImageErrorView::MissingFile(article_path, source, image_path)),
                    FileKind::Symlink => Err(ImageErrorView::Symlink(article_path, source, image_path)),
                    FileKind::Other => Err(ImageErrorView::NotFile(article_path, source, image_path)),
                    FileKind::File => Ok(image_path),
                },
            }
        },
    }
}

fn normalize_local_path(article_path: &str, source: &str) -> (r: Result<Vec<Vec<char>>, ImageValidationError>)
    ensures
        match r {
            Ok(parts) => normalized_parts(source@) == Some(char_vecs_view(parts@)),
            Err(e) => normalized_parts(source@) is None && e@ == ImageErrorView::UnsafePath(article_path@, source@),
        },
{
    let s = chars_of(source);
    let unsafe_path = ImageValidationError::UnsafePath {
        article_path: article_path.to_owned(),
        source: source.to_owned(),
    };
    if is_blank_chars(&s) || contains(&s, '\\') || is_windows_drive_path(&s) {
        return Err(unsafe_path);
    }
    if s.len() > 0 && s[0] == '/' {
        return Err(unsafe_path);
    }
    let segs = split_chars(&s, '/');
    let ghost all = char_vecs_view(segs@);
    let dot = vec!['.'];
    let dotdot = vec!['.', '.'];
    let mut parts: Vec<Vec<char>> = Vec::new();
    let mut i: usize = 0;
    assert(all.skip(0) =~= all);
    while i < segs.len()
        invariant
            i <= segs.len(),
            all == char_vecs_view(segs@),
            all == split_from(source@, 0, '/'),
            s@ == source@,
            dot@ == seq!['.'],
            dotdot@ == seq!['.', '.'],
            forall|k: int| 0 <= k < i ==> all[k] != seq!['.', '.'],
            char_vecs_view(parts@) + normal_parts(all.skip(i as int)) == normal_parts(all),
            unsafe_path@ == ImageErrorView::UnsafePath(article_path@, source@),
            !is_blank(source@) && !contains_char(source@, '\\') && !is_windows_drive(source@),
            !(source@.len() > 0 && source@[0] == '/'),
        decreases segs.len() - i,
    {
        let ghost before = char_vecs_view(parts@);
        proof {
            assert(all.skip(i as int).drop_first() =~= all.skip(i + 1));
            assert(all.skip(i as int)[0] == segs@[i as int]@);
        }
        if chars_eq(&segs[i], &dotdot) {
            proof {
                assert(has_parent_segment(all));
            }
            return Err(unsafe_path);
        }
        if segs[i].len() == 0 || chars_eq(&segs[i], &dot) {
            proof {
                assert(char_vecs_view(parts@) + normal_parts(all.skip(i + 1)) =~= before + normal_parts(all.skip(i as int)));
            }
        } else {
            let seg = slice_chars(&segs[i], 0, segs[i].len());
            parts.push(seg);
            proof {
                assert(segs@[i as int]@.subrange(0, segs@[i as int]@.len() as int) =~= segs@[i as int]@);
                assert(char_vecs_view(parts@) =~= before + seq![segs@[i as int]@]);
                assert(char_vecs_view(parts@) + normal_parts(all.skip(i + 1)) =~= before + normal_parts(all.skip(i as int)));
            }
        }
        i = i + 1;
    }
    proof {
        assert(all.skip(segs.len() as int) =~= seq![]);
        assert(char_vecs_view(parts@) + seq![] =~= char_vecs_view(parts@));
        assert(!has_parent_segment(all));
    }
    if parts.len() == 0 {
        return Err(unsafe_path);
    }
    Ok(parts)
}

fn rfind(s: &Vec<char>, c: char) -> (r: Option<usize>)
    ensures
        r is None <==> rfind_char(s@, s.len() as int, c) == -1,
        r matches Some(d) ==> rfind_char(s@, s.len() as int, c) == d as int && d < s.len(),
{
    let mut e = s.len();
    while e > 0
        invariant
            e <= s.len(),
            rfind_char(s@, s.len() as int, c) == rfind_char(s@, e as int, c),
        decreases e,
    {
        if s[e - 1] == c {
            return Some(e - 1);
        }
        e = e - 1;
    }
    None
}

fn is_supported(e: &Vec<char>, from: usize, to: usize) -> (r: bool)
    requires
        from <= to <= e.len(),
    ensures
        r == is_supported_extension(e@.subrange(from as int, to as int)),
{
    let supported: Vec<Vec<char>> = vec![
        vec!['p', 'n', 'g'],
        vec!['j', 'p', 'g'],
        vec!['j', 'p', 'e', 'g'],
        vec!['g', 'i', 'f'],
        vec!['w', 'e', 'b', 'p'],
        vec!['t', 'i', 'f', 'f'],
        vec!['a', 'v', 'i', 'f'],
    ];
    assert(char_vecs_view(supported@) =~= supported_extensions());
    let mut k: usize = 0;
    while k < supported.len()
        invariant
            k <= supported.len(),
            from <= to <= e.len(),
            char_vecs_view(supported@) == supported_extensions(),
            forall|j: int| 0 <= j < k ==> !spec_eq_ignore_ascii_case(e@.subrange(from as int, to as int), #[trigger] supported_extensions()[j]),
        decreases supported.len() - k,
    {
        assert(supported_extensions()[k as int] == supported@[k as int]@);
        if eq_ignore_ascii_case_chars(e, from, to, &supported[k]) {
            return true;
        }
        k = k + 1;
    }
    false
}

fn validate_supported_extension(article_path: &str, source: &str, file: &Vec<char>) -> (r: Result<(), ImageValidationError>)
    ensures
        match extension_of(file@) {
            None => r matches Err(e) && e@ == ImageErrorView::MissingExtension(article_path@, source@),
            Some(x) => if is_supported_extension(x) {
                r is Ok
            } else {
                r matches Err(e) && e@ == ImageErrorView::UnsupportedExtension(article_path@, source@, spec_lowercase(x))
            },
        },
{
    match rfind(file, '.') {
        None => Err(ImageValidationError::MissingExtension {
            article_path: article_path.to_owned(),
            source: source.to_owned(),
        }),
        Some(d) => {
            if d == 0 {
                return Err(ImageValidationError::MissingExtension {
                    article_path: article_path.to_owned(),
                    source: source.to_owned(),
                });
            }
            if is_supported(file, d + 1, file.len()) {
                Ok(())
            } else {
                let ext = slice_chars(file, d + 1, file.len());
                let low = lowercase_chars(&ext);
                Err(ImageValidationError::UnsupportedExtension {
                    article_path: article_path.to_owned(),
                    source: source.to_owned(),
                    extension: string_from_chars(&low),
                })
            }
        },
    }
}

fn push_path_exec(base: &mut Vec<char>, part: &Vec<char>)
    ensures
        final(base)@ == push_path(old(base)@, part@),
{
    if base.len() == 0 || base[base.len() - 1] == '/' {
        extend_all(base, part);
    } else {
        base.push('/');
        extend_all(base, part);
    }
}

fn plan_image(article_path: &str, source: &str) -> (r: Result<(Vec<char>, Vec<Vec<char>>), ImageValidationError>)
    ensures
        match image_plan(article_path@, source@) {
            Ok((dir, parts)) => r matches Ok((d, p)) && d@ == dir && char_vecs_view(p@) == parts,
            Err(e) => r matches Err(x) && x@ == e,
        },
{
    let s = chars_of(source);
    if s.len() > 0 && s[0] == '/' {
        return Err(ImageValidationError::AbsolutePath {
            article_path: article_path.to_owned(),
            source: source.to_owned(),
        });
    }
    let parts = match normalize_local_path(article_path, source) {
        Ok(p) => p,
        Err(e) => return Err(e),
    };
    let ghost pv = char_vecs_view(parts@);
    validate_supported_extension(article_path, source, &parts[parts.len() - 1])?;
    let dir: Vec<char> = match path_parent(article_path) {
        Some(p) => chars_of(p.as_str()),
        None => vec!['.'],
    };
    proof {
        assert(pv.last() == parts@[parts.len() - 1]@);
        assert(dir@ == article_dir_of(article_path@));
        assert(normalized_parts(source@) == Some(pv));
        assert(is_supported_extension(extension_of(pv.last())->0));
    }
    Ok((dir, parts))
}

fn validate_image_reference(article_path: &str, source: &str, files: &FileSnapshot) -> (r: Result<String, ImageValidationError>)
    ensures
        match image_resolution(article_path@, source@, files@) {
            Ok(p) => r matches Ok(q) && q@ == p,
            Err(e) => r matches Err(x) && x@ == e,
        },
{
    let (dir, parts) = plan_image(article_path, source)?;
    let ghost pv = char_vecs_view(parts@);
    let ghost probes = probe_paths_of(dir@, pv);
    let mut current = slice_chars(&dir, 0, dir.len());
    proof {
        assert(current@ =~= dir@);
    }
    let mut k: usize = 0;
    while k < parts.len()
        invariant
            k <= parts.len(),
            pv == char_vecs_view(parts@),
            probes == probe_paths_of(dir@, pv),
            image_plan(article_path@, source@) == Ok::<(Seq<char>, Seq<Seq<char>>), ImageErrorView>((dir@, pv)),
            current@ == push_parts(dir@, pv.take(k as int)),
            first_symlink_from(probes, files@, 0) == first_symlink_from(probes, files@, k as int),
        decreases parts.len() - k,
    {
        push_path_exec(&mut current, &parts[k]);
        proof {
            assert(pv.take(k + 1).drop_last() =~= pv.take(k as int));
            assert(pv.take(k + 1).last() == parts@[k as int]@);
            assert(probes[k as int] == current@);
        }
        if files.kind_of(&current) == FileKind::Symlink {
            return Err(ImageValidationError::Symlink {
                article_path: article_path.to_owned(),
                source: source.to_owned(),
                image_path: string_from_chars(&current),
            });
        }
        k = k + 1;
    }
    proof {
        assert(pv.take(pv.len() as int) =~= pv);
    }
    let image_path = string_from_chars(&current);
    match files.kind_of(&current) {
        FileKind::Missing => Err(ImageValidationError::MissingFile {
            article_path: article_path.to_owned(),
            source: source.to_owned(),
            image_path,
        }),
        FileKind::Symlink => Err(ImageValidationError::Symlink {
            article_path: article_path.to_owned(),
            source: source.to_owned(),
            image_path,
        }),
        FileKind::Other => Err(ImageValidationError::NotFile {
            article_path: article_path.to_owned(),
            source: source.to_owned(),
            image_path,
        }),
        FileKind::File => Ok(image_path),
    }
}

/// The paths whose file-system metadata the check of `source` looks at.
pub open spec fn plan_probes(article_path: Seq<char>, source: Seq<char>) -> Seq<Seq<char>> {
    match image_plan(article_path, source) {
        Ok((dir, parts)) => probe_paths_of(dir, parts),
        Err(_) => seq![],
    }
}

pub open spec fn probes_for(article_path: Seq<char>, refs: Seq<(ImageReferenceKind, Seq<char>)>) -> Seq<Seq<char>>
    decreases refs.len(),
{
    if refs.len() == 0 {
        seq![]
    } else {
        plan_probes(article_path, refs[0].1) + probes_for(article_path, refs.drop_first())
    }
}

fn push_probe_paths(out: &mut Vec<String>, article_path: &str, source: &str)
    ensures
        strings_view(final(out)@) == strings_view(old(out)@) + plan_probes(article_path@, source@),
{
    let ghost start = strings_view(out@);
    match plan_image(article_path, source) {
        Err(_) => {
            assert(strings_view(out@) =~= start + seq![]);
        },
        Ok((dir, parts)) => {
            let ghost pv = char_vecs_view(parts@);
            let ghost probes = probe_paths_of(dir@, pv);
            let mut current = slice_chars(&dir, 0, dir.len());
            proof {
                assert(current@ =~= dir@);
                assert(strings_view(out@) =~= start + probes.take(0));
            }
            let mut k: usize = 0;
            while k < parts.len()
                invariant
                    k <= parts.len(),
                    pv == char_vecs_view(parts@),
                    probes == probe_paths_of(dir@, pv),
                    current@ == push_parts(dir@, pv.take(k as int)),
                    strings_view(out@) == start + probes.take(k as int),
                decreases parts.len() - k,
            {
                push_path_exec(&mut current, &parts[k]);
                proof {
                    assert(pv.take(k + 1).drop_last() =~= pv.take(k as int));
                    assert(pv.take(k + 1).last() == parts@[k as int]@);
                    assert(probes[k as int] == current@);
                }
                let ghost before = strings_view(out@);
                let path = string_from_chars(&current);
                out.push(path);
                proof {
                    assert(strings_view(out@) =~= before.push(current@));
                    assert(probes.take(k + 1) =~= probes.take(k as int).push(probes[k as int]));
                    assert(strings_view(out@) =~= start + probes.take(k + 1));
                }
                k = k + 1;
            }
            proof {
                assert(probes.take(parts.len() as int) =~= probes);
            }
        },
    }
}

/// The paths whose metadata (as `symlink_metadata` gives it) decide whether
/// the images of `markdown` resolve: for each image whose source passes the
/// checks that need no file system, every prefix of its path below the
/// article directory, the image path itself last.
pub fn image_probe_paths(article_path: &str, markdown: &str) -> (r: Vec<String>)
    ensures
        strings_view(r@) == probes_for(article_path@, collected_refs(markdown@)),
{
    let refs = collect_image_references(markdown);
    let ghost all = refs_view(refs@);
    let mut out: Vec<String> = Vec::new();
    let mut i: usize = 0;
    assert(all.skip(0) =~= all);
    while i < refs.len()
        invariant
            i <= refs.len(),
            all == refs_view(refs@),
            all == collected_refs(markdown@),
            strings_view(out@) + probes_for(article_path@, all.skip(i as int)) == probes_for(article_path@, all),
        decreases refs.len() - i,
    {
        let ghost before = strings_view(out@);
        proof {
            assert(all.skip(i as int).drop_first() =~= all.skip(i + 1));
            assert(all.skip(i as int)[0] == refs@[i as int]@);
        }
        push_probe_paths(&mut out, article_path, refs[i].source.as_str());
        proof {
            assert(strings_view(out@) + probes_for(article_path@, all.skip(i + 1)) =~= before + probes_for(article_path@, all.skip(i as int)));
        }
        i = i + 1;
    }
    proof {
        assert(all.skip(refs.len() as int) =~= seq![]);
        assert(strings_view(out@) + seq![] =~= strings_view(out@));
    }
    out
}

/// An image reference together with the path of the file it names.
#[derive(Debug, Clone, PartialEq, Eq)]
pub struct ResolvedImageReference {
    pub kind: ImageReferenceKind,
    pub source: String,
    pub image_path: String,
}

impl View for ResolvedImageReference {
    type V = (ImageReferenceKind, Seq<char>, Seq<char>);

    open spec fn view(&self) -> (ImageReferenceKind, Seq<char>, Seq<char>) {
        (self.kind, self.source@, self.image_path@)
    }
}

pub open spec fn resolved_view(v: Seq<ResolvedImageReference>) -> Seq<(ImageReferenceKind, Seq<char>, Seq<char>)> {
    v.map_values(|r: ResolvedImageReference| r@)
}

/// The resolved references and the errors, each in the order of the
/// references.
pub open spec fn resolve_refs(
    article_path: Seq<char>,
    refs: Seq<(ImageReferenceKind, Seq<char>)>,
    files: Seq<(Seq<char>, FileKind)>,
) -> (Seq<(ImageReferenceKind, Seq<char>, Seq<char>)>, Seq<ImageErrorView>)
    decreases refs.len(),
{
    if refs.len() == 0 {
        (seq![], seq![])
    } else {
        let rest = resolve_refs(article_path, refs.drop_first(), files);
        match image_resolution(article_path, refs[0].1, files) {
            Ok(p) => (seq![(refs[0].0, refs[0].1, p)] + rest.0, rest.1),
            Err(e) => (rest.0, seq![e] + rest.1),
        }
    }
}

/// What `resolve_image_references` returns: every reference resolved, or
/// all the errors.
pub open spec fn resolution(
    article_path: Seq<char>,
    markdown: Seq<char>,
    files: Seq<(Seq<char>, FileKind)>,
) -> Result<Seq<(ImageReferenceKind, Seq<char>, Seq<char>)>, Seq<ImageErrorView>> {
    let (oks, errs) = resolve_refs(article_path, collected_refs(markdown), files);
    if errs.len() == 0 {
        Ok(oks)
    } else {
        Err(errs)
    }
}

/// Resolves the local images of `markdown`, an article at `article_path`,
/// against what the file system told of the paths of `image_probe_paths`:
/// each source must be a relative path with a supported image extension that
/// stays inside the article directory, and must name a regular file that is
/// no symlink and lies below no symlink. All errors are reported, in order.
pub fn resolve_image_references(article_path: &str, markdown: &str, files: &FileSnapshot) -> (r: Result<Vec<ResolvedImageReference>, Vec<ImageValidationError>>)
    ensures
        match resolution(article_path@, markdown@, files@) {
            Ok(v) => r matches Ok(x) && resolved_view(x@) == v,
            Err(e) => r matches Err(x) && errors_view(x@) == e,
        },
{
    let refs = collect_image_references(markdown);
    let ghost all = refs_view(refs@);
    let mut errors: Vec<ImageValidationError> = Vec::new();
    let mut resolved: Vec<ResolvedImageReference> = Vec::new();
    let mut i: usize = 0;
    assert(all.skip(0) =~= all);
    while i < refs.len()
        invariant
            i <= refs.len(),
            all == refs_view(refs@),
            all == collected_refs(markdown@),
            ({
                let rest = resolve_refs(article_path@, all.skip(i as int), files@);
                let whole = resolve_refs(article_path@, all, files@);
                resolved_view(resolved@) + rest.0 == whole.0 && errors_view(errors@) + rest.1 == whole.1
            }),
        decreases refs.len() - i,
    {
        let ghost oks = resolved_view(resolved@);
        let ghost errs = errors_view(errors@);
        proof {
            assert(all.skip(i as int).drop_first() =~= all.skip(i + 1));
            assert(all.skip(i as int)[0] == refs@[i as int]@);
        }
        let reference = &refs[i];
        match validate_image_reference(article_path, reference.source.as_str(), files) {
            Ok(image_path) => {
                resolved.push(ResolvedImageReference {
                    kind: reference.kind,
                    source: reference.source.clone(),
                    image_path,
                });
                proof {
                    assert(resolved_view(resolved@) =~= oks + seq![(refs@[i as int].kind, refs@[i as int].source@, image_path@)]);
                    let rest = resolve_refs(article_path@, all.skip(i + 1), files@);
                    assert(resolved_view(resolved@) + rest.0 =~= oks + (seq![(refs@[i as int].kind, refs@[i as int].source@, image_path@)] + rest.0));
                }
            },
            Err(error) => {
                errors.push(error);
                proof {
                    assert(errors_view(errors@) =~= errs + seq![error@]);
                    let rest = resolve_refs(article_path@, all.skip(i + 1), files@);
                    assert(errors_view(errors@) + rest.1 =~= errs + (seq![error@] + rest.1));
                }
            },
        }
        i = i + 1;
    }
    proof {
        assert(all.skip(refs.len() as int) =~= seq![]);
        assert(resolved_view(resolved@) + seq![] =~= resolved_view(resolved@));
        assert(errors_view(errors@) + seq![] =~= errors_view(errors@));
    }
    if errors.len() == 0 {
        Ok(resolved)
    } else {
        Err(errors)
    }
}

pub open spec fn without_paths(v: Seq<(ImageReferenceKind, Seq<char>, Seq<char>)>) -> Seq<(ImageReferenceKind, Seq<char>)> {
    v.map_values(|t: (ImageReferenceKind, Seq<char>, Seq<char>)| (t.0, t.1))
}

/// `resolve_image_references` without the image paths.
pub fn validate_image_references(article_path: &str, markdown: &str, files: &FileSnapshot) -> (r: Result<Vec<ImageReference>, Vec<ImageValidationError>>)
    ensures
        match resolution(article_path@, markdown@, files@) {
            Ok(v) => r matches Ok(x) && refs_view(x@) == without_paths(v),
            Err(e) => r matches Err(x) && errors_view(x@) == e,
        },
{
    match resolve_image_references(article_path, markdown, files) {
        Err(errors) => Err(errors),
        Ok(resolved) => {
            let mut out: Vec<ImageReference> = Vec::new();
            let mut i: usize = 0;
            while i < resolved.len()
                invariant
                    i <= resolved.len(),
                    refs_view(out@) =~= without_paths(resolved_view(resolved@)).take(i as int),
                decreases resolved.len() - i,
            {
                let ghost before = refs_view(out@);
                out.push(ImageReference { kind: resolved[i].kind, source: resolved[i].source.clone() });
                proof {
                    assert(refs_view(out@) =~= before.push((resolved@[i as int].kind, resolved@[i as int].source@)));
                    assert(without_paths(resolved_view(resolved@))[i as int] == (resolved@[i as int].kind, resolved@[i as int].source@));
                    assert(refs_view(out@) =~= without_paths(resolved_view(resolved@)).take(i + 1));
                }
                i = i + 1;
            }
            proof {
                assert(without_paths(resolved_view(resolved@)).take(resolved.len() as int) =~= without_paths(resolved_view(resolved@)));
            }
            Ok(out)
        },
    }
}


// ---------------------------------------------------------------------------
// Error messages
// ---------------------------------------------------------------------------

/// The message of a rejected image reference.
pub open spec fn image_error_message(e: ImageErrorView) -> Seq<char> {
    match e {
        ImageErrorView::AbsolutePath(a, s) => a + ": image path `"@ + s
            + "` must be relative to the article directory"@,
        ImageErrorView::UnsafePath(a, s) => a + ": image path `"@ + s
            + "` must stay inside the article directory"@,
        ImageErrorView::MissingExtension(a, s) => a + ": image path `"@ + s
            + "` must include a supported image extension"@,
        ImageErrorView::UnsupportedExtension(a, s, x) => a + ": unsupported image extension `."@
            + x + "` in `"@ + s + "`; supported extensions: "@
            + "png, jpg, jpeg, gif, webp, tiff, avif"@,
        ImageErrorView::MissingFile(a, s, p) => a + ": image path `"@ + s
            + "` does not exist at `"@ + p + "`"@,
        ImageErrorView::Symlink(a, s, p) => a + ": image path `"@ + s
            + "` points to a symlink at `"@ + p + "`"@,
        ImageErrorView::NotFile(a, s, p) => a + ": image path `"@ + s
            + "` must point to a file, got `"@ + p + "`"@,
    }
}

impl ImageValidationError {
    /// The message that names the article, the source and the reason.
    pub fn message(&self) -> (r: String)
        ensures
            r@ == image_error_message(self@),
    {
        let mut m = String::new();
        match self {
            ImageValidationError::AbsolutePath { article_path, source } => {
                m.append(article_path.as_str());
                m.append(": image path `");
                m.append(source.as_str());
                m.append("` must be relative to the article directory");
            },
            ImageValidationError::UnsafePath { article_path, source } => {
                m.append(article_path.as_str());
                m.append(": image path `");
                m.append(source.as_str());
                m.append("` must stay inside the article directory");
            },
            ImageValidationError::MissingExtension { article_path, source } => {
                m.append(article_path.as_str());
                m.append(": image path `");
                m.append(source.as_str());
                m.append("` must include a supported image extension");
            },
            ImageValidationError::UnsupportedExtension { article_path, source, extension } => {
                m.append(article_path.as_str());
                m.append(": unsupported image extension `.");
                m.append(extension.as_str());
                m.append("` in `");
                m.append(source.as_str());
                m.append("`; supported extensions: ");
                m.append("png, jpg, jpeg, gif, webp, tiff, avif");
            },
            ImageValidationError::MissingFile { article_path, source, image_path } => {
                m.append(article_path.as_str());
                m.append(": image path `");
                m.append(source.as_str());
                m.append("` does not exist at `");
                m.append(image_path.as_str());
                m.append("`");
            },
            ImageValidationError::Symlink { article_path, source, image_path } => {
                m.append(article_path.as_str());
                m.append(": image path `");
                m.append(source.as_str());
                m.append("` points to a symlink at `");
                m.append(image_path.as_str());
                m.append("`");
            },
            ImageValidationError::NotFile { article_path, source, image_path } => {
                m.append(article_path.as_str());
                m.append(": image path `");
                m.append(source.as_str());
                m.append("` must point to a file, got `");
                m.append(image_path.as_str());
                m.append("`");
            },
        }
        m
    }
}

// ---------------------------------------------------------------------------
// Resolved images stay inside the article directory
// ---------------------------------------------------------------------------

/// A component that names an entry of a directory: not empty, not `.` or
/// `..`, and free of `/`.
pub open spec fn is_named_component(part: Seq<char>) -> bool {
    &&& part.len() > 0
    &&& part != seq!['.']
    &&& part != seq!['.', '.']
    &&& !contains_char(part, '/')
}

proof fn lemma_split_pieces(s: Seq<char>, i: int, c: char)
    requires
        0 <= i <= s.len(),
    ensures
        forall|k: int|
            0 <= k < split_from(s, i, c).len() ==> !contains_char(#[trigger] split_from(s, i, c)[k], c),
    decreases s.len() - i,
{
    let k0 = find_class(s, i, CharClass::Exact(c));
    lemma_find_class(s, i, CharClass::Exact(c));
    let first = if k0 >= s.len() { s.subrange(i, s.len() as int) } else { s.subrange(i, k0) };
    lemma_find_class(first, 0, CharClass::Exact(c));
    if find_class(first, 0, CharClass::Exact(c)) < first.len() {
        let j = find_class(first, 0, CharClass::Exact(c));
        assert(first[j] == s[i + j]);
    }
    if k0 < s.len() {
        lemma_split_pieces(s, k0 + 1, c);
        let rest = split_from(s, k0 + 1, c);
        assert forall|k: int| 0 <= k < split_from(s, i, c).len() implies !contains_char(#[trigger] split_from(s, i, c)[k], c) by {
            if k > 0 {
                assert(split_from(s, i, c)[k] == rest[k - 1]);
            }
        }
    }
}

proof fn lemma_normal_parts(segs: Seq<Seq<char>>)
    requires
        forall|k: int| 0 <= k < segs.len() ==> !contains_char(#[trigger] segs[k], '/'),
        !has_parent_segment(segs),
    ensures
        forall|k: int| 0 <= k < normal_parts(segs).len() ==> is_named_component(#[trigger] normal_parts(segs)[k]),
    decreases segs.len(),
{
    if segs.len() > 0 {
        let rest = segs.drop_first();
        assert forall|k: int| 0 <= k < rest.len() implies !contains_char(#[trigger] rest[k], '/') by {
            assert(rest[k] == segs[k + 1]);
        }
        if has_parent_segment(rest) {
            let k = choose|k: int| 0 <= k < rest.len() && rest[k] == seq!['.', '.'];
            assert(segs[k + 1] == rest[k]);
        }
        lemma_normal_parts(rest);
        let head: Seq<Seq<char>> = if is_skipped_segment(segs[0]) { seq![] } else { seq![segs[0]] };
        assert(segs[0] != seq!['.', '.']);
        assert forall|k: int| 0 <= k < normal_parts(segs).len() implies is_named_component(#[trigger] normal_parts(segs)[k]) by {
            if k < head.len() {
                assert(normal_parts(segs)[k] == segs[0]);
            } else {
                assert(normal_parts(segs)[k] == normal_parts(rest)[k - head.len()]);
            }
        }
    }
}

/// Every image that resolves lies inside the article directory: its path is
/// the article directory followed by one or more named components, none of
/// them `.`, `..` or empty.
pub proof fn law_resolved_images_stay_inside_article_dir(
    article_path: Seq<char>,
    source: Seq<char>,
    files: Seq<(Seq<char>, FileKind)>,
)
    requires
        image_resolution(article_path, source, files) is Ok,
    ensures
        exists|parts: Seq<Seq<char>>|
            {
                &&& parts.len() > 0
                &&& forall|k: int| 0 <= k < parts.len() ==> is_named_component(#[trigger] parts[k])
                &&& image_resolution(article_path, source, files) == Ok::<Seq<char>, ImageErrorView>(
                    push_parts(article_dir_of(article_path), parts),
                )
            },
{
    let (dir, parts) = image_plan(article_path, source)->Ok_0;
    let segs = split_from(source, 0, '/');
    lemma_split_pieces(source, 0, '/');
    lemma_normal_parts(segs);
    assert(parts == normal_parts(segs));
}

/// Two answers of the file system agree on the paths `probes`.
pub open spec fn agree_on(probes: Seq<Seq<char>>, f1: Seq<(Seq<char>, FileKind)>, f2: Seq<(Seq<char>, FileKind)>) -> bool {
    forall|p: Seq<char>| probes.contains(p) ==> kind_in(f1, p) == kind_in(f2, p)
}

proof fn lemma_first_symlink_agrees(
    probes: Seq<Seq<char>>,
    f1: Seq<(Seq<char>, FileKind)>,
    f2: Seq<(Seq<char>, FileKind)>,
    k: int,
)
    requires
        agree_on(probes, f1, f2),
        0 <= k,
    ensures
        first_symlink_from(probes, f1, k) == first_symlink_from(probes, f2, k),
    decreases probes.len() - k,
{
    if k < probes.len() {
        assert(probes.contains(probes[k]));
        lemma_first_symlink_agrees(probes, f1, f2, k + 1);
    }
}

proof fn lemma_image_resolution_agrees(
    article_path: Seq<char>,
    source: Seq<char>,
    f1: Seq<(Seq<char>, FileKind)>,
    f2: Seq<(Seq<char>, FileKind)>,
)
    requires
        agree_on(plan_probes(article_path, source), f1, f2),
    ensures
        image_resolution(article_path, source, f1) == image_resolution(article_path, source, f2),
{
    match image_plan(article_path, source) {
        Err(_) => {},
        Ok((dir, parts)) => {
            let probes = probe_paths_of(dir, parts);
            lemma_first_symlink_agrees(probes, f1, f2, 0);
            assert(parts.take(parts.len() as int) =~= parts);
            assert(probes[parts.len() - 1] == push_parts(dir, parts));
            assert(probes.contains(probes[parts.len() - 1]));
        },
    }
}

proof fn lemma_resolve_refs_agree(
    article_path: Seq<char>,
    refs: Seq<(ImageReferenceKind, Seq<char>)>,
    f1: Seq<(Seq<char>, FileKind)>,
    f2: Seq<(Seq<char>, FileKind)>,
)
    requires
        agree_on(probes_for(article_path, refs), f1, f2),
    ensures
        resolve_refs(article_path, refs, f1) == resolve_refs(article_path, refs, f2),
    decreases refs.len(),
{
    if refs.len() > 0 {
        let head = plan_probes(article_path, refs[0].1);
        let tail = probes_for(article_path, refs.drop_first());
        assert(probes_for(article_path, refs) == head + tail);
        assert forall|p: Seq<char>| head.contains(p) implies kind_in(f1, p) == kind_in(f2, p) by {
            let j = choose|j: int| 0 <= j < head.len() && head[j] == p;
            assert((head + tail)[j] == p);
            assert((head + tail).contains(p));
        }
        assert forall|p: Seq<char>| tail.contains(p) implies kind_in(f1, p) == kind_in(f2, p) by {
            let j = choose|j: int| 0 <= j < tail.len() && tail[j] == p;
            assert((head + tail)[head.len() + j] == p);
            assert((head + tail).contains(p));
        }
        lemma_image_resolution_agrees(article_path, refs[0].1, f1, f2);
        lemma_resolve_refs_agree(article_path, refs.drop_first(), f1, f2);
    }
}

/// The image checks read the file system only at the paths of
/// `image_probe_paths`: two answers that agree there resolve the images of an
/// article alike.
pub proof fn law_image_checks_read_only_probe_paths(
    article_path: Seq<char>,
    markdown: Seq<char>,
    f1: Seq<(Seq<char>, FileKind)>,
    f2: Seq<(Seq<char>, FileKind)>,
)
    requires
        agree_on(probes_for(article_path, collected_refs(markdown)), f1, f2),
    ensures
        resolution(article_path, markdown, f1) == resolution(article_path, markdown, f2),
{
    lemma_resolve_refs_agree(article_path, collected_refs(markdown), f1, f2);
}

} // verus!
