//! Writing the id of a created item into the frontmatter of its article: the
//! `qiita_id` lines between the opening `---` line and the next `---` line
//! are rewritten, and every other line is kept as it is.
use crate::domain::frontmatter::delimiter;
use crate::text::{
    chars_eq, chars_of, content_len, extend_all, extend_chars, find_class, find_class_from,
    lemma_find_class, lemma_find_class_is, lemma_find_class_shift, line_end, matches_at, matches_at_exec, slice_chars,
    string_from_chars, trim_start, CharClass,
};
use crate::workflow::{WorkflowError, WorkflowErrorView};
use vstd::prelude::*;

verus! {

/// The pieces of a text from position `i` as `str::split_inclusive('\n')`
/// gives them: each line with its line feed.
pub open spec fn line_pieces(s: Seq<char>, i: int) -> Seq<Seq<char>>
    decreases s.len() - i,
{
    if i < 0 || i >= s.len() {
        seq![]
    } else {
        let e = line_end(s, i);
        proof {
            lemma_find_class(s, i, CharClass::Exact('\n'));
        }
        seq![s.subrange(i, e)] + line_pieces(s, e)
    }
}

/// The pieces one after the other.
pub open spec fn concat_pieces(ls: Seq<Seq<char>>) -> Seq<char>
    decreases ls.len(),
{
    if ls.len() == 0 {
        seq![]
    } else {
        concat_pieces(ls.drop_last()) + ls.last()
    }
}

/// A line without its ending.
pub open spec fn content_part(line: Seq<char>) -> Seq<char> {
    line.subrange(0, content_len(line))
}

/// The ending of a line: `\r\n`, `\n` or nothing.
pub open spec fn ending_part(line: Seq<char>) -> Seq<char> {
    line.subrange(content_len(line), line.len() as int)
}

/// Whether the reader is inside the frontmatter when it reaches the `k`-th
/// line: the first line opens it when it is `---`, and the next `---` line
/// closes it.
pub open spec fn inside_frontmatter(ls: Seq<Seq<char>>, k: int) -> bool
    decreases k,
{
    if k <= 0 {
        false
    } else {
        let before = inside_frontmatter(ls, k - 1);
        let c = content_part(ls[k - 1]);
        if k - 1 == 0 && c == delimiter() {
            true
        } else if before && c == delimiter() {
            false
        } else {
            before
        }
    }
}

/// A line whose text, leading whitespace left out, starts with `qiita_id:`.
pub open spec fn is_qiita_id_key(c: Seq<char>) -> bool {
    matches_at(trim_start(c), 0, "qiita_id:"@)
}

/// The `k`-th line is a `qiita_id` line of the frontmatter.
pub open spec fn rewrites_line(ls: Seq<Seq<char>>, k: int) -> bool {
    inside_frontmatter(ls, k) && is_qiita_id_key(content_part(ls[k]))
}

/// `id` with each `"` written `\"`.
pub open spec fn escape_quotes(id: Seq<char>) -> Seq<char>
    decreases id.len(),
{
    if id.len() == 0 {
        seq![]
    } else {
        escape_quotes(id.drop_last()) + if id.last() == '"' {
            seq!['\\', '"']
        } else {
            seq![id.last()]
        }
    }
}

/// The leading whitespace of a line.
pub open spec fn indent_of(c: Seq<char>) -> Seq<char> {
    c.subrange(0, find_class(c, 0, CharClass::NotWhitespace))
}

/// The line `qiita_id: "<id>"`, with the indentation of `c`.
pub open spec fn qiita_id_line(c: Seq<char>, id: Seq<char>) -> Seq<char> {
    indent_of(c) + "qiita_id: \""@ + escape_quotes(id) + "\""@
}

/// The `k`-th line after the rewrite.
pub open spec fn rewritten_line(ls: Seq<Seq<char>>, k: int, id: Seq<char>) -> Seq<char> {
    if rewrites_line(ls, k) {
        qiita_id_line(content_part(ls[k]), id) + ending_part(ls[k])
    } else {
        ls[k]
    }
}

pub open spec fn rewritten_lines(ls: Seq<Seq<char>>, id: Seq<char>) -> Seq<Seq<char>> {
    Seq::new(ls.len(), |k: int| rewritten_line(ls, k, id))
}

/// The article with `id` written into the `qiita_id` lines of its
/// frontmatter, or `None` when it has none.
pub open spec fn qiita_id_rewrite(content: Seq<char>, id: Seq<char>) -> Option<Seq<char>> {
    let ls = line_pieces(content, 0);
    if exists|k: int| 0 <= k < ls.len() && #[trigger] rewrites_line(ls, k) {
        Some(concat_pieces(rewritten_lines(ls, id)))
    } else {
        None
    }
}

fn escape_quotes_exec(id: &Vec<char>) -> (r: Vec<char>)
    ensures
        r@ == escape_quotes(id@),
{
    let mut r: Vec<char> = Vec::new();
    let mut i: usize = 0;
    while i < id.len()
        invariant
            i <= id.len(),
            r@ == escape_quotes(id@.take(i as int)),
        decreases id.len() - i,
    {
        proof {
            assert(id@.take(i + 1).drop_last() =~= id@.take(i as int));
        }
        let ghost before = r@;
        if id[i] == '"' {
            r.push('\\');
            r.push('"');
            assert(r@ =~= before + seq!['\\', '"']);
        } else {
            r.push(id[i]);
            assert(r@ =~= before + seq![id@[i as int]]);
        }
        i = i + 1;
    }
    assert(id@.take(id.len() as int) =~= id@);
    r
}

proof fn lemma_line_pieces_step(s: Seq<char>, i: int)
    requires
        0 <= i < s.len(),
    ensures
        i < line_end(s, i) <= s.len(),
        line_pieces(s, i) == seq![s.subrange(i, line_end(s, i))] + line_pieces(s, line_end(s, i)),
{
    lemma_find_class(s, i, CharClass::Exact('\n'));
}

/// Writes the id of a created item into the `qiita_id` lines of the
/// frontmatter of the article at `path`, whose text is `content`; the value is
/// written as a double-quoted YAML string. An article with no such line is an
/// error.
#[verifier::spinoff_prover]
#[verifier::rlimit(80)]
pub fn replace_qiita_id_in_frontmatter(path: &str, content: &str, qiita_id: &str) -> (r: Result<
    String,
    WorkflowError,
>)
    ensures
        match qiita_id_rewrite(content@, qiita_id@) {
            Some(t) => r matches Ok(x) && x@ == t,
            None => r matches Err(e) && e@ == WorkflowErrorView::InvalidFrontmatter(
                path@,
                "missing required frontmatter field `qiita_id`"@,
            ),
        },
{
    let s = chars_of(content);
    let idc = chars_of(qiita_id);
    let esc = escape_quotes_exec(&idc);
    let dash = chars_of("---");
    let key = chars_of("qiita_id:");
    let opening = chars_of("qiita_id: \"");
    let ghost ls = line_pieces(s@, 0);
    let ghost out_lines = rewritten_lines(ls, qiita_id@);
    let mut out: Vec<char> = Vec::new();
    let mut in_frontmatter = false;
    let mut replaced = false;
    let mut i: usize = 0;
    let ghost mut k: int = 0;
    proof {
        reveal_strlit("---");
        assert(dash@ =~= delimiter());
        assert(ls.subrange(0, ls.len() as int) =~= ls);
        assert(out_lines.take(0) =~= Seq::<Seq<char>>::empty());
    }
    while i < s.len()
        invariant
            i <= s.len(),
            0 <= k <= ls.len(),
            ls == line_pieces(s@, 0),
            out_lines == rewritten_lines(ls, qiita_id@),
            ls.subrange(k, ls.len() as int) == line_pieces(s@, i as int),
            dash@ == delimiter(),
            key@ == "qiita_id:"@,
            opening@ == "qiita_id: \""@,
            esc@ == escape_quotes(qiita_id@),
            in_frontmatter == inside_frontmatter(ls, k),
            replaced == (exists|j: int| 0 <= j < k && #[trigger] rewrites_line(ls, j)),
            out@ == concat_pieces(out_lines.take(k)),
            k == 0 <==> i == 0,
        decreases s.len() - i,
    {
        proof {
            lemma_line_pieces_step(s@, i as int);
            reveal_strlit("qiita_id:");
            assert(line_pieces(s@, i as int).len() > 0);
            assert(k < ls.len());
            assert(ls.subrange(k, ls.len() as int)[0] == ls[k]);
            assert(line_pieces(s@, i as int)[0] == ls[k]);
            assert(ls.subrange(k + 1, ls.len() as int) =~= line_pieces(s@, i as int).drop_first());
            assert(out_lines.take(k + 1).drop_last() =~= out_lines.take(k));
        }
        let nl = find_class_from(&s, i, CharClass::Exact('\n'));
        let e = if nl < s.len() {
            nl + 1
        } else {
            s.len()
        };
        let cend = if e - i >= 2 && s[e - 2] == '\r' && s[e - 1] == '\n' {
            e - 2
        } else if e - i >= 1 && s[e - 1] == '\n' {
            e - 1
        } else {
            e
        };
        let c = slice_chars(&s, i, cend);
        proof {
            let line = s@.subrange(i as int, e as int);
            assert(line == ls[k]);
            assert(content_len(line) == cend - i);
            assert(c@ =~= content_part(ls[k]));
            assert(s@.subrange(cend as int, e as int) =~= ending_part(ls[k]));
        }
        let is_delimiter = chars_eq(&c, &dash);
        let ghost before = out@;
        if i == 0 && is_delimiter {
            in_frontmatter = true;
            extend_chars(&mut out, &s, i, e);
            assert(!rewrites_line(ls, k));
        } else if in_frontmatter && is_delimiter {
            in_frontmatter = false;
            extend_chars(&mut out, &s, i, e);
            assert(!is_qiita_id_key(c@));
        } else {
            let a = find_class_from(&c, 0, CharClass::NotWhitespace);
            let is_key = matches_at_exec(&c, a, &key);
            proof {
                lemma_find_class(c@, 0, CharClass::NotWhitespace);
                lemma_matches_shift(c@, a as int, "qiita_id:"@);
            }
            if in_frontmatter && is_key {
                extend_chars(&mut out, &c, 0, a);
                extend_all(&mut out, &opening);
                extend_all(&mut out, &esc);
                out.push('"');
                extend_chars(&mut out, &s, cend, e);
                replaced = true;
                proof {
                    reveal_strlit("\"");
                    assert(out@ =~= before + (qiita_id_line(c@, qiita_id@) + ending_part(ls[k])));
                }
            } else {
                extend_chars(&mut out, &s, i, e);
                assert(!rewrites_line(ls, k));
            }
        }
        proof {
            assert(out@ == before + out_lines[k]);
            assert(out_lines.take(k + 1).last() == out_lines[k]);
            if rewrites_line(ls, k) {
                assert(exists|j: int| 0 <= j < k + 1 && #[trigger] rewrites_line(ls, j));
            }
            k = k + 1;
        }
        i = e;
    }
    proof {
        assert(line_pieces(s@, i as int) =~= Seq::<Seq<char>>::empty());
        assert(k == ls.len());
        assert(out_lines.take(k) =~= out_lines);
    }
    if replaced {
        Ok(string_from_chars(&out))
    } else {
        Err(
            WorkflowError::InvalidFrontmatter {
                path: path.to_owned(),
                message: "missing required frontmatter field `qiita_id`".to_owned(),
            },
        )
    }
}

/// `pat` at the first non-whitespace character of `c` is `pat` at the start
/// of `trim_start(c)`.
proof fn lemma_matches_shift(c: Seq<char>, a: int, pat: Seq<char>)
    requires
        0 <= a <= c.len(),
        a == find_class(c, 0, CharClass::NotWhitespace),
    ensures
        matches_at(c, a, pat) == matches_at(trim_start(c), 0, pat),
{
    let t = trim_start(c);
    assert(t =~= c.subrange(a, c.len() as int));
    if matches_at(c, a, pat) {
        assert(t.subrange(0, pat.len() as int) =~= c.subrange(a, a + pat.len()));
    }
    if matches_at(t, 0, pat) {
        assert(t.subrange(0, pat.len() as int) =~= c.subrange(a, a + pat.len()));
    }
}

// ---------------------------------------------------------------------------
// What the rewrite keeps
// ---------------------------------------------------------------------------

/// A line with its line feed, if it has one, and no other line feed.
pub open spec fn is_piece(p: Seq<char>) -> bool {
    p.len() > 0 && forall|j: int| 0 <= j < p.len() - 1 ==> #[trigger] p[j] != '\n'
}

/// Pieces that make a text: each is a line, and all but the last end with
/// a line feed.
pub open spec fn well_formed_pieces(ls: Seq<Seq<char>>) -> bool {
    forall|k: int|
        0 <= k < ls.len() ==> is_piece(#[trigger] ls[k]) && (k < ls.len() - 1 ==> ls[k].last()
            == '\n')
}

pub open spec fn has_no_line_feed(s: Seq<char>) -> bool {
    forall|j: int| 0 <= j < s.len() ==> #[trigger] s[j] != '\n'
}

proof fn lemma_line_pieces_shift(x: Seq<char>, y: Seq<char>, j: int)
    requires
        0 <= j <= y.len(),
    ensures
        line_pieces(x + y, x.len() + j) == line_pieces(y, j),
    decreases y.len() - j,
{
    if j < y.len() {
        lemma_find_class_shift(x, y, j, CharClass::Exact('\n'));
        lemma_find_class(y, j, CharClass::Exact('\n'));
        let e = line_end(y, j);
        assert(line_end(x + y, x.len() + j) == x.len() + e);
        assert((x + y).subrange(x.len() + j, x.len() + e) =~= y.subrange(j, e));
        lemma_line_pieces_shift(x, y, e);
    }
}

proof fn lemma_line_pieces_prefix(x: Seq<char>, y: Seq<char>, i: int)
    requires
        0 <= i <= x.len(),
        x.len() == 0 || x.last() == '\n',
    ensures
        line_pieces(x + y, i) == line_pieces(x, i) + line_pieces(y, 0),
    decreases x.len() - i,
{
    if i == x.len() {
        lemma_line_pieces_shift(x, y, 0);
        assert(line_pieces(x, i) =~= Seq::<Seq<char>>::empty());
        assert(line_pieces(x, i) + line_pieces(y, 0) =~= line_pieces(y, 0));
    } else {
        let cls = CharClass::Exact('\n');
        lemma_find_class(x, i, cls);
        let f = find_class(x, i, cls);
        assert(f < x.len()) by {
            if f == x.len() {
                assert(!crate::text::in_class(cls, x[x.len() - 1]));
            }
        }
        assert forall|j: int| i <= j < f implies !crate::text::in_class(cls, #[trigger] (x + y)[j]) by {
            assert((x + y)[j] == x[j]);
        }
        assert((x + y)[f] == x[f]);
        crate::text::lemma_find_class_is(x + y, i, cls, f);
        let e = f + 1;
        assert(line_end(x + y, i) == e);
        assert((x + y).subrange(i, e) =~= x.subrange(i, e));
        lemma_line_pieces_prefix(x, y, e);
        assert(line_pieces(x + y, i) =~= seq![x.subrange(i, e)] + (line_pieces(x, e) + line_pieces(y, 0)));
        assert(line_pieces(x, i) =~= seq![x.subrange(i, e)] + line_pieces(x, e));
    }
}

proof fn lemma_single_piece(p: Seq<char>)
    requires
        is_piece(p),
    ensures
        line_pieces(p, 0) == seq![p],
{
    let cls = CharClass::Exact('\n');
    lemma_find_class(p, 0, cls);
    let f = find_class(p, 0, cls);
    if f < p.len() {
        assert(f == p.len() - 1) by {
            if f < p.len() - 1 {
                assert(p[f] != '\n');
            }
        }
    }
    assert(line_end(p, 0) == p.len());
    assert(p.subrange(0, p.len() as int) =~= p);
    assert(line_pieces(p, p.len() as int) =~= Seq::<Seq<char>>::empty());
    assert(line_pieces(p, 0) =~= seq![p]);
}

/// The pieces of a text made of well-formed pieces are these pieces.
proof fn lemma_pieces_of_concat(ls: Seq<Seq<char>>)
    requires
        well_formed_pieces(ls),
    ensures
        line_pieces(concat_pieces(ls), 0) == ls,
    decreases ls.len(),
{
    if ls.len() == 0 {
        assert(line_pieces(seq![], 0) =~= ls);
    } else {
        let init = ls.drop_last();
        let p = ls.last();
        assert forall|k: int| 0 <= k < init.len() implies is_piece(#[trigger] init[k]) && (k
            < init.len() - 1 ==> init[k].last() == '\n') by {
            assert(init[k] == ls[k]);
        }
        lemma_pieces_of_concat(init);
        let x = concat_pieces(init);
        if init.len() > 0 {
            assert(is_piece(ls[init.len() - 1]));
            assert(x == concat_pieces(init.drop_last()) + init.last());
            assert(x.last() == init.last().last());
            assert(init.last() == ls[ls.len() - 2]);
        } else {
            assert(x =~= Seq::<char>::empty());
        }
        assert(is_piece(ls[ls.len() - 1]));
        lemma_line_pieces_prefix(x, p, 0);
        lemma_single_piece(p);
        assert(concat_pieces(ls) == x + p);
        assert(ls =~= init + seq![p]);
    }
}

/// The pieces of any text are well formed.
proof fn lemma_pieces_well_formed(s: Seq<char>, i: int)
    requires
        0 <= i <= s.len(),
    ensures
        well_formed_pieces(line_pieces(s, i)),
    decreases s.len() - i,
{
    if i < s.len() {
        let cls = CharClass::Exact('\n');
        lemma_line_pieces_step(s, i);
        lemma_find_class(s, i, cls);
        let f = find_class(s, i, cls);
        let e = line_end(s, i);
        let p = s.subrange(i, e);
        let rest = line_pieces(s, e);
        assert forall|j: int| 0 <= j < p.len() - 1 implies #[trigger] p[j] != '\n' by {
            assert(p[j] == s[i + j]);
        }
        lemma_pieces_well_formed(s, e);
        if rest.len() > 0 {
            assert(e < s.len());
            assert(p.last() == s[f]);
        }
        let ls = line_pieces(s, i);
        assert forall|k: int| 0 <= k < ls.len() implies is_piece(#[trigger] ls[k]) && (k < ls.len()
            - 1 ==> ls[k].last() == '\n') by {
            if k > 0 {
                assert(ls[k] == rest[k - 1]);
            } else {
                assert(ls[k] == p);
            }
        }
    } else {
        assert(line_pieces(s, i) =~= Seq::<Seq<char>>::empty());
    }
}

/// A line is its text and its ending; the text holds no line feed, and the
/// ending is `\r\n`, `\n` or nothing.
proof fn lemma_line_parts(line: Seq<char>)
    requires
        is_piece(line),
    ensures
        line == content_part(line) + ending_part(line),
        has_no_line_feed(content_part(line)),
        ending_part(line) == seq!['\r', '\n'] || ending_part(line) == seq!['\n']
            || ending_part(line).len() == 0,
        line.last() == '\n' ==> ending_part(line).len() > 0,
{
    let n = content_len(line);
    assert(line =~= content_part(line) + ending_part(line));
    assert forall|j: int| 0 <= j < content_part(line).len() implies #[trigger] content_part(line)[j]
        != '\n' by {
        assert(content_part(line)[j] == line[j]);
    }
    if n == line.len() - 2 {
        assert(ending_part(line) =~= seq!['\r', '\n']);
    } else if n == line.len() - 1 {
        assert(ending_part(line) =~= seq!['\n']);
    }
}

proof fn lemma_escape_no_line_feed(id: Seq<char>)
    requires
        has_no_line_feed(id),
    ensures
        has_no_line_feed(escape_quotes(id)),
    decreases id.len(),
{
    if id.len() > 0 {
        assert(has_no_line_feed(id.drop_last())) by {
            assert forall|j: int| 0 <= j < id.drop_last().len() implies #[trigger] id.drop_last()[j]
                != '\n' by {
                assert(id.drop_last()[j] == id[j]);
            }
        }
        lemma_escape_no_line_feed(id.drop_last());
        let tail = if id.last() == '"' {
            seq!['\\', '"']
        } else {
            seq![id.last()]
        };
        let e = escape_quotes(id.drop_last()) + tail;
        assert(escape_quotes(id) == e);
        assert forall|j: int| 0 <= j < e.len() implies #[trigger] e[j] != '\n' by {
            if j >= escape_quotes(id.drop_last()).len() {
                assert(id[id.len() - 1] != '\n');
            }
        }
    }
}

/// The rewritten line has no line feed and ends with `"`, and it is a
/// `qiita_id` line with the indentation of `c`.
proof fn lemma_qiita_id_line(c: Seq<char>, id: Seq<char>)
    requires
        has_no_line_feed(c),
        has_no_line_feed(id),
    ensures
        has_no_line_feed(qiita_id_line(c, id)),
        qiita_id_line(c, id).len() > 3,
        qiita_id_line(c, id).last() == '"',
        indent_of(qiita_id_line(c, id)) == indent_of(c),
        is_qiita_id_key(qiita_id_line(c, id)),
{
    reveal_strlit("qiita_id: \"");
    reveal_strlit("\"");
    reveal_strlit("qiita_id:");
    let cls = CharClass::NotWhitespace;
    lemma_find_class(c, 0, cls);
    let a = find_class(c, 0, cls);
    let indent = indent_of(c);
    let esc = escape_quotes(id);
    lemma_escape_no_line_feed(id);
    let q = qiita_id_line(c, id);
    assert(q =~= indent + "qiita_id: \""@ + esc + "\""@);
    assert forall|j: int| 0 <= j < q.len() implies #[trigger] q[j] != '\n' by {
        if j < indent.len() {
            assert(q[j] == c[j]);
        } else if j < indent.len() + 11 {
            assert(q[j] == "qiita_id: \""@[j - indent.len()]);
        } else if j < indent.len() + 11 + esc.len() {
            assert(q[j] == esc[j - indent.len() - 11]);
        }
    }
    assert forall|j: int| 0 <= j < a implies !crate::text::in_class(cls, #[trigger] q[j]) by {
        assert(q[j] == c[j]);
    }
    assert(q[a] == 'q');
    crate::text::lemma_find_class_is(q, 0, cls, a);
    assert(indent_of(q) =~= indent);
    assert(trim_start(q).subrange(0, 9) =~= "qiita_id:"@);
}

/// The text and ending of a line made of `q` and an ending.
proof fn lemma_parts_of_joined(q: Seq<char>, ending: Seq<char>)
    requires
        q.len() > 0,
        q.last() != '\r',
        q.last() != '\n',
        ending == seq!['\r', '\n'] || ending == seq!['\n'] || ending.len() == 0,
    ensures
        content_part(q + ending) == q,
        ending_part(q + ending) == ending,
{
    let l = q + ending;
    if ending.len() == 0 {
        assert(l =~= q);
    }
    assert(content_part(l) =~= q);
    assert(ending_part(l) =~= ending);
}

/// The rewritten lines are well formed, and each rewritten one is the new
/// `qiita_id` line followed by the old ending.
proof fn lemma_rewritten_well_formed(ls: Seq<Seq<char>>, id: Seq<char>)
    requires
        well_formed_pieces(ls),
        has_no_line_feed(id),
    ensures
        well_formed_pieces(rewritten_lines(ls, id)),
        forall|k: int|
            0 <= k < ls.len() && rewrites_line(ls, k) ==> content_part(
                #[trigger] rewritten_lines(ls, id)[k],
            ) == qiita_id_line(content_part(ls[k]), id) && ending_part(rewritten_lines(ls, id)[k])
                == ending_part(ls[k]),
{
    let out = rewritten_lines(ls, id);
    assert forall|k: int| 0 <= k < out.len() implies is_piece(#[trigger] out[k]) && (k < out.len()
        - 1 ==> out[k].last() == '\n') && (rewrites_line(ls, k) ==> content_part(out[k])
        == qiita_id_line(content_part(ls[k]), id) && ending_part(out[k]) == ending_part(ls[k])) by {
        assert(is_piece(ls[k]));
        if rewrites_line(ls, k) {
            let c = content_part(ls[k]);
            let ending = ending_part(ls[k]);
            lemma_line_parts(ls[k]);
            lemma_qiita_id_line(c, id);
            let q = qiita_id_line(c, id);
            assert(out[k] == q + ending);
            lemma_parts_of_joined(q, ending);
            assert forall|j: int| 0 <= j < out[k].len() - 1 implies #[trigger] out[k][j] != '\n' by {
                if j < q.len() {
                    assert(out[k][j] == q[j]);
                } else {
                    assert(out[k][j] == ending[j - q.len()]);
                }
            }
            if k < out.len() - 1 {
                assert(ending.len() > 0);
                assert(out[k].last() == ending.last());
            }
        }
    }
}

/// Writing a `qiita_id` adds and removes no line of the article and changes
/// none but the `qiita_id` lines of its frontmatter, which read
/// `qiita_id: "<id>"` with their indentation and line ending kept; for an id
/// without line feeds.
pub proof fn law_qiita_id_rewrite_changes_only_qiita_id_lines(content: Seq<char>, id: Seq<char>)
    requires
        has_no_line_feed(id),
        qiita_id_rewrite(content, id) is Some,
    ensures
        ({
            let ls = line_pieces(content, 0);
            let out = line_pieces(qiita_id_rewrite(content, id)->0, 0);
            &&& out.len() == ls.len()
            &&& forall|k: int| 0 <= k < ls.len() && !rewrites_line(ls, k) ==> #[trigger] out[k] == ls[k]
            &&& forall|k: int|
                0 <= k < ls.len() && #[trigger] rewrites_line(ls, k) ==> content_part(out[k])
                    == qiita_id_line(content_part(ls[k]), id) && ending_part(out[k]) == ending_part(
                    ls[k],
                )
        }),
{
    let ls = line_pieces(content, 0);
    lemma_pieces_well_formed(content, 0);
    lemma_rewritten_well_formed(ls, id);
    lemma_pieces_of_concat(rewritten_lines(ls, id));
    let out = line_pieces(qiita_id_rewrite(content, id)->0, 0);
    assert(out == rewritten_lines(ls, id));
}

/// An article without a frontmatter (its first line is not `---`) has no
/// `qiita_id` line to write.
pub proof fn law_no_frontmatter_no_qiita_id_line(content: Seq<char>, id: Seq<char>)
    requires
        line_pieces(content, 0).len() == 0 || content_part(line_pieces(content, 0)[0]) != delimiter(),
    ensures
        qiita_id_rewrite(content, id) is None,
{
    let ls = line_pieces(content, 0);
    assert forall|k: int| 0 <= k < ls.len() implies !#[trigger] rewrites_line(ls, k) by {
        lemma_never_inside(ls, k);
    }
}

proof fn lemma_never_inside(ls: Seq<Seq<char>>, k: int)
    requires
        0 <= k <= ls.len(),
        ls.len() == 0 || content_part(ls[0]) != delimiter(),
    ensures
        !inside_frontmatter(ls, k),
    decreases k,
{
    if k > 0 {
        lemma_never_inside(ls, k - 1);
    }
}

proof fn lemma_inside_same(ls: Seq<Seq<char>>, ms: Seq<Seq<char>>, k: int)
    requires
        ls.len() == ms.len(),
        0 <= k <= ls.len(),
        forall|j: int|
            0 <= j < ls.len() ==> (content_part(#[trigger] ls[j]) == delimiter()) == (content_part(
                ms[j],
            ) == delimiter()),
    ensures
        inside_frontmatter(ls, k) == inside_frontmatter(ms, k),
    decreases k,
{
    if k > 0 {
        lemma_inside_same(ls, ms, k - 1);
        assert((content_part(ls[k - 1]) == delimiter()) == (content_part(ms[k - 1]) == delimiter()));
    }
}

/// Writing the same `qiita_id` a second time changes nothing; for an id
/// without line feeds.
pub proof fn law_qiita_id_rewrite_is_idempotent(content: Seq<char>, id: Seq<char>)
    requires
        has_no_line_feed(id),
        qiita_id_rewrite(content, id) is Some,
    ensures
        qiita_id_rewrite(qiita_id_rewrite(content, id)->0, id) == qiita_id_rewrite(content, id),
{
    reveal_strlit("qiita_id:");
    let ls = line_pieces(content, 0);
    let once = qiita_id_rewrite(content, id)->0;
    let ms = rewritten_lines(ls, id);
    lemma_pieces_well_formed(content, 0);
    lemma_rewritten_well_formed(ls, id);
    lemma_pieces_of_concat(ms);
    assert(line_pieces(once, 0) == ms);
    assert forall|j: int| 0 <= j < ls.len() implies (content_part(#[trigger] ls[j]) == delimiter())
        == (content_part(ms[j]) == delimiter()) by {
        if rewrites_line(ls, j) {
            assert(is_piece(ls[j]));
            lemma_line_parts(ls[j]);
            lemma_qiita_id_line(content_part(ls[j]), id);
            assert(content_part(ls[j]).len() >= 9) by {
                lemma_find_class(content_part(ls[j]), 0, CharClass::NotWhitespace);
                assert(trim_start(content_part(ls[j])).len() >= 9);
            }
        }
    }
    assert forall|k: int| 0 <= k < ms.len() implies #[trigger] rewrites_line(ms, k) == rewrites_line(
        ls,
        k,
    ) && rewritten_line(ms, k, id) == ms[k] by {
        lemma_inside_same(ls, ms, k);
        if rewrites_line(ls, k) {
            assert(is_piece(ls[k]));
            let c = content_part(ls[k]);
            lemma_line_parts(ls[k]);
            lemma_qiita_id_line(c, id);
            let q = qiita_id_line(c, id);
            assert(content_part(ms[k]) == q);
            lemma_qiita_id_line(q, id);
            assert(qiita_id_line(q, id) =~= q);
            assert(ms[k] =~= q + ending_part(ls[k]));
        }
    }
    assert(rewritten_lines(ms, id) =~= ms);
    let k0 = choose|k: int| 0 <= k < ls.len() && #[trigger] rewrites_line(ls, k);
    assert(rewrites_line(ms, k0));
}

} // verus!
