//! Which articles a change touches, from the `git diff --name-status
//! --find-renames` listing of the change.
use crate::text::{
    char_vecs_view, chars_eq, chars_of, content_len, find_class_from, is_blank, is_blank_chars,
    join_strings, join_with, strings_view, lemma_find_class, line_end, normal_parts, slice_chars, split_chars,
    split_from, string_from_chars, CharClass,
};
use vstd::prelude::*;

verus! {

/// An article directory that a change touches; `is_new` when the change adds
/// its `article.md`.
#[derive(Debug, Clone, PartialEq, Eq)]
pub struct ChangedArticle {
    pub slug: String,
    pub is_new: bool,
}

impl View for ChangedArticle {
    type V = (Seq<char>, bool);

    open spec fn view(&self) -> (Seq<char>, bool) {
        (self.slug@, self.is_new)
    }
}

pub open spec fn articles_view(v: Seq<ChangedArticle>) -> Seq<(Seq<char>, bool)> {
    v.map_values(|a: ChangedArticle| a@)
}

#[derive(Debug, PartialEq, Eq)]
pub enum DiffError {
    GitFailed(String),
    InvalidDiffLine(String),
    ForbiddenRename { from: String, to: String },
    MultipleNewArticles { slugs: Vec<String> },
}

pub enum DiffErrorView {
    GitFailed(Seq<char>),
    InvalidDiffLine(Seq<char>),
    ForbiddenRename(Seq<char>, Seq<char>),
    MultipleNewArticles(Seq<Seq<char>>),
}


impl View for DiffError {
    type V = DiffErrorView;

    open spec fn view(&self) -> DiffErrorView {
        match self {
            DiffError::GitFailed(m) => DiffErrorView::GitFailed(m@),
            DiffError::InvalidDiffLine(l) => DiffErrorView::InvalidDiffLine(l@),
            DiffError::ForbiddenRename { from, to } => DiffErrorView::ForbiddenRename(from@, to@),
            DiffError::MultipleNewArticles { slugs } => DiffErrorView::MultipleNewArticles(
                strings_view(slugs@),
            ),
        }
    }
}

/// The lines of a text from position `i`, as `str::lines` gives them: split
/// after each line feed, without the line feed or a carriage return before
/// it.
pub open spec fn lines_from(s: Seq<char>, i: int) -> Seq<Seq<char>>
    decreases s.len() - i,
{
    if i < 0 || i >= s.len() {
        seq![]
    } else {
        let e = line_end(s, i);
        proof {
            lemma_find_class(s, i, CharClass::Exact('\n'));
        }
        let line = s.subrange(i, e);
        seq![line.subrange(0, content_len(line))] + lines_from(s, e)
    }
}

/// One line of the listing.
pub enum DiffEntryView {
    Changed(Seq<char>, Seq<char>),
    Renamed(Seq<char>, Seq<char>, Seq<char>),
}

/// `parse_name_status_line`: `status<TAB>path`, or a rename
/// `R...<TAB>old<TAB>new`.
pub open spec fn parse_entry(line: Seq<char>) -> Option<DiffEntryView> {
    let parts = split_from(line, 0, '\t');
    if parts.len() == 2 && parts[0].len() > 0 {
        Some(DiffEntryView::Changed(parts[0], parts[1]))
    } else if parts.len() == 3 && parts[0].len() > 0 && parts[0][0] == 'R' && parts[1].len() > 0 {
        Some(DiffEntryView::Renamed(parts[0], parts[1], parts[2]))
    } else {
        None
    }
}

pub open spec fn articles_dir_name() -> Seq<char> {
    seq!['a', 'r', 't', 'i', 'c', 'l', 'e', 's']
}

pub open spec fn article_file_name() -> Seq<char> {
    seq!['a', 'r', 't', 'i', 'c', 'l', 'e', '.', 'm', 'd']
}

/// The named components of a relative Unix path that starts with a named
/// component; `None` when `Path::components` would start with the root or
/// with `.`.
pub open spec fn leading_named_parts(path: Seq<char>) -> Option<Seq<Seq<char>>> {
    let segs = split_from(path, 0, '/');
    if (path.len() > 0 && path[0] == '/') || segs[0] == seq!['.'] {
        None
    } else {
        Some(normal_parts(segs))
    }
}

/// `article_slug`: the directory under `articles/` that a path lies in.
pub open spec fn article_slug_of(path: Seq<char>) -> Option<Seq<char>> {
    match leading_named_parts(path) {
        None => None,
        Some(parts) => if parts.len() >= 2 && parts[0] == articles_dir_name() && parts[1] != seq![
            '.',
            '.',
        ] {
            Some(parts[1])
        } else {
            None
        },
    }
}

/// `is_article_file`: the path is `articles/<slug>/article.md`.
pub open spec fn is_article_file_path(path: Seq<char>) -> bool {
    match leading_named_parts(path) {
        None => false,
        Some(parts) => parts.len() == 3 && parts[0] == articles_dir_name() && parts[1] != seq![
            '.',
            '.',
        ] && parts[2] == article_file_name(),
    }
}

/// `a` comes before `b` in the order of `String`: by code points, a proper
/// prefix first; compared from position `i` on.
pub open spec fn lex_lt_from(a: Seq<char>, b: Seq<char>, i: int) -> bool
    decreases a.len() - i,
{
    if i < 0 {
        false
    } else if i >= a.len() {
        i < b.len()
    } else if i >= b.len() {
        false
    } else if a[i] != b[i] {
        a[i] < b[i]
    } else {
        lex_lt_from(a, b, i + 1)
    }
}

pub open spec fn lex_lt(a: Seq<char>, b: Seq<char>) -> bool {
    lex_lt_from(a, b, 0)
}

/// The articles so far, in the order of their slugs, after recording that the
/// change touches `slug` (and, when `new`, adds its article file).
pub open spec fn upsert(v: Seq<(Seq<char>, bool)>, slug: Seq<char>, new: bool) -> Seq<
    (Seq<char>, bool),
>
    decreases v.len(),
{
    if v.len() == 0 {
        seq![(slug, new)]
    } else if v[0].0 == slug {
        seq![(slug, v[0].1 || new)] + v.drop_first()
    } else if lex_lt(slug, v[0].0) {
        seq![(slug, new)] + v
    } else {
        seq![v[0]] + upsert(v.drop_first(), slug, new)
    }
}

/// Records the slug, if any.
pub open spec fn upsert_opt(v: Seq<(Seq<char>, bool)>, slug: Option<Seq<char>>) -> Seq<
    (Seq<char>, bool),
> {
    match slug {
        Some(s) => upsert(v, s, false),
        None => v,
    }
}

/// One line applied to the articles so far.
pub open spec fn apply_entry(v: Seq<(Seq<char>, bool)>, e: DiffEntryView) -> Result<
    Seq<(Seq<char>, bool)>,
    DiffErrorView,
> {
    match e {
        DiffEntryView::Changed(status, path) => match article_slug_of(path) {
            Some(slug) => Ok(upsert(v, slug, status == seq!['A'] && is_article_file_path(path))),
            None => Ok(v),
        },
        DiffEntryView::Renamed(_status, old_path, new_path) => {
            let from = article_slug_of(old_path);
            let to = article_slug_of(new_path);
            if from is Some && to is Some && from->0 != to->0 {
                Err(DiffErrorView::ForbiddenRename(from->0, to->0))
            } else {
                Ok(upsert_opt(upsert_opt(v, from), to))
            }
        },
    }
}

/// The lines from the `k`-th on applied to the articles so far; blank lines
/// are skipped.
pub open spec fn apply_lines(lines: Seq<Seq<char>>, k: int, v: Seq<(Seq<char>, bool)>) -> Result<
    Seq<(Seq<char>, bool)>,
    DiffErrorView,
>
    decreases lines.len() - k,
{
    if k < 0 || k >= lines.len() {
        Ok(v)
    } else if is_blank(lines[k]) {
        apply_lines(lines, k + 1, v)
    } else {
        match parse_entry(lines[k]) {
            None => Err(DiffErrorView::InvalidDiffLine(lines[k])),
            Some(e) => match apply_entry(v, e) {
                Err(x) => Err(x),
                Ok(v2) => apply_lines(lines, k + 1, v2),
            },
        }
    }
}

/// The slugs of the new articles, in order.
pub open spec fn new_slugs(v: Seq<(Seq<char>, bool)>) -> Seq<Seq<char>>
    decreases v.len(),
{
    if v.len() == 0 {
        seq![]
    } else {
        (if v[0].1 {
            seq![v[0].0]
        } else {
            seq![]
        }) + new_slugs(v.drop_first())
    }
}

/// What `changed_articles_from_name_status` returns for a listing.
pub open spec fn changed_articles(name_status: Seq<char>) -> Result<
    Seq<(Seq<char>, bool)>,
    DiffErrorView,
> {
    match apply_lines(lines_from(name_status, 0), 0, seq![]) {
        Err(e) => Err(e),
        Ok(v) => if new_slugs(v).len() > 1 {
            Err(DiffErrorView::MultipleNewArticles(new_slugs(v)))
        } else {
            Ok(v)
        },
    }
}

fn lex_less(a: &Vec<char>, b: &Vec<char>) -> (r: bool)
    ensures
        r == lex_lt(a@, b@),
{
    let mut i: usize = 0;
    while i < a.len() && i < b.len()
        invariant
            i <= a.len(),
            lex_lt(a@, b@) == lex_lt_from(a@, b@, i as int),
        decreases a.len() - i,
    {
        if a[i] != b[i] {
            return a[i] < b[i];
        }
        i = i + 1;
    }
    i >= a.len() && i < b.len()
}

fn upsert_exec(v: &mut Vec<(Vec<char>, bool)>, slug: &Vec<char>, new: bool)
    ensures
        pairs_view(final(v)@) == upsert(pairs_view(old(v)@), slug@, new),
{
    let ghost all = pairs_view(v@);
    let mut i: usize = 0;
    assert(all.subrange(0, 0) + all.skip(0) =~= all);
    while i < v.len()
        invariant
            i <= v.len(),
            all == pairs_view(v@),
            all == pairs_view(old(v)@),
            v@ == old(v)@,
            all.len() == v.len(),
            forall|j: int| 0 <= j < i ==> all[j].0 != slug@ && !lex_lt(slug@, all[j].0),
            upsert(all, slug@, new) == all.subrange(0, i as int) + upsert(all.skip(i as int), slug@, new),
        decreases v.len() - i,
    {
        let ghost rest = all.skip(i as int);
        proof {
            assert(rest[0] == all[i as int]);
            assert(rest.drop_first() =~= all.skip(i + 1));
            assert(all[i as int] == (v@[i as int].0@, v@[i as int].1));
        }
        if chars_eq(&v[i].0, slug) {
            let merged = v[i].1 || new;
            let key = slice_chars(slug, 0, slug.len());
            v.set(i, (key, merged));
            proof {
                assert(key@ =~= slug@);
                assert(pairs_view(v@) =~= all.subrange(0, i as int) + (seq![(slug@, all[i as int].1 || new)] + rest.drop_first()));
            }
            return;
        }
        if lex_less(slug, &v[i].0) {
            let key = slice_chars(slug, 0, slug.len());
            v.insert(i, (key, new));
            proof {
                assert(key@ =~= slug@);
                assert(pairs_view(v@) =~= all.subrange(0, i as int) + (seq![(slug@, new)] + rest));
            }
            return;
        }
        proof {
            assert(all.subrange(0, i + 1) =~= all.subrange(0, i as int).push(all[i as int]));
            assert(all.subrange(0, i as int) + upsert(rest, slug@, new) =~= all.subrange(0, i + 1)
                + upsert(all.skip(i + 1), slug@, new));
        }
        i = i + 1;
    }
    let key = slice_chars(slug, 0, slug.len());
    v.push((key, new));
    proof {
        assert(key@ =~= slug@);
        assert(all.skip(i as int) =~= seq![]);
        assert(all.subrange(0, i as int) =~= all);
        assert(pairs_view(v@) =~= all + seq![(slug@, new)]);
    }
}

pub open spec fn pairs_view(v: Seq<(Vec<char>, bool)>) -> Seq<(Seq<char>, bool)> {
    v.map_values(|p: (Vec<char>, bool)| (p.0@, p.1))
}

fn leading_named(path: &Vec<char>) -> (r: Option<Vec<Vec<char>>>)
    ensures
        r is None <==> leading_named_parts(path@) is None,
        r matches Some(p) ==> leading_named_parts(path@) == Some(char_vecs_view(p@)),
{
    if path.len() > 0 && path[0] == '/' {
        return None;
    }
    let segs = split_chars(path, '/');
    let dot = vec!['.'];
    assert(dot@ =~= seq!['.']);
    proof {
        lemma_split_nonempty(path@, 0, '/');
        assert(char_vecs_view(segs@)[0] == segs@[0]@);
    }
    if chars_eq(&segs[0], &dot) {
        return None;
    }
    Some(named_parts(&segs))
}

proof fn lemma_split_nonempty(s: Seq<char>, i: int, c: char)
    requires
        0 <= i <= s.len(),
    ensures
        split_from(s, i, c).len() >= 1,
    decreases s.len() - i,
{
    lemma_find_class(s, i, CharClass::Exact(c));
}

fn named_parts(segs: &Vec<Vec<char>>) -> (r: Vec<Vec<char>>)
    ensures
        char_vecs_view(r@) == normal_parts(char_vecs_view(segs@)),
{
    let ghost all = char_vecs_view(segs@);
    let dot = vec!['.'];
    let mut parts: Vec<Vec<char>> = Vec::new();
    let mut i: usize = 0;
    assert(all.skip(0) =~= all);
    while i < segs.len()
        invariant
            i <= segs.len(),
            all == char_vecs_view(segs@),
            dot@ == seq!['.'],
            char_vecs_view(parts@) + normal_parts(all.skip(i as int)) == normal_parts(all),
        decreases segs.len() - i,
    {
        let ghost before = char_vecs_view(parts@);
        proof {
            assert(all.skip(i as int).drop_first() =~= all.skip(i + 1));
            assert(all.skip(i as int)[0] == segs@[i as int]@);
        }
        if segs[i].len() == 0 || chars_eq(&segs[i], &dot) {
            proof {
                assert(char_vecs_view(parts@) + normal_parts(all.skip(i + 1)) =~= before
                    + normal_parts(all.skip(i as int)));
            }
        } else {
            let seg = slice_chars(&segs[i], 0, segs[i].len());
            parts.push(seg);
            proof {
                assert(segs@[i as int]@.subrange(0, segs@[i as int]@.len() as int)
                    =~= segs@[i as int]@);
                assert(char_vecs_view(parts@) =~= before + seq![segs@[i as int]@]);
                assert(char_vecs_view(parts@) + normal_parts(all.skip(i + 1)) =~= before
                    + normal_parts(all.skip(i as int)));
            }
        }
        i = i + 1;
    }
    proof {
        assert(all.skip(segs.len() as int) =~= seq![]);
        assert(char_vecs_view(parts@) + seq![] =~= char_vecs_view(parts@));
    }
    parts
}

fn article_slug(path: &Vec<char>) -> (r: Option<Vec<char>>)
    ensures
        r is None <==> article_slug_of(path@) is None,
        r matches Some(s) ==> article_slug_of(path@) == Some(s@),
{
    let articles = vec!['a', 'r', 't', 'i', 'c', 'l', 'e', 's'];
    let dotdot = vec!['.', '.'];
    match leading_named(path) {
        None => None,
        Some(parts) => {
            proof {
                assert(articles@ == articles_dir_name());
            }
            if parts.len() >= 2 && chars_eq(&parts[0], &articles) && !chars_eq(
                &parts[1],
                &dotdot,
            ) {
                proof {
                    assert(char_vecs_view(parts@)[0] == parts@[0]@);
                    assert(char_vecs_view(parts@)[1] == parts@[1]@);
                }
                Some(slice_chars(&parts[1], 0, parts[1].len()))
            } else {
                proof {
                    if parts.len() >= 2 {
                        assert(char_vecs_view(parts@)[0] == parts@[0]@);
                        assert(char_vecs_view(parts@)[1] == parts@[1]@);
                    }
                }
                None
            }
        },
    }
}

fn is_article_file(path: &Vec<char>) -> (r: bool)
    ensures
        r == is_article_file_path(path@),
{
    let articles = vec!['a', 'r', 't', 'i', 'c', 'l', 'e', 's'];
    let file = vec!['a', 'r', 't', 'i', 'c', 'l', 'e', '.', 'm', 'd'];
    let dotdot = vec!['.', '.'];
    match leading_named(path) {
        None => false,
        Some(parts) => {
            proof {
                assert(articles@ == articles_dir_name());
                assert(file@ == article_file_name());
                if parts.len() == 3 {
                    assert(char_vecs_view(parts@)[0] == parts@[0]@);
                    assert(char_vecs_view(parts@)[1] == parts@[1]@);
                    assert(char_vecs_view(parts@)[2] == parts@[2]@);
                }
            }
            parts.len() == 3 && chars_eq(&parts[0], &articles) && !chars_eq(&parts[1], &dotdot)
                && chars_eq(&parts[2], &file)
        },
    }
}

/// The listing's line `line`, as an entry.
enum DiffEntry {
    Changed { status: Vec<char>, path: Vec<char> },
    Renamed { status: Vec<char>, old_path: Vec<char>, new_path: Vec<char> },
}

fn parse_name_status_line(line: &Vec<char>) -> (r: Option<DiffEntry>)
    ensures
        match parse_entry(line@) {
            None => r is None,
            Some(DiffEntryView::Changed(s, p)) => r matches Some(DiffEntry::Changed { status, path })
                && status@ == s && path@ == p,
            Some(DiffEntryView::Renamed(s, o, n)) => r matches Some(
                DiffEntry::Renamed { status, old_path, new_path },
            ) && status@ == s && old_path@ == o && new_path@ == n,
        },
{
    let parts = split_chars(line, '\t');
    proof {
        if parts.len() >= 1 {
            assert(char_vecs_view(parts@)[0] == parts@[0]@);
        }
        if parts.len() >= 2 {
            assert(char_vecs_view(parts@)[1] == parts@[1]@);
        }
        if parts.len() >= 3 {
            assert(char_vecs_view(parts@)[2] == parts@[2]@);
        }
    }
    if parts.len() == 2 && parts[0].len() > 0 {
        return Some(
            DiffEntry::Changed {
                status: slice_chars(&parts[0], 0, parts[0].len()),
                path: slice_chars(&parts[1], 0, parts[1].len()),
            },
        );
    }
    if parts.len() == 3 && parts[0].len() > 0 && parts[0][0] == 'R' && parts[1].len() > 0 {
        return Some(
            DiffEntry::Renamed {
                status: slice_chars(&parts[0], 0, parts[0].len()),
                old_path: slice_chars(&parts[1], 0, parts[1].len()),
                new_path: slice_chars(&parts[2], 0, parts[2].len()),
            },
        );
    }
    None
}

fn apply(v: &mut Vec<(Vec<char>, bool)>, entry: &DiffEntry, ghost_entry: Ghost<DiffEntryView>) -> (r:
    Result<(), DiffError>)
    requires
        match ghost_entry@ {
            DiffEntryView::Changed(s, p) => entry matches DiffEntry::Changed { status, path }
                && status@ == s && path@ == p,
            DiffEntryView::Renamed(s, o, n) => entry matches DiffEntry::Renamed {
                status,
                old_path,
                new_path,
            } && status@ == s && old_path@ == o && new_path@ == n,
        },
    ensures
        match apply_entry(pairs_view(old(v)@), ghost_entry@) {
            Ok(w) => r is Ok && pairs_view(final(v)@) == w,
            Err(e) => r matches Err(x) && x@ == e,
        },
{
    match entry {
        DiffEntry::Changed { status, path } => {
            match article_slug(path) {
                Some(slug) => {
                    let added = status.len() == 1 && status[0] == 'A' && is_article_file(path);
                    proof {
                        if status.len() == 1 && status[0] == 'A' {
                            assert(status@ =~= seq!['A']);
                        }
                        assert(added == (status@ == seq!['A'] && is_article_file_path(path@)));
                    }
                    upsert_exec(v, &slug, added);
                },
                None => {},
            }
            Ok(())
        },
        DiffEntry::Renamed { status: _, old_path, new_path } => {
            let from = article_slug(old_path);
            let to = article_slug(new_path);
            if let (Some(f), Some(t)) = (&from, &to) {
                if !chars_eq(f, t) {
                    return Err(
                        DiffError::ForbiddenRename {
                            from: string_from_chars(f),
                            to: string_from_chars(t),
                        },
                    );
                }
            }
            match &from {
                Some(f) => upsert_exec(v, f, false),
                None => {},
            }
            match &to {
                Some(t) => upsert_exec(v, t, false),
                None => {},
            }
            Ok(())
        },
    }
}

/// The articles that a `git diff --name-status --find-renames` listing
/// touches, in the order of their slugs (the directory under `articles/`),
/// each once; an article is new when the listing adds its `article.md`.
/// Blank lines are skipped. A line that is neither `status<TAB>path` nor
/// `R...<TAB>old<TAB>new`, a rename that moves a file from one article
/// directory to another, and more than one new article are errors.
pub fn changed_articles_from_name_status(name_status: &str) -> (r: Result<
    Vec<ChangedArticle>,
    DiffError,
>)
    ensures
        match changed_articles(name_status@) {
            Ok(v) => r matches Ok(x) && articles_view(x@) == v,
            Err(e) => r matches Err(x) && x@ == e,
        },
{
    let s = chars_of(name_status);
    let ghost lines = lines_from(s@, 0);
    let mut articles: Vec<(Vec<char>, bool)> = Vec::new();
    let mut i: usize = 0;
    let ghost mut k: int = 0;
    assert(pairs_view(articles@) =~= seq![]);
    assert(lines.skip(0) =~= lines);
    while i < s.len()
        invariant
            i <= s.len(),
            s@ == name_status@,
            lines == lines_from(s@, 0),
            0 <= k <= lines.len(),
            lines.skip(k) == lines_from(s@, i as int),
            apply_lines(lines, 0, seq![]) == apply_lines(lines, k, pairs_view(articles@)),
        decreases s.len() - i,
    {
        let e0 = find_class_from(&s, i, CharClass::Exact('\n'));
        let e = if e0 < s.len() {
            e0 + 1
        } else {
            s.len()
        };
        let whole = slice_chars(&s, i, e);
        let c = if whole.len() >= 2 && whole[whole.len() - 2] == '\r' && whole[whole.len() - 1]
            == '\n' {
            whole.len() - 2
        } else if whole.len() >= 1 && whole[whole.len() - 1] == '\n' {
            whole.len() - 1
        } else {
            whole.len()
        };
        let line = slice_chars(&whole, 0, c);
        proof {
            assert(lines.skip(k)[0] == line@);
            assert(lines.skip(k).drop_first() =~= lines.skip(k + 1));
            assert(lines[k] == line@);
        }
        if !is_blank_chars(&line) {
            match parse_name_status_line(&line) {
                None => {
                    return Err(DiffError::InvalidDiffLine(string_from_chars(&line)));
                },
                Some(entry) => {
                    let ghost ev = parse_entry(line@)->0;
                    match apply(&mut articles, &entry, Ghost(ev)) {
                        Ok(()) => {},
                        Err(x) => {
                            return Err(x);
                        },
                    }
                },
            }
        }
        i = e;
        proof {
            k = k + 1;
        }
    }
    proof {
        assert(lines.skip(k).len() == 0);
        assert(k == lines.len());
    }
    let mut result: Vec<ChangedArticle> = Vec::new();
    let mut new_list: Vec<String> = Vec::new();
    let ghost all = pairs_view(articles@);
    let mut j: usize = 0;
    assert(all.skip(0) =~= all);
    while j < articles.len()
        invariant
            j <= articles.len(),
            all == pairs_view(articles@),
            articles_view(result@) == all.subrange(0, j as int),
            strings_view(new_list@) + new_slugs(all.skip(j as int)) == new_slugs(all),
        decreases articles.len() - j,
    {
        let ghost before = strings_view(new_list@);
        proof {
            assert(all.skip(j as int).drop_first() =~= all.skip(j + 1));
            assert(all.skip(j as int)[0] == all[j as int]);
            assert(all[j as int] == (articles@[j as int].0@, articles@[j as int].1));
        }
        let slug = string_from_chars(&articles[j].0);
        if articles[j].1 {
            let again = string_from_chars(&articles[j].0);
            new_list.push(again);
            proof {
                assert(strings_view(new_list@) =~= before + seq![all[j as int].0]);
                assert(strings_view(new_list@) + new_slugs(all.skip(j + 1)) =~= before
                    + new_slugs(all.skip(j as int)));
            }
        } else {
            proof {
                assert(strings_view(new_list@) + new_slugs(all.skip(j + 1)) =~= before
                    + new_slugs(all.skip(j as int)));
            }
        }
        let ghost prev = articles_view(result@);
        result.push(ChangedArticle { slug, is_new: articles[j].1 });
        proof {
            assert(articles_view(result@) =~= prev.push(all[j as int]));
            assert(all.subrange(0, j + 1) =~= all.subrange(0, j as int).push(all[j as int]));
        }
        j = j + 1;
    }
    proof {
        assert(all.skip(articles.len() as int) =~= seq![]);
        assert(strings_view(new_list@) + seq![] =~= strings_view(new_list@));
        assert(all.subrange(0, articles.len() as int) =~= all);
    }
    if new_list.len() > 1 {
        return Err(DiffError::MultipleNewArticles { slugs: new_list });
    }
    Ok(result)
}


// ---------------------------------------------------------------------------
// The articles come out in the order of their slugs, each once
// ---------------------------------------------------------------------------

proof fn lemma_lex_irreflexive(a: Seq<char>, i: int)
    requires
        0 <= i,
    ensures
        !lex_lt_from(a, a, i),
    decreases a.len() - i,
{
    if i < a.len() {
        lemma_lex_irreflexive(a, i + 1);
    }
}

proof fn lemma_lex_transitive(a: Seq<char>, b: Seq<char>, c: Seq<char>, i: int)
    requires
        0 <= i,
        lex_lt_from(a, b, i),
        lex_lt_from(b, c, i),
    ensures
        lex_lt_from(a, c, i),
    decreases a.len() - i,
{
    if i < a.len() && i < b.len() && i < c.len() && a[i] == b[i] && b[i] == c[i] {
        lemma_lex_transitive(a, b, c, i + 1);
    }
}

proof fn lemma_lex_total(a: Seq<char>, b: Seq<char>, i: int)
    requires
        0 <= i <= a.len(),
        i <= b.len(),
    ensures
        lex_lt_from(a, b, i) || lex_lt_from(b, a, i) || (a.len() == b.len() && forall|j: int|
            i <= j < a.len() ==> a[j] == b[j]),
    decreases a.len() - i,
{
    if i < a.len() && i < b.len() && a[i] == b[i] {
        lemma_lex_total(a, b, i + 1);
        if a.len() == b.len() && forall|j: int| i + 1 <= j < a.len() ==> a[j] == b[j] {
            assert forall|j: int| i <= j < a.len() implies a[j] == b[j] by {
                if j > i {
                }
            }
        }
    }
}

/// `lex_lt` is a strict total order on different sequences.
proof fn lemma_lex_trichotomy(a: Seq<char>, b: Seq<char>)
    ensures
        a != b ==> lex_lt(a, b) || lex_lt(b, a),
        !(lex_lt(a, b) && lex_lt(b, a)),
{
    lemma_lex_total(a, b, 0);
    if !lex_lt(a, b) && !lex_lt(b, a) && a.len() == b.len() {
        assert(a =~= b);
    }
    if lex_lt(a, b) && lex_lt(b, a) {
        lemma_lex_transitive(a, b, a, 0);
        lemma_lex_irreflexive(a, 0);
    }
}

/// The slugs of `v` strictly increase.
pub open spec fn sorted_by_slug(v: Seq<(Seq<char>, bool)>) -> bool {
    forall|i: int, j: int| 0 <= i < j < v.len() ==> lex_lt(#[trigger] v[i].0, #[trigger] v[j].0)
}

pub open spec fn all_after(v: Seq<(Seq<char>, bool)>, x: Seq<char>) -> bool {
    forall|k: int| 0 <= k < v.len() ==> lex_lt(x, #[trigger] v[k].0)
}

proof fn lemma_upsert_after(v: Seq<(Seq<char>, bool)>, slug: Seq<char>, new: bool, x: Seq<char>)
    requires
        all_after(v, x),
        lex_lt(x, slug),
    ensures
        all_after(upsert(v, slug, new), x),
    decreases v.len(),
{
    let u = upsert(v, slug, new);
    if v.len() == 0 {
    } else if v[0].0 == slug {
        assert forall|k: int| 0 <= k < u.len() implies lex_lt(x, #[trigger] u[k].0) by {
            if k > 0 {
                assert(u[k] == v[k]);
            }
        }
    } else if lex_lt(slug, v[0].0) {
        assert forall|k: int| 0 <= k < u.len() implies lex_lt(x, #[trigger] u[k].0) by {
            if k > 0 {
                assert(u[k] == v[k - 1]);
            }
        }
    } else {
        let rest = v.drop_first();
        assert forall|k: int| 0 <= k < rest.len() implies lex_lt(x, #[trigger] rest[k].0) by {
            assert(rest[k] == v[k + 1]);
        }
        lemma_upsert_after(rest, slug, new, x);
        assert forall|k: int| 0 <= k < u.len() implies lex_lt(x, #[trigger] u[k].0) by {
            if k > 0 {
                assert(u[k] == upsert(rest, slug, new)[k - 1]);
            }
        }
    }
}

proof fn lemma_upsert_sorted(v: Seq<(Seq<char>, bool)>, slug: Seq<char>, new: bool)
    requires
        sorted_by_slug(v),
    ensures
        sorted_by_slug(upsert(v, slug, new)),
    decreases v.len(),
{
    let u = upsert(v, slug, new);
    if v.len() == 0 {
    } else if v[0].0 == slug {
        assert forall|i: int, j: int| 0 <= i < j < u.len() implies lex_lt(#[trigger] u[i].0, #[trigger] u[j].0) by {
            assert(u[j] == v[j]);
            if i > 0 {
                assert(u[i] == v[i]);
            }
        }
    } else if lex_lt(slug, v[0].0) {
        assert forall|i: int, j: int| 0 <= i < j < u.len() implies lex_lt(#[trigger] u[i].0, #[trigger] u[j].0) by {
            assert(u[j] == v[j - 1]);
            if i > 0 {
                assert(u[i] == v[i - 1]);
            } else if j > 1 {
                lemma_lex_transitive(slug, v[0].0, v[j - 1].0, 0);
            }
        }
    } else {
        lemma_lex_trichotomy(slug, v[0].0);
        let rest = v.drop_first();
        assert forall|i: int, j: int| 0 <= i < j < rest.len() implies lex_lt(#[trigger] rest[i].0, #[trigger] rest[j].0) by {
            assert(rest[i] == v[i + 1]);
            assert(rest[j] == v[j + 1]);
        }
        assert forall|k: int| 0 <= k < rest.len() implies lex_lt(v[0].0, #[trigger] rest[k].0) by {
            assert(rest[k] == v[k + 1]);
        }
        lemma_upsert_sorted(rest, slug, new);
        lemma_upsert_after(rest, slug, new, v[0].0);
        let ur = upsert(rest, slug, new);
        assert forall|i: int, j: int| 0 <= i < j < u.len() implies lex_lt(#[trigger] u[i].0, #[trigger] u[j].0) by {
            assert(u[j] == ur[j - 1]);
            if i > 0 {
                assert(u[i] == ur[i - 1]);
            }
        }
    }
}

proof fn lemma_apply_lines_sorted(lines: Seq<Seq<char>>, k: int, v: Seq<(Seq<char>, bool)>)
    requires
        sorted_by_slug(v),
    ensures
        apply_lines(lines, k, v) matches Ok(w) ==> sorted_by_slug(w),
    decreases lines.len() - k,
{
    if 0 <= k < lines.len() {
        if is_blank(lines[k]) {
            lemma_apply_lines_sorted(lines, k + 1, v);
        } else if let Some(e) = parse_entry(lines[k]) {
            match e {
                DiffEntryView::Changed(status, path) => {
                    if let Some(slug) = article_slug_of(path) {
                        lemma_upsert_sorted(v, slug, status == seq!['A'] && is_article_file_path(path));
                    }
                },
                DiffEntryView::Renamed(_status, old_path, new_path) => {
                    let from = article_slug_of(old_path);
                    let to = article_slug_of(new_path);
                    if let Some(f) = from {
                        lemma_upsert_sorted(v, f, false);
                    }
                    let v1 = upsert_opt(v, from);
                    if let Some(t) = to {
                        lemma_upsert_sorted(v1, t, false);
                    }
                },
            }
            if let Ok(v2) = apply_entry(v, e) {
                lemma_apply_lines_sorted(lines, k + 1, v2);
            }
        }
    }
}

/// The articles of a listing come out in the order of their slugs, each slug
/// once, and at most one of them is new.
pub proof fn law_changed_articles_sorted_and_unique(name_status: Seq<char>)
    ensures
        changed_articles(name_status) matches Ok(v) ==> sorted_by_slug(v) && new_slugs(v).len()
            <= 1,
{
    lemma_apply_lines_sorted(lines_from(name_status, 0), 0, seq![]);
}


/// `v` lists the slug `s`.
pub open spec fn lists(v: Seq<(Seq<char>, bool)>, s: Seq<char>) -> bool {
    exists|i: int| 0 <= i < v.len() && #[trigger] v[i].0 == s
}

/// `v` lists the slug `s` as a new article.
pub open spec fn lists_new(v: Seq<(Seq<char>, bool)>, s: Seq<char>) -> bool {
    exists|i: int| 0 <= i < v.len() && #[trigger] v[i].0 == s && v[i].1
}

/// A line of a listing touches the article directory `s`: one of its paths
/// (either side of a rename) lies under `articles/<s>/`.
pub open spec fn line_touches(line: Seq<char>, s: Seq<char>) -> bool {
    !is_blank(line) && match parse_entry(line) {
        Some(DiffEntryView::Changed(_, path)) => article_slug_of(path) == Some(s),
        Some(DiffEntryView::Renamed(_, old_path, new_path)) => article_slug_of(old_path) == Some(s)
            || article_slug_of(new_path) == Some(s),
        None => false,
    }
}

/// A line of a listing adds `articles/<s>/article.md`.
pub open spec fn line_adds(line: Seq<char>, s: Seq<char>) -> bool {
    !is_blank(line) && match parse_entry(line) {
        Some(DiffEntryView::Changed(status, path)) => article_slug_of(path) == Some(s) && status
            == seq!['A'] && is_article_file_path(path),
        _ => false,
    }
}

/// A line that a listing may hold: blank, or one that parses and renames no
/// file from one article directory to another.
pub open spec fn line_ok(line: Seq<char>) -> bool {
    is_blank(line) || match parse_entry(line) {
        None => false,
        Some(DiffEntryView::Changed(_, _)) => true,
        Some(DiffEntryView::Renamed(_, old_path, new_path)) => {
            let from = article_slug_of(old_path);
            let to = article_slug_of(new_path);
            !(from is Some && to is Some && from->0 != to->0)
        },
    }
}

/// The non-blank lines of a listing.
pub open spec fn has_line(lines: Seq<Seq<char>>, line: Seq<char>) -> bool {
    exists|k: int| 0 <= k < lines.len() && #[trigger] lines[k] == line && !is_blank(line)
}

proof fn lemma_upsert_lists(v: Seq<(Seq<char>, bool)>, slug: Seq<char>, new: bool, s: Seq<char>)
    ensures
        lists(upsert(v, slug, new), s) == (lists(v, s) || s == slug),
        lists_new(upsert(v, slug, new), s) == (lists_new(v, s) || (s == slug && new)),
    decreases v.len(),
{
    let u = upsert(v, slug, new);
    if v.len() == 0 {
        assert(u[0].0 == slug);
    } else if v[0].0 == slug {
        if lists(v, s) {
            let i = choose|i: int| 0 <= i < v.len() && #[trigger] v[i].0 == s;
            assert(u[i].0 == s);
        }
        if lists_new(v, s) {
            let i = choose|i: int| 0 <= i < v.len() && #[trigger] v[i].0 == s && v[i].1;
            assert(u[i].0 == s && u[i].1);
        }
        if lists(u, s) {
            let i = choose|i: int| 0 <= i < u.len() && #[trigger] u[i].0 == s;
            assert(v[i].0 == s);
        }
        if lists_new(u, s) {
            let i = choose|i: int| 0 <= i < u.len() && #[trigger] u[i].0 == s && u[i].1;
            if i > 0 {
                assert(v[i].0 == s && v[i].1);
            } else if !new {
                assert(v[0].0 == s && v[0].1);
            }
        }
        if s == slug && new {
            assert(u[0].0 == s && u[0].1);
        }
        assert(u[0].0 == slug);
    } else if lex_lt(slug, v[0].0) {
        if lists(v, s) {
            let i = choose|i: int| 0 <= i < v.len() && #[trigger] v[i].0 == s;
            assert(u[i + 1].0 == s);
        }
        if lists_new(v, s) {
            let i = choose|i: int| 0 <= i < v.len() && #[trigger] v[i].0 == s && v[i].1;
            assert(u[i + 1].0 == s && u[i + 1].1);
        }
        if lists(u, s) {
            let i = choose|i: int| 0 <= i < u.len() && #[trigger] u[i].0 == s;
            if i > 0 {
                assert(v[i - 1].0 == s);
            }
        }
        if lists_new(u, s) {
            let i = choose|i: int| 0 <= i < u.len() && #[trigger] u[i].0 == s && u[i].1;
            if i > 0 {
                assert(v[i - 1].0 == s && v[i - 1].1);
            }
        }
        assert(u[0].0 == slug && u[0].1 == new);
    } else {
        let rest = v.drop_first();
        let ur = upsert(rest, slug, new);
        lemma_upsert_lists(rest, slug, new, s);
        assert(u == seq![v[0]] + ur);
        if lists(v, s) {
            let i = choose|i: int| 0 <= i < v.len() && #[trigger] v[i].0 == s;
            if i > 0 {
                assert(rest[i - 1].0 == s);
            } else {
                assert(u[0].0 == s);
            }
        }
        if lists_new(v, s) {
            let i = choose|i: int| 0 <= i < v.len() && #[trigger] v[i].0 == s && v[i].1;
            if i > 0 {
                assert(rest[i - 1].0 == s && rest[i - 1].1);
            } else {
                assert(u[0].0 == s && u[0].1);
            }
        }
        if lists(ur, s) {
            let i = choose|i: int| 0 <= i < ur.len() && #[trigger] ur[i].0 == s;
            assert(u[i + 1].0 == s);
        }
        if lists_new(ur, s) {
            let i = choose|i: int| 0 <= i < ur.len() && #[trigger] ur[i].0 == s && ur[i].1;
            assert(u[i + 1].0 == s && u[i + 1].1);
        }
        if lists(rest, s) {
            let i = choose|i: int| 0 <= i < rest.len() && #[trigger] rest[i].0 == s;
            assert(v[i + 1].0 == s);
        }
        if lists_new(rest, s) {
            let i = choose|i: int| 0 <= i < rest.len() && #[trigger] rest[i].0 == s && rest[i].1;
            assert(v[i + 1].0 == s && v[i + 1].1);
        }
        if lists(u, s) {
            let i = choose|i: int| 0 <= i < u.len() && #[trigger] u[i].0 == s;
            if i > 0 {
                assert(ur[i - 1].0 == s);
            } else {
                assert(v[0].0 == s);
            }
        }
        if lists_new(u, s) {
            let i = choose|i: int| 0 <= i < u.len() && #[trigger] u[i].0 == s && u[i].1;
            if i > 0 {
                assert(ur[i - 1].0 == s && ur[i - 1].1);
            } else {
                assert(v[0].0 == s && v[0].1);
            }
        }
    }
}

proof fn lemma_apply_lines_lists(lines: Seq<Seq<char>>, k: int, v: Seq<(Seq<char>, bool)>, s: Seq<char>)
    requires
        0 <= k,
        apply_lines(lines, k, v) is Ok,
    ensures
        lists(apply_lines(lines, k, v)->Ok_0, s) == (lists(v, s) || exists|j: int|
            k <= j < lines.len() && line_touches(#[trigger] lines[j], s)),
        lists_new(apply_lines(lines, k, v)->Ok_0, s) == (lists_new(v, s) || exists|j: int|
            k <= j < lines.len() && line_adds(#[trigger] lines[j], s)),
    decreases lines.len() - k,
{
    if k < lines.len() {
        let line = lines[k];
        let next = if is_blank(line) {
            v
        } else {
            apply_entry(v, parse_entry(line)->0)->Ok_0
        };
        if !is_blank(line) {
            match parse_entry(line)->0 {
                DiffEntryView::Changed(status, path) => {
                    if let Some(slug) = article_slug_of(path) {
                        lemma_upsert_lists(v, slug, status == seq!['A'] && is_article_file_path(path), s);
                    }
                },
                DiffEntryView::Renamed(_status, old_path, new_path) => {
                    let from = article_slug_of(old_path);
                    let to = article_slug_of(new_path);
                    if let Some(f) = from {
                        lemma_upsert_lists(v, f, false, s);
                    }
                    if let Some(t) = to {
                        lemma_upsert_lists(upsert_opt(v, from), t, false, s);
                    }
                },
            }
        }
        assert(apply_lines(lines, k, v) == apply_lines(lines, k + 1, next));
        lemma_apply_lines_lists(lines, k + 1, next, s);
        assert((exists|j: int| k <= j < lines.len() && line_touches(#[trigger] lines[j], s)) == (
        line_touches(lines[k], s) || exists|j: int|
            k + 1 <= j < lines.len() && line_touches(#[trigger] lines[j], s)));
        assert((exists|j: int| k <= j < lines.len() && line_adds(#[trigger] lines[j], s)) == (
        line_adds(lines[k], s) || exists|j: int|
            k + 1 <= j < lines.len() && line_adds(#[trigger] lines[j], s)));
    }
}

proof fn lemma_apply_lines_ok_lines(lines: Seq<Seq<char>>, k: int, v: Seq<(Seq<char>, bool)>)
    requires
        0 <= k,
        apply_lines(lines, k, v) is Ok,
    ensures
        forall|j: int| k <= j < lines.len() ==> line_ok(#[trigger] lines[j]),
    decreases lines.len() - k,
{
    if k < lines.len() {
        if is_blank(lines[k]) {
            lemma_apply_lines_ok_lines(lines, k + 1, v);
        } else {
            lemma_apply_lines_ok_lines(lines, k + 1, apply_entry(v, parse_entry(lines[k])->0)->Ok_0);
        }
    }
}

proof fn lemma_ok_lines_apply(lines: Seq<Seq<char>>, k: int, v: Seq<(Seq<char>, bool)>)
    requires
        0 <= k,
        forall|j: int| k <= j < lines.len() ==> line_ok(#[trigger] lines[j]),
    ensures
        apply_lines(lines, k, v) is Ok,
    decreases lines.len() - k,
{
    if k < lines.len() {
        assert(line_ok(lines[k]));
        if is_blank(lines[k]) {
            lemma_ok_lines_apply(lines, k + 1, v);
        } else {
            lemma_ok_lines_apply(lines, k + 1, apply_entry(v, parse_entry(lines[k])->0)->Ok_0);
        }
    }
}

/// Two sorted listings of articles that list the same slugs, and the same of
/// them as new, are equal.
proof fn lemma_sorted_same_lists(u: Seq<(Seq<char>, bool)>, w: Seq<(Seq<char>, bool)>)
    requires
        sorted_by_slug(u),
        sorted_by_slug(w),
        forall|s: Seq<char>| lists(u, s) == lists(w, s),
        forall|s: Seq<char>| lists_new(u, s) == lists_new(w, s),
    ensures
        u == w,
    decreases u.len(),
{
    if u.len() == 0 {
        if w.len() > 0 {
            assert(lists(w, w[0].0));
        }
        assert(u =~= w);
    } else if w.len() == 0 {
        assert(lists(u, u[0].0));
    } else {
        let a = u[0].0;
        let b = w[0].0;
        assert(lists(u, a));
        assert(lists(w, b));
        let j = choose|j: int| 0 <= j < w.len() && #[trigger] w[j].0 == a;
        let i = choose|i: int| 0 <= i < u.len() && #[trigger] u[i].0 == b;
        lemma_lex_trichotomy(a, b);
        if a != b {
            if lex_lt(a, b) {
                if j > 0 {
                    assert(lex_lt(w[0].0, w[j].0));
                    lemma_lex_transitive(a, b, a, 0);
                }
                lemma_lex_irreflexive(a, 0);
            } else {
                if i > 0 {
                    assert(lex_lt(u[0].0, u[i].0));
                    lemma_lex_transitive(b, a, b, 0);
                }
                lemma_lex_irreflexive(b, 0);
            }
        }
        assert(a == b);
        assert forall|k: int| 0 < k < u.len() implies #[trigger] u[k].0 != a by {
            assert(lex_lt(u[0].0, u[k].0));
            lemma_lex_irreflexive(a, 0);
        }
        assert forall|k: int| 0 < k < w.len() implies #[trigger] w[k].0 != a by {
            assert(lex_lt(w[0].0, w[k].0));
            lemma_lex_irreflexive(a, 0);
        }
        assert(u[0].1 == w[0].1) by {
            if u[0].1 {
                assert(lists_new(u, a));
                let k = choose|k: int| 0 <= k < w.len() && #[trigger] w[k].0 == a && w[k].1;
            }
            if w[0].1 {
                assert(lists_new(w, a));
                let k = choose|k: int| 0 <= k < u.len() && #[trigger] u[k].0 == a && u[k].1;
            }
        }
        let ur = u.drop_first();
        let wr = w.drop_first();
        assert forall|s: Seq<char>| lists(ur, s) == lists(wr, s) by {
            if lists(ur, s) {
                let k = choose|k: int| 0 <= k < ur.len() && #[trigger] ur[k].0 == s;
                assert(u[k + 1].0 == s);
                assert(lists(u, s));
                let m = choose|m: int| 0 <= m < w.len() && #[trigger] w[m].0 == s;
                assert(m > 0);
                assert(wr[m - 1].0 == s);
            }
            if lists(wr, s) {
                let k = choose|k: int| 0 <= k < wr.len() && #[trigger] wr[k].0 == s;
                assert(w[k + 1].0 == s);
                assert(lists(w, s));
                let m = choose|m: int| 0 <= m < u.len() && #[trigger] u[m].0 == s;
                assert(m > 0);
                assert(ur[m - 1].0 == s);
            }
        }
        assert forall|s: Seq<char>| lists_new(ur, s) == lists_new(wr, s) by {
            if lists_new(ur, s) {
                let k = choose|k: int| 0 <= k < ur.len() && #[trigger] ur[k].0 == s && ur[k].1;
                assert(u[k + 1].0 == s && u[k + 1].1);
                assert(lists_new(u, s));
                let m = choose|m: int| 0 <= m < w.len() && #[trigger] w[m].0 == s && w[m].1;
                assert(m > 0);
                assert(wr[m - 1].0 == s && wr[m - 1].1);
            }
            if lists_new(wr, s) {
                let k = choose|k: int| 0 <= k < wr.len() && #[trigger] wr[k].0 == s && wr[k].1;
                assert(w[k + 1].0 == s && w[k + 1].1);
                assert(lists_new(w, s));
                let m = choose|m: int| 0 <= m < u.len() && #[trigger] u[m].0 == s && u[m].1;
                assert(m > 0);
                assert(ur[m - 1].0 == s && ur[m - 1].1);
            }
        }
        assert forall|x: int, y: int| 0 <= x < y < ur.len() implies lex_lt(#[trigger] ur[x].0, #[trigger] ur[y].0) by {
            assert(ur[x] == u[x + 1] && ur[y] == u[y + 1]);
        }
        assert forall|x: int, y: int| 0 <= x < y < wr.len() implies lex_lt(#[trigger] wr[x].0, #[trigger] wr[y].0) by {
            assert(wr[x] == w[x + 1] && wr[y] == w[y + 1]);
        }
        lemma_sorted_same_lists(ur, wr);
        assert(u =~= seq![u[0]] + ur);
        assert(w =~= seq![w[0]] + wr);
    }
}

/// The articles of a listing are exactly the article directories that its
/// lines touch (on either side of a rename), and the new ones exactly those
/// whose `article.md` a line adds.
pub proof fn law_changed_articles_are_the_touched_directories(name_status: Seq<char>, s: Seq<char>)
    requires
        changed_articles(name_status) is Ok,
    ensures
        ({
            let lines = lines_from(name_status, 0);
            let v = changed_articles(name_status)->Ok_0;
            &&& lists(v, s) == exists|k: int| 0 <= k < lines.len() && line_touches(#[trigger] lines[k], s)
            &&& lists_new(v, s) == exists|k: int| 0 <= k < lines.len() && line_adds(#[trigger] lines[k], s)
        }),
{
    lemma_apply_lines_lists(lines_from(name_status, 0), 0, seq![], s);
}

/// The article file of a change is `article.md` directly inside a directory
/// under `articles/`, and nothing else.
pub proof fn law_article_file_is_article_md_of_an_article_directory(path: Seq<char>)
    ensures
        is_article_file_path(path) <==> exists|s: Seq<char>|
            s != seq!['.', '.'] && leading_named_parts(path) == Some(
                #[trigger] seq![articles_dir_name(), s, article_file_name()],
            ),
{
    if let Some(parts) = leading_named_parts(path) {
        if is_article_file_path(path) {
            assert(parts =~= seq![articles_dir_name(), parts[1], article_file_name()]);
        }
        if exists|s: Seq<char>|
            s != seq!['.', '.'] && leading_named_parts(path) == Some(
                #[trigger] seq![articles_dir_name(), s, article_file_name()],
            ) {
            let s = choose|s: Seq<char>|
                s != seq!['.', '.'] && leading_named_parts(path) == Some(
                    #[trigger] seq![articles_dir_name(), s, article_file_name()],
                );
            assert(parts[1] == s);
        }
    }
}

/// A line whose status is `A` is not blank.
proof fn lemma_added_line_not_blank(line: Seq<char>)
    requires
        parse_entry(line) matches Some(DiffEntryView::Changed(st, _)) && st == seq!['A'],
    ensures
        !is_blank(line),
{
    let cls = CharClass::Exact('\t');
    lemma_find_class(line, 0, cls);
    let k = crate::text::find_class(line, 0, cls);
    let parts = split_from(line, 0, '\t');
    assert(parts[0] == seq!['A']);
    if k >= line.len() {
        assert(parts[0] == line.subrange(0, line.len() as int));
    } else {
        assert(parts[0] == line.subrange(0, k));
    }
    assert(parts[0][0] == line[0]);
    assert(line[0] == 'A');
    assert(line.len() > 0);
}

/// A line adds `articles/<s>/article.md` exactly when it has status `A` and
/// its path is that file.
proof fn lemma_line_adds_article_file(line: Seq<char>, s: Seq<char>)
    requires
        s != seq!['.', '.'],
    ensures
        line_adds(line, s) <==> (parse_entry(line) matches Some(DiffEntryView::Changed(st, p))
            && st == seq!['A'] && leading_named_parts(p) == Some(
            seq![articles_dir_name(), s, article_file_name()],
        )),
{
    if let Some(DiffEntryView::Changed(st, p)) = parse_entry(line) {
        if let Some(parts) = leading_named_parts(p) {
            if line_adds(line, s) {
                assert(parts =~= seq![articles_dir_name(), s, article_file_name()]);
            }
        }
        if st == seq!['A'] && leading_named_parts(p) == Some(
            seq![articles_dir_name(), s, article_file_name()],
        ) {
            lemma_added_line_not_blank(line);
        }
    }
}

/// An article is listed as new exactly when a line of the listing has status
/// `A` and the path `articles/<slug>/article.md`: adding any other file of the
/// article directory does not make the article new.
pub proof fn law_new_articles_are_those_whose_article_file_is_added(
    name_status: Seq<char>,
    s: Seq<char>,
)
    requires
        changed_articles(name_status) is Ok,
        s != seq!['.', '.'],
    ensures
        ({
            let lines = lines_from(name_status, 0);
            lists_new(changed_articles(name_status)->Ok_0, s) <==> exists|k: int|
                0 <= k < lines.len() && (#[trigger] parse_entry(lines[k]) matches Some(
                    DiffEntryView::Changed(st, p),
                ) && st == seq!['A'] && leading_named_parts(p) == Some(
                    seq![articles_dir_name(), s, article_file_name()],
                ))
        }),
{
    let lines = lines_from(name_status, 0);
    law_changed_articles_are_the_touched_directories(name_status, s);
    assert forall|k: int| 0 <= k < lines.len() implies line_adds(#[trigger] lines[k], s) <==> (
    parse_entry(lines[k]) matches Some(DiffEntryView::Changed(st, p)) && st == seq!['A']
        && leading_named_parts(p) == Some(seq![articles_dir_name(), s, article_file_name()])) by {
        lemma_line_adds_article_file(lines[k], s);
    }
}

/// `new_slugs` has more than one item exactly when two entries are new.
proof fn lemma_two_new_entries(v: Seq<(Seq<char>, bool)>)
    ensures
        new_slugs(v).len() > 0 <==> exists|i: int| 0 <= i < v.len() && (#[trigger] v[i]).1,
        new_slugs(v).len() > 1 <==> exists|i: int, j: int|
            0 <= i < j < v.len() && (#[trigger] v[i]).1 && (#[trigger] v[j]).1,
    decreases v.len(),
{
    if v.len() > 0 {
        let t = v.drop_first();
        lemma_two_new_entries(t);
        assert forall|i: int| 0 <= i < t.len() implies #[trigger] t[i] == v[i + 1] by {}
        if exists|i: int| 0 <= i < t.len() && (#[trigger] t[i]).1 {
            let i = choose|i: int| 0 <= i < t.len() && (#[trigger] t[i]).1;
            assert(v[i + 1].1);
        }
        if exists|i: int, j: int| 0 <= i < j < t.len() && (#[trigger] t[i]).1 && (#[trigger] t[j]).1 {
            let (i, j) = choose|i: int, j: int|
                0 <= i < j < t.len() && (#[trigger] t[i]).1 && (#[trigger] t[j]).1;
            assert(v[i + 1].1 && v[j + 1].1);
        }
        if exists|i: int| 0 <= i < v.len() && (#[trigger] v[i]).1 {
            let i = choose|i: int| 0 <= i < v.len() && (#[trigger] v[i]).1;
            if i > 0 {
                assert(t[i - 1].1);
            }
        }
        if exists|i: int, j: int| 0 <= i < j < v.len() && (#[trigger] v[i]).1 && (#[trigger] v[j]).1 {
            let (i, j) = choose|i: int, j: int|
                0 <= i < j < v.len() && (#[trigger] v[i]).1 && (#[trigger] v[j]).1;
            assert(t[j - 1].1);
            if i > 0 {
                assert(t[i - 1].1);
            }
        }
    }
}

/// A listing is accepted exactly when every non-blank line parses, no
/// rename moves a file from one article directory to another, and all the
/// lines that add an `article.md` add that of one and the same article.
pub proof fn law_listing_accepted_exactly_when_lines_are_valid_and_one_article_is_new(
    name_status: Seq<char>,
)
    ensures
        ({
            let lines = lines_from(name_status, 0);
            changed_articles(name_status) is Ok <==> (forall|k: int|
                0 <= k < lines.len() ==> line_ok(#[trigger] lines[k])) && (forall|
                k1: int,
                k2: int,
                s1: Seq<char>,
                s2: Seq<char>,
            |
                0 <= k1 < lines.len() && 0 <= k2 < lines.len() && #[trigger] line_adds(lines[k1], s1)
                    && #[trigger] line_adds(lines[k2], s2) ==> s1 == s2)
        }),
{
    let lines = lines_from(name_status, 0);
    let e: Seq<(Seq<char>, bool)> = seq![];
    lemma_apply_lines_sorted(lines, 0, e);
    if apply_lines(lines, 0, e) is Ok {
        let v = apply_lines(lines, 0, e)->Ok_0;
        lemma_apply_lines_ok_lines(lines, 0, e);
        lemma_two_new_entries(v);
        assert forall|s: Seq<char>| lists_new(v, s) == exists|j: int|
            0 <= j < lines.len() && line_adds(#[trigger] lines[j], s) by {
            lemma_apply_lines_lists(lines, 0, e, s);
        }
        if new_slugs(v).len() > 1 {
            let (i, j) = choose|i: int, j: int|
                0 <= i < j < v.len() && (#[trigger] v[i]).1 && (#[trigger] v[j]).1;
            lemma_lex_irreflexive(v[i].0, 0);
            assert(v[i].0 != v[j].0);
            assert(lists_new(v, v[i].0));
            assert(lists_new(v, v[j].0));
            let k1 = choose|k: int| 0 <= k < lines.len() && line_adds(#[trigger] lines[k], v[i].0);
            let k2 = choose|k: int| 0 <= k < lines.len() && line_adds(#[trigger] lines[k], v[j].0);
            assert(line_adds(lines[k1], v[i].0) && line_adds(lines[k2], v[j].0));
        } else {
            assert forall|k1: int, k2: int, s1: Seq<char>, s2: Seq<char>|
                0 <= k1 < lines.len() && 0 <= k2 < lines.len() && #[trigger] line_adds(lines[k1], s1)
                    && #[trigger] line_adds(lines[k2], s2) implies s1 == s2 by {
                assert(lists_new(v, s1));
                assert(lists_new(v, s2));
                let i = choose|i: int| 0 <= i < v.len() && #[trigger] v[i].0 == s1 && v[i].1;
                let j = choose|j: int| 0 <= j < v.len() && #[trigger] v[j].0 == s2 && v[j].1;
                if i < j {
                    assert(v[i].1 && v[j].1);
                } else if j < i {
                    assert(v[j].1 && v[i].1);
                }
            }
        }
    } else {
        if forall|k: int| 0 <= k < lines.len() ==> line_ok(#[trigger] lines[k]) {
            lemma_ok_lines_apply(lines, 0, e);
        }
    }
}

/// What a listing gives depends only on the set of its non-blank lines: the
/// order of the lines, repeated lines and blank lines change nothing.
pub proof fn law_changed_articles_ignore_order_and_blank_lines(a: Seq<char>, b: Seq<char>)
    requires
        changed_articles(a) is Ok,
        forall|line: Seq<char>| has_line(lines_from(a, 0), line) == has_line(lines_from(b, 0), line),
    ensures
        changed_articles(b) == changed_articles(a),
{
    let la = lines_from(a, 0);
    let lb = lines_from(b, 0);
    let e: Seq<(Seq<char>, bool)> = seq![];
    lemma_apply_lines_ok_lines(la, 0, e);
    assert forall|j: int| 0 <= j < lb.len() implies line_ok(#[trigger] lb[j]) by {
        if !is_blank(lb[j]) {
            assert(has_line(lb, lb[j]));
            let k = choose|k: int| 0 <= k < la.len() && #[trigger] la[k] == lb[j] && !is_blank(lb[j]);
            assert(line_ok(la[k]));
        }
    }
    lemma_ok_lines_apply(lb, 0, e);
    let va = apply_lines(la, 0, e)->Ok_0;
    let vb = apply_lines(lb, 0, e)->Ok_0;
    assert forall|s: Seq<char>| lists(va, s) == lists(vb, s) && lists_new(va, s) == lists_new(vb, s) by {
        lemma_apply_lines_lists(la, 0, e, s);
        lemma_apply_lines_lists(lb, 0, e, s);
        if exists|j: int| 0 <= j < la.len() && line_touches(#[trigger] la[j], s) {
            let j = choose|j: int| 0 <= j < la.len() && line_touches(#[trigger] la[j], s);
            assert(has_line(la, la[j]));
            let k = choose|k: int| 0 <= k < lb.len() && #[trigger] lb[k] == la[j] && !is_blank(la[j]);
            assert(line_touches(lb[k], s));
        }
        if exists|j: int| 0 <= j < lb.len() && line_touches(#[trigger] lb[j], s) {
            let j = choose|j: int| 0 <= j < lb.len() && line_touches(#[trigger] lb[j], s);
            assert(has_line(lb, lb[j]));
            let k = choose|k: int| 0 <= k < la.len() && #[trigger] la[k] == lb[j] && !is_blank(lb[j]);
            assert(line_touches(la[k], s));
        }
        if exists|j: int| 0 <= j < la.len() && line_adds(#[trigger] la[j], s) {
            let j = choose|j: int| 0 <= j < la.len() && line_adds(#[trigger] la[j], s);
            assert(has_line(la, la[j]));
            let k = choose|k: int| 0 <= k < lb.len() && #[trigger] lb[k] == la[j] && !is_blank(la[j]);
            assert(line_adds(lb[k], s));
        }
        if exists|j: int| 0 <= j < lb.len() && line_adds(#[trigger] lb[j], s) {
            let j = choose|j: int| 0 <= j < lb.len() && line_adds(#[trigger] lb[j], s);
            assert(has_line(lb, lb[j]));
            let k = choose|k: int| 0 <= k < la.len() && #[trigger] la[k] == lb[j] && !is_blank(lb[j]);
            assert(line_adds(la[k], s));
        }
    }
    lemma_apply_lines_sorted(la, 0, e);
    lemma_apply_lines_sorted(lb, 0, e);
    lemma_sorted_same_lists(va, vb);
}

/// The error of a failed `git diff`: its trimmed standard error, or, when that
/// is blank, `exit status ` and the exit status as text.
pub fn git_failure(stderr: &str, status: &str) -> (r: DiffError)
    ensures
        r@ == DiffErrorView::GitFailed(
            if is_blank(stderr@) {
                "exit status "@ + status@
            } else {
                crate::text::trim(stderr@)
            },
        ),
{
    if crate::text::is_blank_str(stderr) {
        let mut m = "exit status ".to_owned();
        m.append(status);
        DiffError::GitFailed(m)
    } else {
        let t = crate::text::trim_chars(&chars_of(stderr));
        DiffError::GitFailed(string_from_chars(&t))
    }
}

pub open spec fn diff_error_message(e: DiffErrorView) -> Seq<char> {
    match e {
        DiffErrorView::GitFailed(m) => "git diff failed: "@ + m,
        DiffErrorView::InvalidDiffLine(l) => "failed to parse git diff name-status line: `"@ + l
            + "`"@,
        DiffErrorView::ForbiddenRename(f, t) => "article directory rename is forbidden: articles/"@
            + f + "/ -> articles/"@ + t + "/"@,
        DiffErrorView::MultipleNewArticles(slugs) =>
            "multiple new articles are not allowed in one PR: "@ + join_with(slugs, ", "@),
    }
}

impl DiffError {
    /// The message that describes the error.
    pub fn message(&self) -> (r: String)
        ensures
            r@ == diff_error_message(self@),
    {
        let mut m = String::new();
        match self {
            DiffError::GitFailed(message) => {
                m.append("git diff failed: ");
                m.append(message.as_str());
            },
            DiffError::InvalidDiffLine(line) => {
                m.append("failed to parse git diff name-status line: `");
                m.append(line.as_str());
                m.append("`");
            },
            DiffError::ForbiddenRename { from, to } => {
                m.append("article directory rename is forbidden: articles/");
                m.append(from.as_str());
                m.append("/ -> articles/");
                m.append(to.as_str());
                m.append("/");
            },
            DiffError::MultipleNewArticles { slugs } => {
                m.append("multiple new articles are not allowed in one PR: ");
                let joined = join_strings(slugs, ", ");
                m.append(joined.as_str());
            },
        }
        m
    }
}

} // verus!
