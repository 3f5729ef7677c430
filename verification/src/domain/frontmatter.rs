//! Article frontmatter: the YAML block between two `---` lines at the top of
//! an article, and the rules its fields follow.
use crate::text::{
    chars_of, content_len, find_class_from, find_pat, find_pat_from, is_blank, is_blank_str,
    join_strings, join_with, lemma_find_class, lemma_find_class_is, lemma_find_class_shift,
    line_end, slice_chars, string_from_chars,
    strings_view, CharClass,
};
use vstd::prelude::*;

verus! {

/// A YAML value.
#[derive(Debug, PartialEq, Eq)]
pub enum YamlValue {
    Null,
    Bool(bool),
    /// A number, as its text.
    Number(String),
    String(String),
    Sequence(Vec<YamlValue>),
    /// The entries of a mapping, in order, each key once.
    Mapping(Vec<(YamlValue, YamlValue)>),
    /// A value with a YAML tag, such as `!rust 1.80`.
    Tagged { tag: String, value: Box<YamlValue> },
}

/// The fields of an article's frontmatter. A field that the YAML leaves out is
/// `None`; `qiita_id: null` is `Some(YamlValue::Null)`, while `published: null`
/// is `None`.
#[derive(Debug, PartialEq, Eq)]
pub struct Frontmatter {
    pub title: Option<String>,
    pub tags: Option<Vec<YamlValue>>,
    pub author: Option<String>,
    pub qiita_id: Option<YamlValue>,
    pub published: Option<YamlValue>,
}

#[derive(Debug, PartialEq, Eq)]
pub enum FrontmatterParseError {
    MissingOpeningDelimiter,
    MissingClosingDelimiter,
    TagsMustBeArray,
    InvalidYaml(String),
}

pub enum FrontmatterParseErrorView {
    MissingOpeningDelimiter,
    MissingClosingDelimiter,
    TagsMustBeArray,
    InvalidYaml(Seq<char>),
}

impl View for FrontmatterParseError {
    type V = FrontmatterParseErrorView;

    open spec fn view(&self) -> FrontmatterParseErrorView {
        match self {
            FrontmatterParseError::MissingOpeningDelimiter => FrontmatterParseErrorView::MissingOpeningDelimiter,
            FrontmatterParseError::MissingClosingDelimiter => FrontmatterParseErrorView::MissingClosingDelimiter,
            FrontmatterParseError::TagsMustBeArray => FrontmatterParseErrorView::TagsMustBeArray,
            FrontmatterParseError::InvalidYaml(m) => FrontmatterParseErrorView::InvalidYaml(m@),
        }
    }
}

#[derive(Debug, PartialEq, Eq)]
pub enum FrontmatterViolation {
    MissingRequiredField(&'static str),
    EmptyRequiredField(&'static str),
    UnsupportedPublishedField,
    InvalidQiitaId,
}

pub enum FrontmatterViolationView {
    MissingRequiredField(Seq<char>),
    EmptyRequiredField(Seq<char>),
    UnsupportedPublishedField,
    InvalidQiitaId,
}

impl View for FrontmatterViolation {
    type V = FrontmatterViolationView;

    open spec fn view(&self) -> FrontmatterViolationView {
        match self {
            FrontmatterViolation::MissingRequiredField(f) => FrontmatterViolationView::MissingRequiredField(f@),
            FrontmatterViolation::EmptyRequiredField(f) => FrontmatterViolationView::EmptyRequiredField(f@),
            FrontmatterViolation::UnsupportedPublishedField => FrontmatterViolationView::UnsupportedPublishedField,
            FrontmatterViolation::InvalidQiitaId => FrontmatterViolationView::InvalidQiitaId,
        }
    }
}

pub open spec fn violations_view(v: Seq<FrontmatterViolation>) -> Seq<FrontmatterViolationView> {
    v.map_values(|x: FrontmatterViolation| x@)
}

/// The lines of a text from position `i`, as `str::lines` gives them.
pub open spec fn lines_from(s: Seq<char>, i: int) -> Seq<Seq<char>>
    decreases s.len() - i,
{
    if i < 0 || i >= s.len() {
        seq![]
    } else {
        let e = line_end(s, i);
        proof {
            lemma_find_class(s, i, CharClass::Exact('\n'));
        }
        let line = s.subrange(i, e);
        seq![line.subrange(0, content_len(line))] + lines_from(s, e)
    }
}

pub open spec fn delimiter() -> Seq<char> {
    seq!['-', '-', '-']
}

/// The first line at or after the `k`-th that is exactly `---`, or the
/// number of lines.
pub open spec fn closing_line(ls: Seq<Seq<char>>, k: int) -> int
    decreases ls.len() - k,
{
    if k < 0 || k >= ls.len() {
        ls.len() as int
    } else if ls[k] == delimiter() {
        k
    } else {
        closing_line(ls, k + 1)
    }
}

/// The YAML text of the frontmatter: the lines after a first line `---` up to
/// the next line `---`, joined with line feeds.
pub open spec fn frontmatter_yaml_of(content: Seq<char>) -> Result<Seq<char>, FrontmatterParseErrorView> {
    let ls = lines_from(content, 0);
    if ls.len() == 0 || ls[0] != delimiter() {
        Err(FrontmatterParseErrorView::MissingOpeningDelimiter)
    } else {
        let j = closing_line(ls, 1);
        if j >= ls.len() {
            Err(FrontmatterParseErrorView::MissingClosingDelimiter)
        } else {
            Ok(join_with(ls.subrange(1, j), seq!['\n']))
        }
    }
}

proof fn lemma_lines_shift(x: Seq<char>, y: Seq<char>, j: int)
    requires
        0 <= j <= y.len(),
    ensures
        lines_from(x + y, x.len() + j) == lines_from(y, j),
    decreases y.len() - j,
{
    if j < y.len() {
        lemma_find_class_shift(x, y, j, CharClass::Exact('\n'));
        lemma_find_class(y, j, CharClass::Exact('\n'));
        let e = line_end(y, j);
        assert(line_end(x + y, x.len() + j) == x.len() + e);
        assert((x + y).subrange(x.len() + j, x.len() + e) =~= y.subrange(j, e));
        lemma_lines_shift(x, y, e);
    }
}

/// The lines of a text that follows whole lines are those lines and then its
/// own.
proof fn lemma_lines_prefix(x: Seq<char>, y: Seq<char>, i: int)
    requires
        0 <= i <= x.len(),
        x.len() == 0 || x.last() == '\n',
    ensures
        lines_from(x + y, i) == lines_from(x, i) + lines_from(y, 0),
    decreases x.len() - i,
{
    if i == x.len() {
        lemma_lines_shift(x, y, 0);
        assert(lines_from(x, i) + lines_from(y, 0) =~= lines_from(y, 0));
    } else {
        let cls = CharClass::Exact('\n');
        lemma_find_class(x, i, cls);
        let f = crate::text::find_class(x, i, cls);
        assert(f < x.len()) by {
            if f == x.len() {
                assert(!crate::text::in_class(cls, x[x.len() - 1]));
            }
        }
        assert forall|j: int| i <= j < f implies !crate::text::in_class(cls, #[trigger] (x + y)[j]) by {
            assert((x + y)[j] == x[j]);
        }
        assert((x + y)[f] == x[f]);
        lemma_find_class_is(x + y, i, cls, f);
        let e = f + 1;
        assert(line_end(x + y, i) == e);
        assert((x + y).subrange(i, e) =~= x.subrange(i, e));
        lemma_lines_prefix(x, y, e);
        let first = x.subrange(i, e).subrange(0, content_len(x.subrange(i, e)));
        assert(lines_from(x + y, i) =~= seq![first] + (lines_from(x, e) + lines_from(y, 0)));
        assert(lines_from(x, i) =~= seq![first] + lines_from(x, e));
    }
}

proof fn lemma_closing_line_is(ls: Seq<Seq<char>>, k: int, m: int)
    requires
        0 <= k <= m < ls.len(),
        ls[m] == delimiter(),
        forall|j: int| k <= j < m ==> #[trigger] ls[j] != delimiter(),
    ensures
        closing_line(ls, k) == m,
    decreases m - k,
{
    if k < m {
        lemma_closing_line_is(ls, k + 1, m);
    }
}

/// The frontmatter is the text between the first two `---` lines, whatever
/// follows them: an article made of a `---` line, YAML lines none of which is
/// `---`, a second `---` line and any body has that YAML, its lines joined
/// with line feeds, as its frontmatter.
pub proof fn law_frontmatter_is_the_text_between_the_first_two_delimiter_lines(
    yaml: Seq<char>,
    body: Seq<char>,
)
    requires
        yaml.len() == 0 || yaml.last() == '\n',
        forall|k: int|
            0 <= k < lines_from(yaml, 0).len() ==> #[trigger] lines_from(yaml, 0)[k] != delimiter(),
    ensures
        frontmatter_yaml_of(seq!['-', '-', '-', '\n'] + yaml + seq!['-', '-', '-', '\n'] + body)
            == Ok::<Seq<char>, FrontmatterParseErrorView>(join_with(lines_from(yaml, 0), seq!['\n'])),
{
    let d = seq!['-', '-', '-', '\n'];
    let y = lines_from(yaml, 0);
    // the delimiter line alone
    lemma_find_class_is(d, 0, CharClass::Exact('\n'), 3);
    assert(d.subrange(0, 4) =~= d);
    assert(d.subrange(0, 3) =~= delimiter());
    assert(lines_from(d, 4) =~= Seq::<Seq<char>>::empty());
    assert(lines_from(d, 0) =~= seq![delimiter()]);
    // the lines of the whole text
    lemma_lines_prefix(d, yaml, 0);
    let a = d + yaml;
    assert(a.last() == '\n') by {
        if yaml.len() == 0 {
            assert(a =~= d);
        } else {
            assert(a.last() == yaml.last());
        }
    }
    lemma_lines_prefix(a, d, 0);
    let b = a + d;
    assert(b.last() == '\n');
    lemma_lines_prefix(b, body, 0);
    let ls = lines_from(b + body, 0);
    assert(ls =~= seq![delimiter()] + y + seq![delimiter()] + lines_from(body, 0));
    assert(ls[0] == delimiter());
    let m: int = y.len() as int + 1;
    assert(ls[m] == delimiter());
    assert forall|j: int| 1 <= j < m implies #[trigger] ls[j] != delimiter() by {
        assert(ls[j] == y[j - 1]);
    }
    lemma_closing_line_is(ls, 1, m);
    assert(ls.subrange(1, m) =~= y);
}

/// `pat` occurs in `s`.
pub open spec fn contains_text(s: Seq<char>, pat: Seq<char>) -> bool {
    find_pat(s, 0, pat) is Some
}

/// What a failure of the YAML parser becomes: a `tags` that is a string where
/// a sequence is expected has an error of its own.
pub open spec fn yaml_error_of(message: Seq<char>) -> FrontmatterParseErrorView {
    if contains_text(message, "invalid type: string"@) && contains_text(message, "expected a sequence"@) {
        FrontmatterParseErrorView::TagsMustBeArray
    } else {
        FrontmatterParseErrorView::InvalidYaml(message)
    }
}

fn text_lines(s: &Vec<char>) -> (r: Vec<Vec<char>>)
    ensures
        crate::text::char_vecs_view(r@) == lines_from(s@, 0),
{
    let mut out: Vec<Vec<char>> = Vec::new();
    let mut i: usize = 0;
    while i < s.len()
        invariant
            i <= s.len(),
            lines_from(s@, 0) == crate::text::char_vecs_view(out@) + lines_from(s@, i as int),
        decreases s.len() - i,
    {
        let ghost before = crate::text::char_vecs_view(out@);
        let e0 = find_class_from(s, i, CharClass::Exact('\n'));
        let e = if e0 < s.len() {
            e0 + 1
        } else {
            s.len()
        };
        let whole = slice_chars(s, i, e);
        let c = if whole.len() >= 2 && whole[whole.len() - 2] == '\r' && whole[whole.len() - 1]
            == '\n' {
            whole.len() - 2
        } else if whole.len() >= 1 && whole[whole.len() - 1] == '\n' {
            whole.len() - 1
        } else {
            whole.len()
        };
        let line = slice_chars(&whole, 0, c);
        out.push(line);
        proof {
            assert(crate::text::char_vecs_view(out@) =~= before + seq![line@]);
            assert(lines_from(s@, i as int) == seq![line@] + lines_from(s@, e as int));
        }
        i = e;
    }
    proof {
        assert(crate::text::char_vecs_view(out@) + seq![] =~= crate::text::char_vecs_view(out@));
    }
    out
}

/// The YAML text of an article's frontmatter, without parsing it.
pub fn frontmatter_yaml(content: &str) -> (r: Result<String, FrontmatterParseError>)
    ensures
        match frontmatter_yaml_of(content@) {
            Ok(y) => r matches Ok(s) && s@ == y,
            Err(e) => r matches Err(x) && x@ == e,
        },
{
    let s = chars_of(content);
    let ls = text_lines(&s);
    let ghost lv = crate::text::char_vecs_view(ls@);
    let dash = vec!['-', '-', '-'];
    proof {
        if ls.len() > 0 {
            assert(lv[0] == ls@[0]@);
        }
    }
    if ls.len() == 0 || !crate::text::chars_eq(&ls[0], &dash) {
        return Err(FrontmatterParseError::MissingOpeningDelimiter);
    }
    let mut j: usize = 1;
    while j < ls.len()
        invariant
            1 <= j <= ls.len(),
            lv == crate::text::char_vecs_view(ls@),
            lv == lines_from(content@, 0),
            dash@ == delimiter(),
            closing_line(lv, 1) == closing_line(lv, j as int),
        ensures
            1 <= j <= ls.len(),
            closing_line(lv, 1) == closing_line(lv, j as int),
            j < ls.len() ==> lv[j as int] == delimiter(),
        decreases ls.len() - j,
    {
        proof {
            assert(lv[j as int] == ls@[j as int]@);
        }
        if crate::text::chars_eq(&ls[j], &dash) {
            break;
        }
        j = j + 1;
    }
    if j >= ls.len() {
        return Err(FrontmatterParseError::MissingClosingDelimiter);
    }
    let mut parts: Vec<String> = Vec::new();
    let mut k: usize = 1;
    while k < j
        invariant
            1 <= k <= j < ls.len(),
            lv == crate::text::char_vecs_view(ls@),
            strings_view(parts@) =~= lv.subrange(1, k as int),
        decreases j - k,
    {
        let ghost before = strings_view(parts@);
        parts.push(string_from_chars(&ls[k]));
        proof {
            assert(lv[k as int] == ls@[k as int]@);
            assert(strings_view(parts@) =~= before.push(lv[k as int]));
            assert(lv.subrange(1, k + 1) =~= lv.subrange(1, k as int).push(lv[k as int]));
        }
        k = k + 1;
    }
    let yaml = join_strings(&parts, "\n");
    proof {
        assert("\n"@ =~= seq!['\n']) by {
            reveal_strlit("\n");
        }
    }
    Ok(yaml)
}

fn contains_str(s: &str, pat: &str) -> (r: bool)
    ensures
        r == contains_text(s@, pat@),
{
    let a = chars_of(s);
    let b = chars_of(pat);
    find_pat_from(&a, 0, &b).is_some()
}

/// Turns the message of a failed YAML parse into an error.
pub fn yaml_error(message: &str) -> (r: FrontmatterParseError)
    ensures
        r@ == yaml_error_of(message@),
{
    if contains_str(message, "invalid type: string") && contains_str(message, "expected a sequence") {
        FrontmatterParseError::TagsMustBeArray
    } else {
        FrontmatterParseError::InvalidYaml(message.to_owned())
    }
}

/// The result of parsing an article's frontmatter, from what the YAML parser
/// made of the text that `frontmatter_yaml` gave.
pub fn frontmatter_from_yaml_result(parsed: Result<Frontmatter, String>) -> (r: Result<Frontmatter, FrontmatterParseError>)
    ensures
        match parsed {
            Ok(f) => r == Ok::<Frontmatter, FrontmatterParseError>(f),
            Err(m) => r matches Err(x) && x@ == yaml_error_of(m@),
        },
{
    match parsed {
        Ok(f) => Ok(f),
        Err(m) => Err(yaml_error(m.as_str())),
    }
}

/// The violation of a required string field, if any.
pub open spec fn required_string_violations(field: Seq<char>, value: Option<String>) -> Seq<FrontmatterViolationView> {
    match value {
        Some(v) => if !is_blank(v@) {
            seq![]
        } else {
            seq![FrontmatterViolationView::EmptyRequiredField(field)]
        },
        None => seq![FrontmatterViolationView::MissingRequiredField(field)],
    }
}

/// The violations of the rules on `published` and `qiita_id`.
pub open spec fn qiita_id_violations(fm: Frontmatter) -> Seq<FrontmatterViolationView> {
    (if fm.published is Some {
        seq![FrontmatterViolationView::UnsupportedPublishedField]
    } else {
        seq![]
    }) + match fm.qiita_id {
        Some(YamlValue::String(v)) => if !is_blank(v@) {
            seq![]
        } else {
            seq![FrontmatterViolationView::InvalidQiitaId]
        },
        Some(_) => seq![],
        None => seq![FrontmatterViolationView::MissingRequiredField("qiita_id"@)],
    }
}

/// Every rule that the frontmatter breaks, in the order title, tags, author,
/// published, qiita_id.
pub open spec fn frontmatter_violations(fm: Frontmatter) -> Seq<FrontmatterViolationView> {
    required_string_violations("title"@, fm.title) + (if fm.tags is None {
        seq![FrontmatterViolationView::MissingRequiredField("tags"@)]
    } else {
        seq![]
    }) + required_string_violations("author"@, fm.author) + qiita_id_violations(fm)
}

fn validate_required_string(field: &'static str, value: &Option<String>, violations: &mut Vec<FrontmatterViolation>)
    ensures
        violations_view(final(violations)@) == violations_view(old(violations)@)
            + required_string_violations(field@, *value),
{
    let ghost before = violations_view(violations@);
    match value {
        Some(v) => {
            if is_blank_str(v.as_str()) {
                violations.push(FrontmatterViolation::EmptyRequiredField(field));
            }
        },
        None => violations.push(FrontmatterViolation::MissingRequiredField(field)),
    }
    assert(violations_view(violations@) =~= before + required_string_violations(field@, *value));
}

fn validate_tags(tags: &Option<Vec<YamlValue>>, violations: &mut Vec<FrontmatterViolation>)
    ensures
        violations_view(final(violations)@) == violations_view(old(violations)@) + (if tags is None {
            seq![FrontmatterViolationView::MissingRequiredField("tags"@)]
        } else {
            seq![]
        }),
{
    let ghost before = violations_view(violations@);
    if tags.is_none() {
        violations.push(FrontmatterViolation::MissingRequiredField("tags"));
    }
    assert(violations_view(violations@) =~= before + (if tags is None {
        seq![FrontmatterViolationView::MissingRequiredField("tags"@)]
    } else {
        seq![]
    }));
}

fn validate_qiita_id(frontmatter: &Frontmatter, violations: &mut Vec<FrontmatterViolation>)
    ensures
        violations_view(final(violations)@) == violations_view(old(violations)@) + qiita_id_violations(*frontmatter),
{
    let ghost before = violations_view(violations@);
    if frontmatter.published.is_some() {
        violations.push(FrontmatterViolation::UnsupportedPublishedField);
    }
    let ghost mid = violations_view(violations@);
    match &frontmatter.qiita_id {
        Some(YamlValue::String(v)) => {
            if is_blank_str(v.as_str()) {
                violations.push(FrontmatterViolation::InvalidQiitaId);
            }
        },
        Some(_) => {},
        None => violations.push(FrontmatterViolation::MissingRequiredField("qiita_id")),
    }
    assert(violations_view(violations@) =~= before + qiita_id_violations(*frontmatter));
}

/// Every rule of the frontmatter that `frontmatter` breaks, in order: `title`
/// and `author` must be present and not blank, `tags` must be present,
/// `published` must be absent, and `qiita_id` must be present and, when it is
/// a string, not blank.
pub fn validate_frontmatter(frontmatter: &Frontmatter) -> (r: Vec<FrontmatterViolation>)
    ensures
        violations_view(r@) == frontmatter_violations(*frontmatter),
{
    let mut violations: Vec<FrontmatterViolation> = Vec::new();
    validate_required_string("title", &frontmatter.title, &mut violations);
    validate_tags(&frontmatter.tags, &mut violations);
    validate_required_string("author", &frontmatter.author, &mut violations);
    validate_qiita_id(frontmatter, &mut violations);
    assert(violations_view(violations@) =~= frontmatter_violations(*frontmatter));
    violations
}

pub open spec fn parse_error_message(e: FrontmatterParseErrorView) -> Seq<char> {
    match e {
        FrontmatterParseErrorView::MissingOpeningDelimiter => "missing frontmatter opening delimiter `---`"@,
        FrontmatterParseErrorView::MissingClosingDelimiter => "missing frontmatter closing delimiter `---`"@,
        FrontmatterParseErrorView::TagsMustBeArray => "frontmatter field `tags` must be an array"@,
        FrontmatterParseErrorView::InvalidYaml(m) => "failed to parse frontmatter yaml: "@ + m,
    }
}

impl FrontmatterParseError {
    /// The message that describes the error.
    pub fn message(&self) -> (r: String)
        ensures
            r@ == parse_error_message(self@),
    {
        match self {
            FrontmatterParseError::MissingOpeningDelimiter => "missing frontmatter opening delimiter `---`".to_owned(),
            FrontmatterParseError::MissingClosingDelimiter => "missing frontmatter closing delimiter `---`".to_owned(),
            FrontmatterParseError::TagsMustBeArray => "frontmatter field `tags` must be an array".to_owned(),
            FrontmatterParseError::InvalidYaml(m) => {
                let mut r = String::new();
                r.append("failed to parse frontmatter yaml: ");
                r.append(m.as_str());
                r
            },
        }
    }
}

pub open spec fn violation_message(v: FrontmatterViolationView) -> Seq<char> {
    match v {
        FrontmatterViolationView::MissingRequiredField(f) => "missing required frontmatter field `"@ + f + "`"@,
        FrontmatterViolationView::EmptyRequiredField(f) => "frontmatter field `"@ + f + "` must not be empty"@,
        FrontmatterViolationView::UnsupportedPublishedField => "unsupported frontmatter field `published`"@,
        FrontmatterViolationView::InvalidQiitaId => "frontmatter field `qiita_id` must be null or a non-empty value"@,
    }
}

impl FrontmatterViolation {
    /// The message that describes the violation.
    pub fn message(&self) -> (r: String)
        ensures
            r@ == violation_message(self@),
    {
        let mut r = String::new();
        match self {
            FrontmatterViolation::MissingRequiredField(f) => {
                r.append("missing required frontmatter field `");
                r.append(f);
                r.append("`");
            },
            FrontmatterViolation::EmptyRequiredField(f) => {
                r.append("frontmatter field `");
                r.append(f);
                r.append("` must not be empty");
            },
            FrontmatterViolation::UnsupportedPublishedField => {
                r.append("unsupported frontmatter field `published`");
            },
            FrontmatterViolation::InvalidQiitaId => {
                r.append("frontmatter field `qiita_id` must be null or a non-empty value");
            },
        }
        r
    }
}

/// Every broken rule of the frontmatter is reported, whatever the other
/// fields hold: a missing `title`, `tags`, `author` or `qiita_id` as missing,
/// a blank `title` or `author` as empty, a `published` field, and a blank
/// string `qiita_id`; and nothing is reported exactly when no rule is broken.
pub proof fn law_each_broken_rule_is_reported(fm: Frontmatter)
    ensures
        fm.title is None ==> frontmatter_violations(fm).contains(
            FrontmatterViolationView::MissingRequiredField("title"@),
        ),
        (fm.title matches Some(t) && is_blank(t@)) ==> frontmatter_violations(fm).contains(
            FrontmatterViolationView::EmptyRequiredField("title"@),
        ),
        fm.tags is None ==> frontmatter_violations(fm).contains(
            FrontmatterViolationView::MissingRequiredField("tags"@),
        ),
        fm.author is None ==> frontmatter_violations(fm).contains(
            FrontmatterViolationView::MissingRequiredField("author"@),
        ),
        (fm.author matches Some(a) && is_blank(a@)) ==> frontmatter_violations(fm).contains(
            FrontmatterViolationView::EmptyRequiredField("author"@),
        ),
        fm.published is Some ==> frontmatter_violations(fm).contains(
            FrontmatterViolationView::UnsupportedPublishedField,
        ),
        fm.qiita_id is None ==> frontmatter_violations(fm).contains(
            FrontmatterViolationView::MissingRequiredField("qiita_id"@),
        ),
        (fm.qiita_id matches Some(YamlValue::String(v)) && is_blank(v@))
            ==> frontmatter_violations(fm).contains(FrontmatterViolationView::InvalidQiitaId),
        frontmatter_violations(fm).len() == 0 <==> (
            (fm.title matches Some(t) && !is_blank(t@))
            && fm.tags is Some
            && (fm.author matches Some(a) && !is_blank(a@))
            && fm.published is None
            && fm.qiita_id is Some
            && !(fm.qiita_id matches Some(YamlValue::String(v)) && is_blank(v@))
        ),
{
    let a = required_string_violations("title"@, fm.title);
    let b: Seq<FrontmatterViolationView> = if fm.tags is None {
        seq![FrontmatterViolationView::MissingRequiredField("tags"@)]
    } else {
        seq![]
    };
    let c = required_string_violations("author"@, fm.author);
    let p: Seq<FrontmatterViolationView> = if fm.published is Some {
        seq![FrontmatterViolationView::UnsupportedPublishedField]
    } else {
        seq![]
    };
    let q = qiita_id_violations(fm).subrange(p.len() as int, qiita_id_violations(fm).len() as int);
    let d = qiita_id_violations(fm);
    let vs = frontmatter_violations(fm);
    assert(vs == a + b + c + d);
    assert(d =~= p + q);
    if a.len() == 1 {
        assert(vs[0] == a[0]);
    }
    if b.len() == 1 {
        assert(vs[a.len() as int] == b[0]);
    }
    if c.len() == 1 {
        assert(vs[(a.len() + b.len()) as int] == c[0]);
    }
    if p.len() == 1 {
        assert(vs[(a.len() + b.len() + c.len()) as int] == p[0]);
    }
    if q.len() == 1 {
        assert(vs[(a.len() + b.len() + c.len() + p.len()) as int] == q[0]);
    }
}


/// The rule that a violation reports is broken by the frontmatter.
pub open spec fn breaks_rule(fm: Frontmatter, v: FrontmatterViolationView) -> bool {
    match v {
        FrontmatterViolationView::MissingRequiredField(f) => (f == "title"@ && fm.title is None)
            || (f == "tags"@ && fm.tags is None) || (f == "author"@ && fm.author is None) || (f
            == "qiita_id"@ && fm.qiita_id is None),
        FrontmatterViolationView::EmptyRequiredField(f) => (f == "title"@ && (fm.title matches Some(
            t,
        ) && is_blank(t@))) || (f == "author"@ && (fm.author matches Some(a) && is_blank(a@))),
        FrontmatterViolationView::UnsupportedPublishedField => fm.published is Some,
        FrontmatterViolationView::InvalidQiitaId => fm.qiita_id matches Some(YamlValue::String(v))
            && is_blank(v@),
    }
}

/// The place of a violation's field in the order title, tags, author,
/// published, qiita_id.
pub open spec fn rule_rank(v: FrontmatterViolationView) -> int {
    match v {
        FrontmatterViolationView::MissingRequiredField(f) => if f == "title"@ {
            0
        } else if f == "tags"@ {
            1
        } else if f == "author"@ {
            2
        } else {
            4
        },
        FrontmatterViolationView::EmptyRequiredField(f) => if f == "title"@ {
            0
        } else if f == "tags"@ {
            1
        } else if f == "author"@ {
            2
        } else {
            4
        },
        FrontmatterViolationView::UnsupportedPublishedField => 3,
        FrontmatterViolationView::InvalidQiitaId => 4,
    }
}

proof fn lemma_append_ranked(
    fm: Frontmatter,
    x: Seq<FrontmatterViolationView>,
    y: Seq<FrontmatterViolationView>,
    r: int,
)
    requires
        forall|i: int, j: int| 0 <= i < j < x.len() ==> rule_rank(#[trigger] x[i]) < rule_rank(#[trigger] x[j]),
        forall|i: int| 0 <= i < x.len() ==> rule_rank(#[trigger] x[i]) < r && breaks_rule(fm, x[i]),
        y.len() <= 1,
        forall|i: int| 0 <= i < y.len() ==> rule_rank(#[trigger] y[i]) == r && breaks_rule(fm, y[i]),
    ensures
        forall|i: int, j: int|
            0 <= i < j < (x + y).len() ==> rule_rank(#[trigger] (x + y)[i]) < rule_rank(
                #[trigger] (x + y)[j],
            ),
        forall|i: int|
            0 <= i < (x + y).len() ==> rule_rank(#[trigger] (x + y)[i]) < r + 1 && breaks_rule(
                fm,
                (x + y)[i],
            ),
{
    let z = x + y;
    assert forall|i: int| 0 <= i < z.len() implies rule_rank(#[trigger] z[i]) < r + 1
        && breaks_rule(fm, z[i]) by {
        if i < x.len() {
            assert(z[i] == x[i]);
        } else {
            assert(z[i] == y[i - x.len()]);
        }
    }
    assert forall|i: int, j: int| 0 <= i < j < z.len() implies rule_rank(#[trigger] z[i])
        < rule_rank(#[trigger] z[j]) by {
        if j < x.len() {
            assert(z[i] == x[i] && z[j] == x[j]);
        } else {
            assert(z[j] == y[j - x.len()]);
            assert(i < x.len());
            assert(z[i] == x[i]);
        }
    }
}

/// Nothing is reported but broken rules, each at most once and in the order
/// title, tags, author, published, qiita_id.
pub proof fn law_only_broken_rules_are_reported_in_order(fm: Frontmatter)
    ensures
        forall|i: int|
            0 <= i < frontmatter_violations(fm).len() ==> breaks_rule(
                fm,
                #[trigger] frontmatter_violations(fm)[i],
            ),
        forall|i: int, j: int|
            0 <= i < j < frontmatter_violations(fm).len() ==> rule_rank(
                #[trigger] frontmatter_violations(fm)[i],
            ) < rule_rank(#[trigger] frontmatter_violations(fm)[j]),
{
    reveal_strlit("title");
    reveal_strlit("tags");
    reveal_strlit("author");
    reveal_strlit("qiita_id");
    let a = required_string_violations("title"@, fm.title);
    let b: Seq<FrontmatterViolationView> = if fm.tags is None {
        seq![FrontmatterViolationView::MissingRequiredField("tags"@)]
    } else {
        seq![]
    };
    let c = required_string_violations("author"@, fm.author);
    let p: Seq<FrontmatterViolationView> = if fm.published is Some {
        seq![FrontmatterViolationView::UnsupportedPublishedField]
    } else {
        seq![]
    };
    let d = qiita_id_violations(fm);
    let q = d.subrange(p.len() as int, d.len() as int);
    assert(d =~= p + q);
    let e = Seq::<FrontmatterViolationView>::empty();
    assert(e + a =~= a);
    assert("tags"@.len() == 4 && "title"@.len() == 5 && "author"@.len() == 6 && "qiita_id"@.len()
        == 8);
    assert("tags"@ != "title"@);
    assert("author"@ != "title"@ && "author"@ != "tags"@);
    assert("qiita_id"@ != "title"@ && "qiita_id"@ != "tags"@ && "qiita_id"@ != "author"@);
    if b.len() == 1 {
        assert(rule_rank(b[0]) == 1);
    }
    if c.len() == 1 {
        assert(rule_rank(c[0]) == 2);
    }
    if q.len() == 1 {
        assert(q[0] == d[p.len() as int]);
        assert(rule_rank(q[0]) == 4);
    }
    lemma_append_ranked(fm, e, a, 0);
    lemma_append_ranked(fm, a, b, 1);
    lemma_append_ranked(fm, a + b, c, 2);
    lemma_append_ranked(fm, a + b + c, p, 3);
    lemma_append_ranked(fm, a + b + c + p, q, 4);
    assert(frontmatter_violations(fm) =~= a + b + c + p + q);
}

} // verus!
