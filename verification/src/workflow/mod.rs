//! Publishing changed articles: how each article is published, what is
//! uploaded for it, the request sent to Qiita, and the `qiita_id` written back
//! into its frontmatter. Reading files, running `git` and the calls to Qiita
//! are left to the caller, which hands in what they gave.
pub mod id_rewrite;

use crate::diff::{diff_error_message, ChangedArticle, DiffError, DiffErrorView};
use crate::domain::frontmatter::YamlValue;
use crate::qiita::{
    article_request_error, organization_of, qiita_error_message, tags_view, QiitaArticleRequest,
    QiitaArticleRequestView, QiitaError, QiitaErrorView, QiitaTag, UploadedImage,
};
use crate::markdown::{
    pairs_view, replace_image_sources, replaced_markdown, push_path, resolution, resolve_image_references, resolved_view, ImageReferenceKind,
    ResolvedImageReference,
};
use crate::text::{chars_of, chars_eq, is_blank, is_blank_str, join_with, strings_view};
use crate::{
    article_validation, frontmatter_yaml_error_message, image_messages, joined_image_messages,
    split_frontmatter, split_positions, validate_article, ArticleSource,
};
use crate::domain::frontmatter::{parse_error_message, yaml_error_of};
use vstd::prelude::*;

verus! {

/// The options of a `publish` run: whether it only reports, and the two
/// revisions whose difference names the changed articles.
#[derive(Debug, Clone, PartialEq, Eq)]
pub struct PublishOptions {
    pub dry_run: bool,
    pub diff_base: String,
    pub diff_head: String,
}

impl PublishOptions {
    /// The options from the settings of the environment: the revisions
    /// default to `HEAD^` and `HEAD`.
    pub fn from_settings(dry_run: bool, diff_base: Option<String>, diff_head: Option<String>) -> (r:
        Self)
        ensures
            r.dry_run == dry_run,
            r.diff_base@ == (match diff_base {
                Some(b) => b@,
                None => "HEAD^"@,
            }),
            r.diff_head@ == (match diff_head {
                Some(h) => h@,
                None => "HEAD"@,
            }),
    {
        let diff_base = match diff_base {
            Some(b) => b,
            None => "HEAD^".to_owned(),
        };
        let diff_head = match diff_head {
            Some(h) => h,
            None => "HEAD".to_owned(),
        };
        PublishOptions { dry_run, diff_base, diff_head }
    }
}

/// Whether an article is created on Qiita or updates the item it names.
#[derive(Debug, Clone, PartialEq, Eq)]
pub enum PublishAction {
    Create,
    Update { qiita_id: String },
}

pub enum PublishActionView {
    Create,
    Update(Seq<char>),
}

impl View for PublishAction {
    type V = PublishActionView;

    open spec fn view(&self) -> PublishActionView {
        match self {
            PublishAction::Create => PublishActionView::Create,
            PublishAction::Update { qiita_id } => PublishActionView::Update(qiita_id@),
        }
    }
}

/// The action for an article: an update of the item `qiita_id` names, or a
/// creation when it names none.
pub open spec fn action_of(qiita_id: Option<Seq<char>>) -> PublishActionView {
    match qiita_id {
        Some(id) => PublishActionView::Update(id),
        None => PublishActionView::Create,
    }
}

pub open spec fn opt_text(o: Option<String>) -> Option<Seq<char>> {
    match o {
        Some(s) => Some(s@),
        None => None,
    }
}

/// Chooses between creating an item and updating the one `qiita_id` names.
pub fn publish_action(qiita_id: Option<&str>) -> (r: PublishAction)
    ensures
        r@ == action_of(
            match qiita_id {
                Some(s) => Some(s@),
                None => None,
            },
        ),
{
    match qiita_id {
        Some(id) => PublishAction::Update { qiita_id: id.to_owned() },
        None => PublishAction::Create,
    }
}

/// An article of a report: its slug, its action, and the images that would
/// be uploaded.
#[derive(Debug, Clone, PartialEq, Eq)]
pub struct PublishTarget {
    pub slug: String,
    pub action: PublishAction,
    pub upload_targets: Vec<String>,
}

impl View for PublishTarget {
    type V = (Seq<char>, PublishActionView, Seq<Seq<char>>);

    open spec fn view(&self) -> (Seq<char>, PublishActionView, Seq<Seq<char>>) {
        (self.slug@, self.action@, strings_view(self.upload_targets@))
    }
}

pub open spec fn targets_view(v: Seq<PublishTarget>) -> Seq<(Seq<char>, PublishActionView, Seq<Seq<char>>)> {
    v.map_values(|t: PublishTarget| t@)
}

/// What a dry run would publish.
#[derive(Debug, Clone, PartialEq, Eq)]
pub struct PublishReport {
    pub targets: Vec<PublishTarget>,
}

/// The errors of publishing.
#[derive(Debug, PartialEq, Eq)]
pub enum WorkflowError {
    Diff(DiffError),
    Io { path: String, message: String },
    Validation(String),
    ImageValidation(String),
    InvalidFrontmatter { path: String, message: String },
    Qiita(QiitaError),
}

pub enum WorkflowErrorView {
    Diff(DiffErrorView),
    Io(Seq<char>, Seq<char>),
    Validation(Seq<char>),
    ImageValidation(Seq<char>),
    InvalidFrontmatter(Seq<char>, Seq<char>),
    Qiita(QiitaErrorView),
}

impl View for WorkflowError {
    type V = WorkflowErrorView;

    open spec fn view(&self) -> WorkflowErrorView {
        match self {
            WorkflowError::Diff(e) => WorkflowErrorView::Diff(e@),
            WorkflowError::Io { path, message } => WorkflowErrorView::Io(path@, message@),
            WorkflowError::Validation(m) => WorkflowErrorView::Validation(m@),
            WorkflowError::ImageValidation(m) => WorkflowErrorView::ImageValidation(m@),
            WorkflowError::InvalidFrontmatter { path, message } => WorkflowErrorView::InvalidFrontmatter(
                path@,
                message@,
            ),
            WorkflowError::Qiita(e) => WorkflowErrorView::Qiita(e@),
        }
    }
}

pub open spec fn workflow_error_message(e: WorkflowErrorView) -> Seq<char> {
    match e {
        WorkflowErrorView::Diff(d) => diff_error_message(d),
        WorkflowErrorView::Io(p, m) => p + ": "@ + m,
        WorkflowErrorView::Validation(m) => m,
        WorkflowErrorView::ImageValidation(m) => m,
        WorkflowErrorView::InvalidFrontmatter(p, m) => p + ": "@ + m,
        WorkflowErrorView::Qiita(q) => qiita_error_message(q),
    }
}

impl WorkflowError {
    /// The message that describes the error.
    pub fn message(&self) -> (r: String)
        ensures
            r@ == workflow_error_message(self@),
    {
        match self {
            WorkflowError::Diff(e) => e.message(),
            WorkflowError::Io { path, message } => {
                let mut m = path.clone();
                m.append(": ");
                m.append(message.as_str());
                m
            },
            WorkflowError::Validation(m) => m.clone(),
            WorkflowError::ImageValidation(m) => m.clone(),
            WorkflowError::InvalidFrontmatter { path, message } => {
                let mut m = path.clone();
                m.append(": ");
                m.append(message.as_str());
                m
            },
            WorkflowError::Qiita(e) => e.message(),
        }
    }
}

impl From<DiffError> for WorkflowError {
    fn from(error: DiffError) -> (r: Self) {
        WorkflowError::Diff(error)
    }
}

impl vstd::std_specs::convert::FromSpecImpl<DiffError> for WorkflowError {
    open spec fn obeys_from_spec() -> bool {
        true
    }

    open spec fn from_spec(v: DiffError) -> WorkflowError {
        WorkflowError::Diff(v)
    }
}

impl From<QiitaError> for WorkflowError {
    fn from(error: QiitaError) -> (r: Self) {
        WorkflowError::Qiita(error)
    }
}

impl vstd::std_specs::convert::FromSpecImpl<QiitaError> for WorkflowError {
    open spec fn obeys_from_spec() -> bool {
        true
    }

    open spec fn from_spec(v: QiitaError) -> WorkflowError {
        WorkflowError::Qiita(v)
    }
}

// ---------------------------------------------------------------------------
// The fields of the frontmatter that publishing reads
// ---------------------------------------------------------------------------

/// The text of a string value, looking through tags (`Value::as_str`).
pub open spec fn yaml_as_str(v: YamlValue) -> Option<Seq<char>>
    decreases v,
{
    match v {
        YamlValue::String(s) => Some(s@),
        YamlValue::Tagged { value, .. } => yaml_as_str(*value),
        _ => None,
    }
}

/// The items of a sequence value, looking through tags
/// (`Value::as_sequence`).
pub open spec fn yaml_as_sequence(v: YamlValue) -> Option<Seq<YamlValue>>
    decreases v,
{
    match v {
        YamlValue::Sequence(items) => Some(items@),
        YamlValue::Tagged { value, .. } => yaml_as_sequence(*value),
        _ => None,
    }
}

/// The value of the first entry whose key is the string `key`
/// (`Mapping::get` with a `&str`).
pub open spec fn mapping_get(entries: Seq<(YamlValue, YamlValue)>, key: Seq<char>) -> Option<
    YamlValue,
>
    decreases entries.len(),
{
    if entries.len() == 0 {
        None
    } else if (entries[0].0 matches YamlValue::String(s) && s@ == key) {
        Some(entries[0].1)
    } else {
        mapping_get(entries.drop_first(), key)
    }
}

/// The texts of the string items, in order; other items are left out.
pub open spec fn strings_in(items: Seq<YamlValue>) -> Seq<Seq<char>>
    decreases items.len(),
{
    if items.len() == 0 {
        seq![]
    } else {
        strings_in(items.drop_last()) + match yaml_as_str(items.last()) {
            Some(s) => seq![s],
            None => seq![],
        }
    }
}

fn yaml_as_str_exec(v: &YamlValue) -> (r: Option<String>)
    ensures
        opt_text(r) == yaml_as_str(*v),
    decreases v,
{
    match v {
        YamlValue::String(s) => Some(s.clone()),
        YamlValue::Tagged { value, .. } => yaml_as_str_exec(value),
        _ => None,
    }
}

fn yaml_as_sequence_exec(v: &YamlValue) -> (r: Option<&Vec<YamlValue>>)
    ensures
        r is None <==> yaml_as_sequence(*v) is None,
        r matches Some(items) ==> yaml_as_sequence(*v) == Some(items@),
    decreases v,
{
    match v {
        YamlValue::Sequence(items) => Some(items),
        YamlValue::Tagged { value, .. } => yaml_as_sequence_exec(value),
        _ => None,
    }
}

fn mapping_get_exec<'a>(entries: &'a Vec<(YamlValue, YamlValue)>, key: &str) -> (r: Option<
    &'a YamlValue,
>)
    ensures
        r is None <==> mapping_get(entries@, key@) is None,
        r matches Some(v) ==> mapping_get(entries@, key@) == Some(*v),
{
    let k = chars_of(key);
    let mut i: usize = 0;
    assert(entries@.skip(0) =~= entries@);
    while i < entries.len()
        invariant
            i <= entries.len(),
            k@ == key@,
            mapping_get(entries@, key@) == mapping_get(entries@.skip(i as int), key@),
        decreases entries.len() - i,
    {
        proof {
            assert(entries@.skip(i as int).drop_first() =~= entries@.skip(i + 1));
            assert(entries@.skip(i as int)[0] == entries@[i as int]);
        }
        if let YamlValue::String(s) = &entries[i].0 {
            let sc = chars_of(s.as_str());
            if chars_eq(&sc, &k) {
                return Some(&entries[i].1);
            }
        }
        i = i + 1;
    }
    None
}

fn strings_in_exec(items: &Vec<YamlValue>) -> (r: Vec<String>)
    ensures
        strings_view(r@) == strings_in(items@),
{
    let mut out: Vec<String> = Vec::new();
    let mut i: usize = 0;
    while i < items.len()
        invariant
            i <= items.len(),
            strings_view(out@) == strings_in(items@.take(i as int)),
        decreases items.len() - i,
    {
        proof {
            assert(items@.take(i + 1).drop_last() =~= items@.take(i as int));
            assert(items@.take(i + 1).last() == items@[i as int]);
        }
        let ghost before = strings_view(out@);
        match yaml_as_str_exec(&items[i]) {
            Some(s) => {
                out.push(s);
                assert(strings_view(out@) =~= before + seq![s@]);
            },
            None => {
                assert(strings_view(out@) =~= before + Seq::<Seq<char>>::empty());
            },
        }
        i = i + 1;
    }
    assert(items@.take(items.len() as int) =~= items@);
    out
}

fn invalid_frontmatter(path: &str, message: &str) -> (r: WorkflowError)
    ensures
        r@ == WorkflowErrorView::InvalidFrontmatter(path@, message@),
{
    WorkflowError::InvalidFrontmatter { path: path.to_owned(), message: message.to_owned() }
}

/// A required string of the frontmatter: present and not blank.
pub open spec fn required_text(path: Seq<char>, field: Seq<char>, value: Option<Seq<char>>) -> Result<
    Seq<char>,
    WorkflowErrorView,
> {
    match value {
        Some(v) => if !is_blank(v) {
            Ok(v)
        } else {
            Err(
                WorkflowErrorView::InvalidFrontmatter(
                    path,
                    "frontmatter field `"@ + field + "` must not be empty"@,
                ),
            )
        },
        None => Err(
            WorkflowErrorView::InvalidFrontmatter(
                path,
                "frontmatter field `"@ + field + "` must not be empty"@,
            ),
        ),
    }
}

/// The value of a required string field of the frontmatter.
pub fn required_string(path: &str, field: &str, value: Option<String>) -> (r: Result<
    String,
    WorkflowError,
>)
    ensures
        match required_text(path@, field@, opt_text(value)) {
            Ok(v) => r matches Ok(s) && s@ == v,
            Err(e) => r matches Err(x) && x@ == e,
        },
{
    match value {
        Some(v) => {
            if !is_blank_str(v.as_str()) {
                return Ok(v);
            }
        },
        None => {},
    }
    let mut m = "frontmatter field `".to_owned();
    m.append(field);
    m.append("` must not be empty");
    Err(WorkflowError::InvalidFrontmatter { path: path.to_owned(), message: m })
}

/// The `qiita_id` of the frontmatter: `null` names no item, a non-blank
/// string names one.
pub open spec fn qiita_id_of(path: Seq<char>, value: Option<YamlValue>) -> Result<
    Option<Seq<char>>,
    WorkflowErrorView,
> {
    match value {
        Some(YamlValue::Null) => Ok(None),
        Some(YamlValue::String(v)) => if !is_blank(v@) {
            Ok(Some(v@))
        } else {
            Err(
                WorkflowErrorView::InvalidFrontmatter(
                    path,
                    "frontmatter field `qiita_id` must be null or a non-empty string"@,
                ),
            )
        },
        Some(_) => Err(
            WorkflowErrorView::InvalidFrontmatter(
                path,
                "frontmatter field `qiita_id` must be null or a non-empty string"@,
            ),
        ),
        None => Err(
            WorkflowErrorView::InvalidFrontmatter(
                path,
                "missing required frontmatter field `qiita_id`"@,
            ),
        ),
    }
}

/// Reads the `qiita_id` of the frontmatter.
pub fn qiita_id(path: &str, value: &Option<YamlValue>) -> (r: Result<Option<String>, WorkflowError>)
    ensures
        match qiita_id_of(path@, *value) {
            Ok(id) => r matches Ok(x) && opt_text(x) == id,
            Err(e) => r matches Err(x) && x@ == e,
        },
{
    match value {
        Some(YamlValue::Null) => Ok(None),
        Some(YamlValue::String(v)) => {
            if !is_blank_str(v.as_str()) {
                Ok(Some(v.clone()))
            } else {
                Err(
                    invalid_frontmatter(
                        path,
                        "frontmatter field `qiita_id` must be null or a non-empty string",
                    ),
                )
            }
        },
        Some(_) => Err(
            invalid_frontmatter(
                path,
                "frontmatter field `qiita_id` must be null or a non-empty string",
            ),
        ),
        None => Err(invalid_frontmatter(path, "missing required frontmatter field `qiita_id`")),
    }
}

/// A tag of the frontmatter: a non-blank string, or a mapping with a
/// non-blank `name` and, optionally, a sequence of `versions` whose string
/// items are kept.
pub open spec fn tag_of(path: Seq<char>, v: YamlValue) -> Result<
    (Seq<char>, Seq<Seq<char>>),
    WorkflowErrorView,
> {
    match v {
        YamlValue::String(name) if !is_blank(name@) => Ok((name@, seq![])),
        YamlValue::Mapping(entries) => {
            let name = match mapping_get(entries@, "name"@) {
                Some(n) => yaml_as_str(n),
                None => None,
            };
            match name {
                Some(n) if !is_blank(n) => {
                    let versions = match mapping_get(entries@, "versions"@) {
                        Some(vs) => match yaml_as_sequence(vs) {
                            Some(items) => strings_in(items),
                            None => seq![],
                        },
                        None => seq![],
                    };
                    Ok((n, versions))
                },
                _ => Err(
                    WorkflowErrorView::InvalidFrontmatter(
                        path,
                        "tag mapping must include a non-empty `name`"@,
                    ),
                ),
            }
        },
        _ => Err(
            WorkflowErrorView::InvalidFrontmatter(
                path,
                "tags must be strings or mappings with `name`"@,
            ),
        ),
    }
}

/// The tags of a sequence, or the error of the first that is not a tag.
pub open spec fn tags_in(path: Seq<char>, values: Seq<YamlValue>) -> Result<
    Seq<(Seq<char>, Seq<Seq<char>>)>,
    WorkflowErrorView,
>
    decreases values.len(),
{
    if values.len() == 0 {
        Ok(seq![])
    } else {
        match tags_in(path, values.drop_last()) {
            Err(e) => Err(e),
            Ok(ts) => match tag_of(path, values.last()) {
                Ok(t) => Ok(ts.push(t)),
                Err(e) => Err(e),
            },
        }
    }
}

/// The `tags` of the frontmatter, which must be present.
pub open spec fn tags_of(path: Seq<char>, values: Option<Seq<YamlValue>>) -> Result<
    Seq<(Seq<char>, Seq<Seq<char>>)>,
    WorkflowErrorView,
> {
    match values {
        None => Err(
            WorkflowErrorView::InvalidFrontmatter(path, "missing required frontmatter field `tags`"@),
        ),
        Some(vs) => tags_in(path, vs),
    }
}

/// Reads one tag of the frontmatter.
pub fn qiita_tag(path: &str, value: &YamlValue) -> (r: Result<QiitaTag, WorkflowError>)
    ensures
        match tag_of(path@, *value) {
            Ok(t) => r matches Ok(x) && x@ == t,
            Err(e) => r matches Err(x) && x@ == e,
        },
{
    match value {
        YamlValue::String(name) => {
            if !is_blank_str(name.as_str()) {
                let t = QiitaTag::new(name.as_str());
                assert(strings_view(t.versions@) =~= Seq::<Seq<char>>::empty());
                return Ok(t);
            }
            Err(invalid_frontmatter(path, "tags must be strings or mappings with `name`"))
        },
        YamlValue::Mapping(entries) => {
            let name = match mapping_get_exec(entries, "name") {
                Some(n) => yaml_as_str_exec(n),
                None => None,
            };
            match name {
                Some(n) => {
                    if is_blank_str(n.as_str()) {
                        return Err(
                            invalid_frontmatter(path, "tag mapping must include a non-empty `name`"),
                        );
                    }
                    let versions = match mapping_get_exec(entries, "versions") {
                        Some(vs) => match yaml_as_sequence_exec(vs) {
                            Some(items) => strings_in_exec(items),
                            None => Vec::new(),
                        },
                        None => Vec::new(),
                    };
                    proof {
                        if versions@.len() == 0 {
                            assert(strings_view(versions@) =~= Seq::<Seq<char>>::empty());
                        }
                    }
                    Ok(QiitaTag::with_versions(n.as_str(), versions))
                },
                None => Err(invalid_frontmatter(path, "tag mapping must include a non-empty `name`")),
            }
        },
        _ => Err(invalid_frontmatter(path, "tags must be strings or mappings with `name`")),
    }
}

/// Reads the tags of the frontmatter.
pub fn qiita_tags(path: &str, values: &Option<Vec<YamlValue>>) -> (r: Result<
    Vec<QiitaTag>,
    WorkflowError,
>)
    ensures
        match tags_of(
            path@,
            match values {
                Some(vs) => Some(vs@),
                None => None,
            },
        ) {
            Ok(ts) => r matches Ok(x) && tags_view(x@) == ts,
            Err(e) => r matches Err(x) && x@ == e,
        },
{
    let items = match values {
        Some(vs) => vs,
        None => return Err(invalid_frontmatter(path, "missing required frontmatter field `tags`")),
    };
    let mut tags: Vec<QiitaTag> = Vec::new();
    let mut i: usize = 0;
    assert(items@.take(0) =~= Seq::<YamlValue>::empty());
    assert(tags_view(tags@) =~= Seq::<(Seq<char>, Seq<Seq<char>>)>::empty());
    while i < items.len()
        invariant
            i <= items.len(),
            *values == Some(*items),
            tags_in(path@, items@.take(i as int)) == Ok::<
                Seq<(Seq<char>, Seq<Seq<char>>)>,
                WorkflowErrorView,
            >(tags_view(tags@)),
        decreases items.len() - i,
    {
        proof {
            assert(items@.take(i + 1).drop_last() =~= items@.take(i as int));
            assert(items@.take(i + 1).last() == items@[i as int]);
        }
        let tag = qiita_tag(path, &items[i]);
        match tag {
            Ok(t) => {
                let ghost before = tags_view(tags@);
                tags.push(t);
                assert(tags_view(tags@) =~= before.push(t@));
            },
            Err(e) => {
                proof {
                    assert(tags_in(path@, items@.take(i + 1)) == Err::<
                        Seq<(Seq<char>, Seq<Seq<char>>)>,
                        WorkflowErrorView,
                    >(e@));
                    lemma_tags_in_error_stays(path@, items@, i as int + 1);
                }
                return Err(e);
            },
        }
        i = i + 1;
    }
    assert(items@.take(items.len() as int) =~= items@);
    Ok(tags)
}

proof fn lemma_tags_in_error_stays(path: Seq<char>, values: Seq<YamlValue>, k: int)
    requires
        0 <= k <= values.len(),
        tags_in(path, values.take(k)) is Err,
    ensures
        tags_in(path, values) == tags_in(path, values.take(k)),
    decreases values.len() - k,
{
    if k == values.len() {
        assert(values.take(k) =~= values);
    } else {
        assert(values.take(k + 1).drop_last() =~= values.take(k));
        lemma_tags_in_error_stays(path, values, k + 1);
    }
}

/// A tag always has a non-blank name. A non-blank string is a tag of that
/// name with no versions; a mapping is a tag exactly when its `name` is a
/// non-blank string; nothing else is a tag.
pub proof fn law_tags_have_non_blank_names(path: Seq<char>, v: YamlValue)
    ensures
        tag_of(path, v) matches Ok(t) ==> !is_blank(t.0),
        v matches YamlValue::String(n) ==> (!is_blank(n@) ==> tag_of(path, v) == Ok::<
            (Seq<char>, Seq<Seq<char>>),
            WorkflowErrorView,
        >((n@, seq![]))),
        v matches YamlValue::Mapping(entries) ==> (tag_of(path, v) is Ok <==> (mapping_get(
            entries@,
            "name"@,
        ) matches Some(n) && yaml_as_str(n) matches Some(name) && !is_blank(name))),
        tag_of(path, v) is Ok ==> (v is String || v is Mapping),
{
}

/// The tags of the frontmatter are read one for one and in order: they read
/// exactly when each value is a tag, and then the `k`-th tag is the tag of the
/// `k`-th value; otherwise the error is that of the first value that is not
/// a tag.
pub proof fn law_one_tag_per_value_in_order(path: Seq<char>, values: Seq<YamlValue>)
    ensures
        tags_of(path, Some(values)) is Ok <==> forall|k: int|
            0 <= k < values.len() ==> #[trigger] tag_of(path, values[k]) is Ok,
        tags_of(path, Some(values)) matches Ok(ts) ==> ts.len() == values.len() && forall|k: int|
            0 <= k < values.len() ==> #[trigger] tag_of(path, values[k]) == Ok::<
                (Seq<char>, Seq<Seq<char>>),
                WorkflowErrorView,
            >(ts[k]),
        tags_of(path, Some(values)) matches Err(e) ==> exists|k: int|
            0 <= k < values.len() && #[trigger] tag_of(path, values[k]) == Err::<
                (Seq<char>, Seq<Seq<char>>),
                WorkflowErrorView,
            >(e) && forall|j: int| 0 <= j < k ==> #[trigger] tag_of(path, values[j]) is Ok,
    decreases values.len(),
{
    if values.len() > 0 {
        let front = values.drop_last();
        law_one_tag_per_value_in_order(path, front);
        let n = values.len() - 1;
        assert forall|k: int| 0 <= k < n implies #[trigger] values[k] == front[k] by {}
        assert(values.last() == values[n]);
        match tags_in(path, front) {
            Ok(ts) => {
                assert(forall|k: int| 0 <= k < n ==> tag_of(path, front[k]) is Ok);
                match tag_of(path, values[n]) {
                    Ok(t) => {
                        assert(forall|k: int|
                            0 <= k < n ==> tag_of(path, values[k]) == Ok::<
                                (Seq<char>, Seq<Seq<char>>),
                                WorkflowErrorView,
                            >(ts.push(t)[k]));
                    },
                    Err(e) => {
                        assert(tag_of(path, values[n]) == Err::<
                            (Seq<char>, Seq<Seq<char>>),
                            WorkflowErrorView,
                        >(e));
                    },
                }
            },
            Err(e) => {
                let k = choose|k: int|
                    0 <= k < front.len() && #[trigger] tag_of(path, front[k]) == Err::<
                        (Seq<char>, Seq<Seq<char>>),
                        WorkflowErrorView,
                    >(e) && forall|j: int| 0 <= j < k ==> #[trigger] tag_of(path, front[j]) is Ok;
                assert(tag_of(path, values[k]) == Err::<
                    (Seq<char>, Seq<Seq<char>>),
                    WorkflowErrorView,
                >(e));
                assert(forall|j: int| 0 <= j < k ==> tag_of(path, values[j]) is Ok);
            },
        }
    }
}

// ---------------------------------------------------------------------------
// Preparing an article
// ---------------------------------------------------------------------------

/// An article ready to be published.
#[derive(Debug)]
pub struct PreparedArticle {
    pub slug: String,
    pub path: String,
    pub title: String,
    pub tags: Vec<QiitaTag>,
    pub qiita_id: Option<String>,
    pub body: String,
    pub images: Vec<ResolvedImageReference>,
}

pub struct PreparedArticleView {
    pub slug: Seq<char>,
    pub path: Seq<char>,
    pub title: Seq<char>,
    pub tags: Seq<(Seq<char>, Seq<Seq<char>>)>,
    pub qiita_id: Option<Seq<char>>,
    pub body: Seq<char>,
    pub images: Seq<(ImageReferenceKind, Seq<char>, Seq<char>)>,
}

impl View for PreparedArticle {
    type V = PreparedArticleView;

    open spec fn view(&self) -> PreparedArticleView {
        PreparedArticleView {
            slug: self.slug@,
            path: self.path@,
            title: self.title@,
            tags: tags_view(self.tags@),
            qiita_id: opt_text(self.qiita_id),
            body: self.body@,
            images: resolved_view(self.images@),
        }
    }
}

/// `Path::join` on Unix: an absolute `part` takes the place of `base`.
pub open spec fn join_path(base: Seq<char>, part: Seq<char>) -> Seq<char> {
    if part.len() > 0 && part[0] == '/' {
        part
    } else {
        push_path(base, part)
    }
}

/// `<root>/articles/<slug>/article.md`.
pub open spec fn article_path_of(root: Seq<char>, slug: Seq<char>) -> Seq<char> {
    join_path(join_path(join_path(root, "articles"@), slug), "article.md"@)
}

fn join_path_exec(base: &str, part: &str) -> (r: String)
    ensures
        r@ == join_path(base@, part@),
{
    let b = chars_of(base);
    let p = chars_of(part);
    if p.len() > 0 && p[0] == '/' {
        return part.to_owned();
    }
    let mut r = base.to_owned();
    if !(b.len() == 0 || b[b.len() - 1] == '/') {
        r.append("/");
        proof {
            reveal_strlit("/");
        }
    }
    r.append(part);
    r
}

/// The path of the article of a slug below `root`.
pub fn article_path(root: &str, slug: &str) -> (r: String)
    ensures
        r@ == article_path_of(root@, slug@),
{
    let articles = join_path_exec(root, "articles");
    let dir = join_path_exec(articles.as_str(), slug);
    join_path_exec(dir.as_str(), "article.md")
}

/// The article as published, once its frontmatter parsed: the images of the
/// body resolved, then the title, the tags and the `qiita_id`.
pub open spec fn prepared_from(
    slug: Seq<char>,
    path: Seq<char>,
    body: Seq<char>,
    fm: crate::domain::frontmatter::Frontmatter,
    files: Seq<(Seq<char>, crate::markdown::FileKind)>,
) -> Result<PreparedArticleView, WorkflowErrorView> {
    match resolution(path, body, files) {
        Err(errors) => Err(WorkflowErrorView::ImageValidation(join_with(image_messages(errors), "\n"@))),
        Ok(images) => match required_text(path, "title"@, opt_text(fm.title)) {
            Err(e) => Err(e),
            Ok(title) => match tags_of(
                path,
                match fm.tags {
                    Some(vs) => Some(vs@),
                    None => None,
                },
            ) {
                Err(e) => Err(e),
                Ok(tags) => match qiita_id_of(path, fm.qiita_id) {
                    Err(e) => Err(e),
                    Ok(id) => Ok(
                        PreparedArticleView {
                            slug,
                            path,
                            title,
                            tags,
                            qiita_id: id,
                            body,
                            images,
                        },
                    ),
                },
            },
        },
    }
}

/// What preparing the article of `slug` below `root` gives: the article must
/// pass its check, then its body is cut out of its text and read.
pub open spec fn prepared_of(root: Seq<char>, slug: Seq<char>, source: Result<ArticleSource, String>) -> Result<
    PreparedArticleView,
    WorkflowErrorView,
> {
    let path = article_path_of(root, slug);
    match source {
        Err(io) => Err(WorkflowErrorView::Validation(path + ": failed to read article: "@ + io@)),
        Ok(s) => match article_validation(path, s.content@, s.frontmatter, s.files@) {
            Err(m) => Err(WorkflowErrorView::Validation(m)),
            Ok(_) => match split_positions(s.content@) {
                Err(false) => Err(
                    WorkflowErrorView::Validation(
                        path + ": missing frontmatter opening delimiter `---`"@,
                    ),
                ),
                Err(true) => Err(
                    WorkflowErrorView::Validation(
                        path + ": missing frontmatter closing delimiter `---`"@,
                    ),
                ),
                Ok((a, b, c)) => match s.frontmatter {
                    Err(m) => Err(
                        WorkflowErrorView::Validation(
                            path + ": "@ + parse_error_message(yaml_error_of(m@)),
                        ),
                    ),
                    Ok(fm) => prepared_from(
                        slug,
                        path,
                        s.content@.subrange(c, s.content@.len() as int),
                        fm,
                        s.files@,
                    ),
                },
            },
        },
    }
}

fn clone_text(o: &Option<String>) -> (r: Option<String>)
    ensures
        opt_text(r) == opt_text(*o),
{
    match o {
        Some(s) => Some(s.clone()),
        None => None,
    }
}

/// Prepares the article of `slug` below `root` from what was read of it.
pub fn prepare_article(root: &str, slug: &str, source: &Result<ArticleSource, String>) -> (r: Result<
    PreparedArticle,
    WorkflowError,
>)
    ensures
        match prepared_of(root@, slug@, *source) {
            Ok(a) => r matches Ok(x) && x@ == a,
            Err(e) => r matches Err(x) && x@ == e,
        },
{
    let path = article_path(root, slug);
    let s = match source {
        Ok(s) => s,
        Err(io) => {
            let mut m = path.clone();
            m.append(": failed to read article: ");
            m.append(io.as_str());
            return Err(WorkflowError::Validation(m));
        },
    };
    match validate_article(path.as_str(), source) {
        Err(m) => return Err(WorkflowError::Validation(m)),
        Ok(()) => {},
    }
    let body = match split_frontmatter(path.as_str(), s.content.as_str()) {
        Ok((_, body)) => body,
        Err(m) => return Err(WorkflowError::Validation(m)),
    };
    let fm = match &s.frontmatter {
        Ok(fm) => fm,
        Err(m) => return Err(
            WorkflowError::Validation(frontmatter_yaml_error_message(path.as_str(), m.as_str())),
        ),
    };
    let images = match resolve_image_references(path.as_str(), body.as_str(), &s.files) {
        Ok(images) => images,
        Err(errors) => return Err(WorkflowError::ImageValidation(joined_image_messages(&errors))),
    };
    let title = required_string(path.as_str(), "title", clone_text(&fm.title))?;
    let tags = qiita_tags(path.as_str(), &fm.tags)?;
    let qiita_id = qiita_id(path.as_str(), &fm.qiita_id)?;
    Ok(
        PreparedArticle {
            slug: slug.to_owned(),
            path,
            title,
            tags,
            qiita_id,
            body,
            images,
        },
    )
}

// ---------------------------------------------------------------------------
// The report of a dry run
// ---------------------------------------------------------------------------

pub open spec fn image_path_of(i: (ImageReferenceKind, Seq<char>, Seq<char>)) -> Seq<char> {
    i.2
}

/// The line of a report for a prepared article.
pub open spec fn target_of(a: PreparedArticleView) -> (Seq<char>, PublishActionView, Seq<Seq<char>>) {
    (a.slug, action_of(a.qiita_id), a.images.map_values(|i: (ImageReferenceKind, Seq<char>, Seq<char>)| image_path_of(i)))
}

/// The targets of a dry run over the changed articles, in order, or the error
/// of the first article that does not prepare.
pub open spec fn report_of(root: Seq<char>, articles: Seq<(ChangedArticle, Result<ArticleSource, String>)>) -> Result<
    Seq<(Seq<char>, PublishActionView, Seq<Seq<char>>)>,
    WorkflowErrorView,
>
    decreases articles.len(),
{
    if articles.len() == 0 {
        Ok(seq![])
    } else {
        match report_of(root, articles.drop_last()) {
            Err(e) => Err(e),
            Ok(ts) => match prepared_of(root, articles.last().0.slug@, articles.last().1) {
                Err(e) => Err(e),
                Ok(a) => Ok(ts.push(target_of(a))),
            },
        }
    }
}

proof fn lemma_report_error_stays(
    root: Seq<char>,
    articles: Seq<(ChangedArticle, Result<ArticleSource, String>)>,
    k: int,
)
    requires
        0 <= k <= articles.len(),
        report_of(root, articles.take(k)) is Err,
    ensures
        report_of(root, articles) == report_of(root, articles.take(k)),
    decreases articles.len() - k,
{
    if k == articles.len() {
        assert(articles.take(k) =~= articles);
    } else {
        assert(articles.take(k + 1).drop_last() =~= articles.take(k));
        lemma_report_error_stays(root, articles, k + 1);
    }
}

/// Prepares each changed article, with what was read of it, and reports what
/// would be published, without calling Qiita.
pub fn dry_run_report(root: &str, articles: &Vec<(ChangedArticle, Result<ArticleSource, String>)>) -> (r:
    Result<PublishReport, WorkflowError>)
    ensures
        match report_of(root@, articles@) {
            Ok(ts) => r matches Ok(rep) && targets_view(rep.targets@) == ts,
            Err(e) => r matches Err(x) && x@ == e,
        },
{
    let mut targets: Vec<PublishTarget> = Vec::new();
    let mut i: usize = 0;
    assert(articles@.take(0) =~= Seq::<(ChangedArticle, Result<ArticleSource, String>)>::empty());
    assert(targets_view(targets@) =~= Seq::<(Seq<char>, PublishActionView, Seq<Seq<char>>)>::empty());
    while i < articles.len()
        invariant
            i <= articles.len(),
            report_of(root@, articles@.take(i as int)) == Ok::<
                Seq<(Seq<char>, PublishActionView, Seq<Seq<char>>)>,
                WorkflowErrorView,
            >(targets_view(targets@)),
        decreases articles.len() - i,
    {
        proof {
            assert(articles@.take(i + 1).drop_last() =~= articles@.take(i as int));
            assert(articles@.take(i + 1).last() == articles@[i as int]);
        }
        let article = match prepare_article(root, articles[i].0.slug.as_str(), &articles[i].1) {
            Ok(a) => a,
            Err(e) => {
                proof {
                    assert(report_of(root@, articles@.take(i + 1)) == Err::<
                        Seq<(Seq<char>, PublishActionView, Seq<Seq<char>>)>,
                        WorkflowErrorView,
                    >(e@));
                    lemma_report_error_stays(root@, articles@, i + 1);
                }
                return Err(e);
            },
        };
        let target = target_for(article);
        let ghost before = targets_view(targets@);
        targets.push(target);
        assert(targets_view(targets@) =~= before.push(target@));
        i = i + 1;
    }
    assert(articles@.take(articles.len() as int) =~= articles@);
    Ok(PublishReport { targets })
}

fn target_for(article: PreparedArticle) -> (r: PublishTarget)
    ensures
        r@ == target_of(article@),
{
    let action = match &article.qiita_id {
        Some(id) => publish_action(Some(id.as_str())),
        None => publish_action(None),
    };
    let mut upload_targets: Vec<String> = Vec::new();
    let mut i: usize = 0;
    while i < article.images.len()
        invariant
            i <= article.images.len(),
            strings_view(upload_targets@) =~= resolved_view(article.images@).map_values(
                |x: (ImageReferenceKind, Seq<char>, Seq<char>)| image_path_of(x),
            ).take(i as int),
        decreases article.images.len() - i,
    {
        let ghost before = strings_view(upload_targets@);
        upload_targets.push(article.images[i].image_path.clone());
        assert(strings_view(upload_targets@) =~= before.push(article.images@[i as int].image_path@));
        i = i + 1;
    }
    PublishTarget { slug: article.slug, action, upload_targets }
}

/// The lines a dry run prints for its report.
pub open spec fn target_lines(t: (Seq<char>, PublishActionView, Seq<Seq<char>>)) -> Seq<Seq<char>> {
    seq![
        match t.1 {
            PublishActionView::Create => "publish target: "@ + t.0 + " create"@,
            PublishActionView::Update(id) => "publish target: "@ + t.0 + " update "@ + id,
        },
    ] + t.2.map_values(|p: Seq<char>| upload_line(p))
}

pub open spec fn upload_line(p: Seq<char>) -> Seq<char> {
    "upload target: "@ + p
}

pub open spec fn all_target_lines(ts: Seq<(Seq<char>, PublishActionView, Seq<Seq<char>>)>) -> Seq<
    Seq<char>,
>
    decreases ts.len(),
{
    if ts.len() == 0 {
        seq![]
    } else {
        all_target_lines(ts.drop_last()) + target_lines(ts.last())
    }
}

/// What a dry run prints: a line saying that nothing changed, or, for each
/// target, its action and the images it would upload, and a last line saying
/// that Qiita was not called.
pub open spec fn report_lines_of(ts: Seq<(Seq<char>, PublishActionView, Seq<Seq<char>>)>) -> Seq<
    Seq<char>,
> {
    if ts.len() == 0 {
        seq!["No changed articles to publish."@]
    } else {
        all_target_lines(ts) + seq!["dry-run: skipped Qiita API calls"@]
    }
}

/// The lines that a dry run prints for `report`.
pub fn report_lines(report: &PublishReport) -> (r: Vec<String>)
    ensures
        strings_view(r@) == report_lines_of(targets_view(report.targets@)),
{
    let ghost ts = targets_view(report.targets@);
    let mut lines: Vec<String> = Vec::new();
    if report.targets.len() == 0 {
        lines.push("No changed articles to publish.".to_owned());
        assert(strings_view(lines@) =~= seq!["No changed articles to publish."@]);
        return lines;
    }
    let mut i: usize = 0;
    assert(ts.take(0) =~= Seq::<(Seq<char>, PublishActionView, Seq<Seq<char>>)>::empty());
    assert(strings_view(lines@) =~= Seq::<Seq<char>>::empty());
    while i < report.targets.len()
        invariant
            i <= report.targets.len(),
            ts == targets_view(report.targets@),
            strings_view(lines@) == all_target_lines(ts.take(i as int)),
        decreases report.targets.len() - i,
    {
        proof {
            assert(ts.take(i + 1).drop_last() =~= ts.take(i as int));
            assert(ts.take(i + 1).last() == report.targets@[i as int]@);
        }
        let target = &report.targets[i];
        let ghost before = strings_view(lines@);
        let mut first = "publish target: ".to_owned();
        first.append(target.slug.as_str());
        match &target.action {
            PublishAction::Create => first.append(" create"),
            PublishAction::Update { qiita_id } => {
                first.append(" update ");
                first.append(qiita_id.as_str());
            },
        }
        lines.push(first);
        let ghost head = strings_view(lines@);
        let mut k: usize = 0;
        while k < target.upload_targets.len()
            invariant
                k <= target.upload_targets.len(),
                strings_view(lines@) =~= head + strings_view(target.upload_targets@).map_values(
                    |p: Seq<char>| upload_line(p),
                ).take(k as int),
            decreases target.upload_targets.len() - k,
        {
            let ghost mid = strings_view(lines@);
            let mut line = "upload target: ".to_owned();
            line.append(target.upload_targets[k].as_str());
            lines.push(line);
            assert(strings_view(lines@) =~= mid.push(upload_line(target.upload_targets@[k as int]@)));
            k = k + 1;
        }
        proof {
            let t = report.targets@[i as int]@;
            assert(strings_view(target.upload_targets@).map_values(|p: Seq<char>| upload_line(p)).take(
                target.upload_targets.len() as int,
            ) =~= strings_view(target.upload_targets@).map_values(|p: Seq<char>| upload_line(p)));
            assert(strings_view(lines@) =~= before + target_lines(t));
        }
        i = i + 1;
    }
    let ghost body = strings_view(lines@);
    lines.push("dry-run: skipped Qiita API calls".to_owned());
    assert(ts.take(report.targets.len() as int) =~= ts);
    assert(strings_view(lines@) =~= body.push("dry-run: skipped Qiita API calls"@));
    lines
}

// ---------------------------------------------------------------------------
// Publishing a prepared article
// ---------------------------------------------------------------------------

/// The next thing to do to publish an article.
#[derive(Debug)]
pub enum PublishStep {
    /// Upload the image at this path and hand back what Qiita answered.
    UploadImage { image_path: String },
    /// Create an item with this request, then write its id into the article.
    CreateItem { request: QiitaArticleRequest },
    /// Update the item `qiita_id` with this request.
    UpdateItem { qiita_id: String, request: QiitaArticleRequest },
}

pub enum PublishStepView {
    UploadImage(Seq<char>),
    CreateItem(QiitaArticleRequestView),
    UpdateItem(Seq<char>, QiitaArticleRequestView),
}

impl View for PublishStep {
    type V = PublishStepView;

    open spec fn view(&self) -> PublishStepView {
        match self {
            PublishStep::UploadImage { image_path } => PublishStepView::UploadImage(image_path@),
            PublishStep::CreateItem { request } => PublishStepView::CreateItem(request@),
            PublishStep::UpdateItem { qiita_id, request } => PublishStepView::UpdateItem(
                qiita_id@,
                request@,
            ),
        }
    }
}

pub open spec fn urls_view(v: Seq<UploadedImage>) -> Seq<Seq<char>> {
    v.map_values(|u: UploadedImage| u.url@)
}

/// Each image source paired with the URL its upload gave.
pub open spec fn uploaded_replacements(
    images: Seq<(ImageReferenceKind, Seq<char>, Seq<char>)>,
    urls: Seq<Seq<char>>,
) -> Seq<(Seq<char>, Seq<char>)> {
    Seq::new(images.len(), |k: int| (images[k].1, urls[k]))
}

/// The next step of publishing `a`, once the first `urls.len()` images were
/// uploaded to these URLs: upload the next image; or, when all are, build the
/// request, with the sources of the body replaced by their URLs, and create
/// an item or update the one the article names.
pub open spec fn step_of(a: PreparedArticleView, urls: Seq<Seq<char>>, organization: Option<Seq<char>>) -> Result<
    PublishStepView,
    WorkflowErrorView,
> {
    if urls.len() < a.images.len() {
        Ok(PublishStepView::UploadImage(a.images[urls.len() as int].2))
    } else {
        let body = replaced_markdown(a.body, uploaded_replacements(a.images, urls));
        match article_request_error(a.title, body, a.tags) {
            Some(m) => Err(WorkflowErrorView::Qiita(QiitaErrorView::InvalidArticle(m))),
            None => {
                let request = QiitaArticleRequestView {
                    title: a.title,
                    body,
                    tags: a.tags,
                    private: false,
                    organization_url_name: organization_of(organization),
                    tweet: false,
                };
                match a.qiita_id {
                    None => Ok(PublishStepView::CreateItem(request)),
                    Some(id) => Ok(PublishStepView::UpdateItem(id, request)),
                }
            },
        }
    }
}

fn copy_strings(v: &Vec<String>) -> (r: Vec<String>)
    ensures
        strings_view(r@) == strings_view(v@),
{
    let mut r: Vec<String> = Vec::new();
    let mut i: usize = 0;
    while i < v.len()
        invariant
            i <= v.len(),
            strings_view(r@) =~= strings_view(v@).take(i as int),
        decreases v.len() - i,
    {
        let ghost before = strings_view(r@);
        r.push(v[i].clone());
        assert(strings_view(r@) =~= before.push(v@[i as int]@));
        i = i + 1;
    }
    assert(strings_view(v@).take(v.len() as int) =~= strings_view(v@));
    r
}

fn copy_tags(v: &Vec<QiitaTag>) -> (r: Vec<QiitaTag>)
    ensures
        tags_view(r@) == tags_view(v@),
{
    let mut r: Vec<QiitaTag> = Vec::new();
    let mut i: usize = 0;
    while i < v.len()
        invariant
            i <= v.len(),
            tags_view(r@) =~= tags_view(v@).take(i as int),
        decreases v.len() - i,
    {
        let ghost before = tags_view(r@);
        let t = QiitaTag::with_versions(v[i].name.as_str(), copy_strings(&v[i].versions));
        r.push(t);
        assert(tags_view(r@) =~= before.push(v@[i as int]@));
        i = i + 1;
    }
    assert(tags_view(v@).take(v.len() as int) =~= tags_view(v@));
    r
}

/// Decides the next step of publishing `article`, given the images uploaded
/// so far, in order, and the organization named in the settings.
pub fn next_publish_step(
    article: &PreparedArticle,
    uploaded: &Vec<UploadedImage>,
    organization_url_name: Option<String>,
) -> (r: Result<PublishStep, WorkflowError>)
    ensures
        match step_of(article@, urls_view(uploaded@), opt_text(organization_url_name)) {
            Ok(step) => r matches Ok(x) && x@ == step,
            Err(e) => r matches Err(x) && x@ == e,
        },
{
    let n = article.images.len();
    if uploaded.len() < n {
        return Ok(
            PublishStep::UploadImage { image_path: article.images[uploaded.len()].image_path.clone() },
        );
    }
    let ghost images = resolved_view(article.images@);
    let ghost urls = urls_view(uploaded@);
    let mut replacements: Vec<(String, String)> = Vec::new();
    let mut i: usize = 0;
    while i < n
        invariant
            n == article.images.len(),
            n <= uploaded.len(),
            i <= n,
            images == resolved_view(article.images@),
            urls == urls_view(uploaded@),
            pairs_view(replacements@) =~= uploaded_replacements(images, urls).take(i as int),
        decreases n - i,
    {
        let ghost before = pairs_view(replacements@);
        replacements.push((article.images[i].source.clone(), uploaded[i].url.clone()));
        assert(pairs_view(replacements@) =~= before.push((images[i as int].1, urls[i as int])));
        i = i + 1;
    }
    assert(uploaded_replacements(images, urls).take(n as int) =~= uploaded_replacements(images, urls));
    let body = replace_image_sources(article.body.as_str(), replacements.as_slice());
    let request = match QiitaArticleRequest::new(
        article.title.as_str(),
        body.as_str(),
        copy_tags(&article.tags),
        false,
    ) {
        Ok(q) => q,
        Err(e) => return Err(WorkflowError::Qiita(e)),
    };
    let request = request.with_organization_url_name(organization_url_name);
    match &article.qiita_id {
        None => Ok(PublishStep::CreateItem { request }),
        Some(id) => Ok(PublishStep::UpdateItem { qiita_id: id.clone(), request }),
    }
}

/// What a dry run lists for upload is what publishing uploads, in the same
/// order: while images remain, the next step of publishing uploads the next
/// path of the article's report line.
pub proof fn law_dry_run_lists_the_uploads_of_publishing(
    a: PreparedArticleView,
    urls: Seq<Seq<char>>,
    organization: Option<Seq<char>>,
)
    requires
        urls.len() < a.images.len(),
    ensures
        step_of(a, urls, organization) == Ok::<PublishStepView, WorkflowErrorView>(
            PublishStepView::UploadImage(target_of(a).2[urls.len() as int]),
        ),
        target_of(a).2.len() == a.images.len(),
{
}

/// Once every image is uploaded, publishing creates an item exactly when the
/// dry run reports a creation, and otherwise updates the item that the
/// report names.
pub proof fn law_publishing_follows_the_reported_action(
    a: PreparedArticleView,
    urls: Seq<Seq<char>>,
    organization: Option<Seq<char>>,
)
    requires
        urls.len() >= a.images.len(),
        step_of(a, urls, organization) is Ok,
    ensures
        target_of(a).1 == PublishActionView::Create <==> step_of(a, urls, organization)->Ok_0 is CreateItem,
        forall|id: Seq<char>|
            target_of(a).1 == PublishActionView::Update(id) <==> (step_of(a, urls, organization)->Ok_0 matches PublishStepView::UpdateItem(x, _) && x == id),
{
}

} // verus!
