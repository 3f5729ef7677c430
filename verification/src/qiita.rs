//! What is sent to Qiita and what comes back: the client configuration, the
//! article request and its rules, item ids, error messages of the API, and the
//! content type of an uploaded image.
use crate::text::{
    char_vecs_view, chars_of, is_ascii_alphanumeric, is_blank, is_blank_str,
    is_skipped_segment, split_chars, split_from, string_from_chars, strings_view, trim,
    trim_chars,
};
use core::time::Duration;
use vstd::prelude::*;

verus! {

/// The whole seconds of a duration, as `Duration::as_secs` gives them.
pub uninterp spec fn duration_secs_of(d: Duration) -> u64;

/// The nanoseconds of a duration beyond its whole seconds, as
/// `Duration::subsec_nanos` gives them.
pub uninterp spec fn duration_subsec_nanos_of(d: Duration) -> u32;

/// The seconds and the further nanoseconds of a duration.
pub open spec fn duration_parts(d: Duration) -> (u64, u32) {
    (duration_secs_of(d), duration_subsec_nanos_of(d))
}

/// `Duration::from_secs`: a duration of `secs` whole seconds, with no
/// further nanoseconds, as its documentation states.
pub assume_specification[ core::time::Duration::from_secs ](secs: u64) -> (r: core::time::Duration)
    ensures
        duration_secs_of(r) == secs,
        duration_subsec_nanos_of(r) == 0,
;

/// The configuration of the Qiita client: the access token, the API base URL,
/// the URL that upload policies are asked from, and the request timeout.
pub struct QiitaConfig {
    token: String,
    api_base_url: String,
    upload_policies_url: String,
    timeout: Duration,
}

pub struct QiitaConfigView {
    pub token: Seq<char>,
    pub api_base_url: Seq<char>,
    pub upload_policies_url: Seq<char>,
    /// The seconds and further nanoseconds of the request timeout.
    pub timeout: (u64, u32),
}

impl Clone for QiitaConfig {
    fn clone(&self) -> (r: Self)
        ensures
            r@ == self@,
            r.spec_timeout() == self.spec_timeout(),
    {
        QiitaConfig {
            token: self.token.clone(),
            api_base_url: self.api_base_url.clone(),
            upload_policies_url: self.upload_policies_url.clone(),
            timeout: self.timeout,
        }
    }
}

impl View for QiitaConfig {
    type V = QiitaConfigView;

    closed spec fn view(&self) -> QiitaConfigView {
        QiitaConfigView {
            token: self.token@,
            api_base_url: self.api_base_url@,
            upload_policies_url: self.upload_policies_url@,
            timeout: duration_parts(self.timeout),
        }
    }
}

/// The errors of the Qiita client. Errors that come from the HTTP client or
/// the file system carry their message.
#[derive(Debug, PartialEq, Eq)]
pub enum QiitaError {
    MissingToken,
    MissingBaseUrl,
    MissingUploadPoliciesUrl,
    InvalidArticle(&'static str),
    InvalidItemId(String),
    InvalidImagePath(String),
    ReadImage { path: String, message: String },
    HttpClient(String),
    Request(String),
    ResponseJson(String),
    ResponseMissingField(&'static str),
    Api { status: String, message: String },
}

pub enum QiitaErrorView {
    MissingToken,
    MissingBaseUrl,
    MissingUploadPoliciesUrl,
    InvalidArticle(Seq<char>),
    InvalidItemId(Seq<char>),
    InvalidImagePath(Seq<char>),
    ReadImage(Seq<char>, Seq<char>),
    HttpClient(Seq<char>),
    Request(Seq<char>),
    ResponseJson(Seq<char>),
    ResponseMissingField(Seq<char>),
    Api(Seq<char>, Seq<char>),
}

impl View for QiitaError {
    type V = QiitaErrorView;

    open spec fn view(&self) -> QiitaErrorView {
        match self {
            QiitaError::MissingToken => QiitaErrorView::MissingToken,
            QiitaError::MissingBaseUrl => QiitaErrorView::MissingBaseUrl,
            QiitaError::MissingUploadPoliciesUrl => QiitaErrorView::MissingUploadPoliciesUrl,
            QiitaError::InvalidArticle(m) => QiitaErrorView::InvalidArticle(m@),
            QiitaError::InvalidItemId(i) => QiitaErrorView::InvalidItemId(i@),
            QiitaError::InvalidImagePath(p) => QiitaErrorView::InvalidImagePath(p@),
            QiitaError::ReadImage { path, message } => QiitaErrorView::ReadImage(path@, message@),
            QiitaError::HttpClient(m) => QiitaErrorView::HttpClient(m@),
            QiitaError::Request(m) => QiitaErrorView::Request(m@),
            QiitaError::ResponseJson(m) => QiitaErrorView::ResponseJson(m@),
            QiitaError::ResponseMissingField(f) => QiitaErrorView::ResponseMissingField(f@),
            QiitaError::Api { status, message } => QiitaErrorView::Api(status@, message@),
        }
    }
}

pub open spec fn qiita_error_message(e: QiitaErrorView) -> Seq<char> {
    match e {
        QiitaErrorView::MissingToken => "QIITA_TOKEN environment variable is required"@,
        QiitaErrorView::MissingBaseUrl => "API_BASE_URL environment variable is required"@,
        QiitaErrorView::MissingUploadPoliciesUrl =>
            "UPLOAD_POLICIES_URL environment variable is required"@,
        QiitaErrorView::InvalidArticle(m) => "invalid Qiita article request: "@ + m,
        QiitaErrorView::InvalidItemId(i) => "invalid Qiita item id: `"@ + i + "`"@,
        QiitaErrorView::InvalidImagePath(p) => "invalid image path: `"@ + p + "`"@,
        QiitaErrorView::ReadImage(p, m) => "failed to read image `"@ + p + "`: "@ + m,
        QiitaErrorView::HttpClient(m) => "failed to build Qiita HTTP client: "@ + m,
        QiitaErrorView::Request(m) => "Qiita API request failed: "@ + m,
        QiitaErrorView::ResponseJson(m) => "failed to parse Qiita API response: "@ + m,
        QiitaErrorView::ResponseMissingField(f) => "Qiita API response missing required field `"@
            + f + "`"@,
        QiitaErrorView::Api(s, m) => "Qiita API returned "@ + s + ": "@ + m,
    }
}

impl QiitaError {
    /// The message that describes the error.
    pub fn message(&self) -> (r: String)
        ensures
            r@ == qiita_error_message(self@),
    {
        let mut m = String::new();
        match self {
            QiitaError::MissingToken => m.append("QIITA_TOKEN environment variable is required"),
            QiitaError::MissingBaseUrl => m.append("API_BASE_URL environment variable is required"),
            QiitaError::MissingUploadPoliciesUrl => m.append(
                "UPLOAD_POLICIES_URL environment variable is required",
            ),
            QiitaError::InvalidArticle(message) => {
                m.append("invalid Qiita article request: ");
                m.append(message);
            },
            QiitaError::InvalidItemId(item_id) => {
                m.append("invalid Qiita item id: `");
                m.append(item_id.as_str());
                m.append("`");
            },
            QiitaError::InvalidImagePath(path) => {
                m.append("invalid image path: `");
                m.append(path.as_str());
                m.append("`");
            },
            QiitaError::ReadImage { path, message } => {
                m.append("failed to read image `");
                m.append(path.as_str());
                m.append("`: ");
                m.append(message.as_str());
            },
            QiitaError::HttpClient(message) => {
                m.append("failed to build Qiita HTTP client: ");
                m.append(message.as_str());
            },
            QiitaError::Request(message) => {
                m.append("Qiita API request failed: ");
                m.append(message.as_str());
            },
            QiitaError::ResponseJson(message) => {
                m.append("failed to parse Qiita API response: ");
                m.append(message.as_str());
            },
            QiitaError::ResponseMissingField(field) => {
                m.append("Qiita API response missing required field `");
                m.append(field);
                m.append("`");
            },
            QiitaError::Api { status, message } => {
                m.append("Qiita API returned ");
                m.append(status.as_str());
                m.append(": ");
                m.append(message.as_str());
            },
        }
        m
    }
}

/// The text of `s` without the `/` characters at its end.
pub open spec fn without_trailing_slashes(s: Seq<char>) -> Seq<char>
    decreases s.len(),
{
    if s.len() > 0 && s[s.len() - 1] == '/' {
        without_trailing_slashes(s.drop_last())
    } else {
        s
    }
}

/// What `QiitaConfig::new` checks: the token, the base URL and the upload
/// policies URL, in that order, must not be blank.
pub open spec fn config_error(token: Seq<char>, api: Seq<char>, upload: Seq<char>) -> Option<
    QiitaErrorView,
> {
    if is_blank(token) {
        Some(QiitaErrorView::MissingToken)
    } else if is_blank(api) {
        Some(QiitaErrorView::MissingBaseUrl)
    } else if is_blank(upload) {
        Some(QiitaErrorView::MissingUploadPoliciesUrl)
    } else {
        None
    }
}

/// The `Debug` form of a string: quoted and escaped as `{:?}` writes it.
pub uninterp spec fn str_debug_of(s: Seq<char>) -> Seq<char>;

/// Formats `s` with `{:?}` (`<str as Debug>::fmt`). The contract claims only
/// that the result is a function of the text.
#[verifier::external_body]
fn str_debug(s: &str) -> (r: String)
    ensures
        r@ == str_debug_of(s@),
{
    format!("{:?}", s)
}

/// The `Debug` form of a duration, such as `30s`.
pub uninterp spec fn duration_debug_of(d: Duration) -> Seq<char>;

/// Formats a duration with `{:?}` (`<Duration as Debug>::fmt`), such as
/// `30s`. The contract claims only that the text is a function of the
/// duration.
#[verifier::external_body]
fn duration_debug(d: Duration) -> (r: String)
    ensures
        r@ == duration_debug_of(d),
{
    format!("{:?}", d)
}

/// The `Debug` form of a configuration whose timeout reads `timeout`: the
/// token is written as `***`.
pub open spec fn config_debug_form(c: QiitaConfigView, timeout: Seq<char>) -> Seq<char> {
    "QiitaConfig { token: "@ + str_debug_of("***"@) + ", api_base_url: "@ + str_debug_of(
        c.api_base_url,
    ) + ", upload_policies_url: "@ + str_debug_of(c.upload_policies_url) + ", timeout: "@
        + timeout + " }"@
}

impl QiitaConfig {
    /// A configuration with the default timeout of 30 seconds; none of the
    /// three texts may be blank.
    pub fn new(token: &str, api_base_url: &str, upload_policies_url: &str) -> (r: Result<
        Self,
        QiitaError,
    >)
        ensures
            match config_error(token@, api_base_url@, upload_policies_url@) {
                Some(e) => r matches Err(x) && x@ == e,
                None => r matches Ok(c) && c@ == (QiitaConfigView {
                    token: token@,
                    api_base_url: api_base_url@,
                    upload_policies_url: upload_policies_url@,
                    timeout: (30, 0),
                }),
            },
    {
        if is_blank_str(token) {
            return Err(QiitaError::MissingToken);
        }
        if is_blank_str(api_base_url) {
            return Err(QiitaError::MissingBaseUrl);
        }
        if is_blank_str(upload_policies_url) {
            return Err(QiitaError::MissingUploadPoliciesUrl);
        }
        Ok(
            QiitaConfig {
                token: token.to_owned(),
                api_base_url: api_base_url.to_owned(),
                upload_policies_url: upload_policies_url.to_owned(),
                timeout: Duration::from_secs(30),
            },
        )
    }

    /// The same configuration with another API base URL, its trailing `/`
    /// characters removed.
    pub fn with_api_base_url(self, api_base_url: &str) -> (r: Self)
        ensures
            r@ == (QiitaConfigView {
                api_base_url: without_trailing_slashes(api_base_url@),
                ..self@
            }),
            r.timeout() == self.timeout(),
    {
        let s = chars_of(api_base_url);
        let mut e = s.len();
        proof {
            assert(s@.subrange(0, s@.len() as int) =~= s@);
        }
        while e > 0 && s[e - 1] == '/'
            invariant
                e <= s.len(),
                without_trailing_slashes(s@) == without_trailing_slashes(s@.subrange(0, e as int)),
            decreases e,
        {
            proof {
                assert(s@.subrange(0, e as int).drop_last() =~= s@.subrange(0, e - 1));
            }
            e = e - 1;
        }
        let trimmed = crate::text::string_from_range(&s, 0, e);
        QiitaConfig { api_base_url: trimmed, ..self }
    }

    /// The same configuration with another upload policies URL.
    pub fn with_upload_policies_url(self, upload_policies_url: &str) -> (r: Self)
        ensures
            r@ == (QiitaConfigView { upload_policies_url: upload_policies_url@, ..self@ }),
            r.timeout() == self.timeout(),
    {
        QiitaConfig { upload_policies_url: upload_policies_url.to_owned(), ..self }
    }

    /// The same configuration with another timeout.
    pub fn with_timeout(self, timeout: Duration) -> (r: Self)
        ensures
            r@ == (QiitaConfigView { timeout: duration_parts(timeout), ..self@ }),
            r.timeout() == timeout,
    {
        QiitaConfig { timeout, ..self }
    }

    pub closed spec fn spec_timeout(&self) -> Duration {
        self.timeout
    }

    /// The request timeout.
    #[verifier::when_used_as_spec(spec_timeout)]
    pub fn timeout(&self) -> (r: Duration)
        ensures
            r == self.spec_timeout(),
    {
        self.timeout
    }

    /// The URL that upload policies are asked from.
    pub fn upload_policies_url(&self) -> (r: String)
        ensures
            r@ == self@.upload_policies_url,
    {
        self.upload_policies_url.clone()
    }

    /// The URL of the item collection: `<base>/items`.
    pub fn items_url(&self) -> (r: String)
        ensures
            r@ == self@.api_base_url + "/items"@,
    {
        let mut r = self.api_base_url.clone();
        r.append("/items");
        r
    }

    /// The URL of one item: `<base>/items/<id>`.
    pub fn item_url(&self, item_id: &str) -> (r: String)
        ensures
            r@ == self@.api_base_url + "/items/"@ + item_id@,
    {
        let mut r = self.api_base_url.clone();
        r.append("/items/");
        r.append(item_id);
        r
    }

    /// The value of the `Authorization` header: `Bearer <token>`.
    pub fn authorization_header(&self) -> (r: String)
        ensures
            r@ == "Bearer "@ + self@.token,
    {
        let mut r = String::new();
        r.append("Bearer ");
        r.append(self.token.as_str());
        r
    }

    /// The `Debug` form of the configuration, in which the token is shown as
    /// `***` and never as itself.
    pub fn debug_string(&self) -> (r: String)
        ensures
            r@ == config_debug_form(self@, duration_debug_of(self.spec_timeout())),
    {
        let mut r = String::new();
        r.append("QiitaConfig { token: ");
        r.append(str_debug("***").as_str());
        r.append(", api_base_url: ");
        r.append(str_debug(self.api_base_url.as_str()).as_str());
        r.append(", upload_policies_url: ");
        r.append(str_debug(self.upload_policies_url.as_str()).as_str());
        r.append(", timeout: ");
        let t = duration_debug(self.timeout);
        r.append(t.as_str());
        r.append(" }");
        r
    }
}

/// A tag of an article, with the versions it names.
#[derive(Debug, Clone, PartialEq, Eq)]
pub struct QiitaTag {
    pub name: String,
    pub versions: Vec<String>,
}

impl View for QiitaTag {
    type V = (Seq<char>, Seq<Seq<char>>);

    open spec fn view(&self) -> (Seq<char>, Seq<Seq<char>>) {
        (self.name@, strings_view(self.versions@))
    }
}

pub open spec fn tags_view(v: Seq<QiitaTag>) -> Seq<(Seq<char>, Seq<Seq<char>>)> {
    v.map_values(|t: QiitaTag| t@)
}

impl QiitaTag {
    /// A tag without versions.
    pub fn new(name: &str) -> (r: Self)
        ensures
            r.name@ == name@,
            r.versions@.len() == 0,
    {
        QiitaTag { name: name.to_owned(), versions: Vec::new() }
    }

    /// A tag with versions.
    pub fn with_versions(name: &str, versions: Vec<String>) -> (r: Self)
        ensures
            r.name@ == name@,
            r.versions == versions,
    {
        QiitaTag { name: name.to_owned(), versions }
    }
}

/// The body of the item create and update requests.
#[derive(Debug, Clone, PartialEq, Eq)]
pub struct QiitaArticleRequest {
    pub title: String,
    pub body: String,
    pub tags: Vec<QiitaTag>,
    pub private: bool,
    pub organization_url_name: Option<String>,
    pub tweet: bool,
}

pub struct QiitaArticleRequestView {
    pub title: Seq<char>,
    pub body: Seq<char>,
    pub tags: Seq<(Seq<char>, Seq<Seq<char>>)>,
    pub private: bool,
    pub organization_url_name: Option<Seq<char>>,
    pub tweet: bool,
}

impl View for QiitaArticleRequest {
    type V = QiitaArticleRequestView;

    open spec fn view(&self) -> QiitaArticleRequestView {
        QiitaArticleRequestView {
            title: self.title@,
            body: self.body@,
            tags: tags_view(self.tags@),
            private: self.private,
            organization_url_name: match self.organization_url_name {
                Some(n) => Some(n@),
                None => None,
            },
            tweet: self.tweet,
        }
    }
}

/// The organization a request posts to: `name`, unless absent or blank.
pub open spec fn organization_of(name: Option<Seq<char>>) -> Option<Seq<char>> {
    match name {
        Some(n) => if is_blank(n) {
            None
        } else {
            Some(n)
        },
        None => None,
    }
}

/// The first rule that an article request breaks: the title and the body must
/// not be blank, there must be a tag, and no tag name may be blank.
pub open spec fn article_request_error(
    title: Seq<char>,
    body: Seq<char>,
    tags: Seq<(Seq<char>, Seq<Seq<char>>)>,
) -> Option<
    Seq<char>,
> {
    if is_blank(title) {
        Some("title must not be empty"@)
    } else if is_blank(body) {
        Some("body must not be empty"@)
    } else if tags.len() == 0 {
        Some("tags must not be empty"@)
    } else if exists|k: int| 0 <= k < tags.len() && is_blank(#[trigger] tags[k].0) {
        Some("tag names must not be empty"@)
    } else {
        None
    }
}

impl QiitaArticleRequest {
    /// A request that posts to no organization and does not tweet; it must
    /// follow the rules of `article_request_error`.
    pub fn new(title: &str, body: &str, tags: Vec<QiitaTag>, private: bool) -> (r: Result<
        Self,
        QiitaError,
    >)
        ensures
            match article_request_error(title@, body@, tags_view(tags@)) {
                Some(m) => r matches Err(e) && e@ == QiitaErrorView::InvalidArticle(m),
                None => r matches Ok(q) && q.title@ == title@ && q.body@ == body@ && q.tags == tags
                    && q.private == private && q.organization_url_name is None && !q.tweet,
            },
    {
        let request = QiitaArticleRequest {
            title: title.to_owned(),
            body: body.to_owned(),
            tags,
            private,
            organization_url_name: None,
            tweet: false,
        };
        request.validate()?;
        Ok(request)
    }

    /// The same request posted to the organization `name`, unless it is
    /// absent or blank.
    pub fn with_organization_url_name(self, name: Option<String>) -> (r: Self)
        ensures
            r.title == self.title && r.body == self.body && r.tags == self.tags && r.private
                == self.private && r.tweet == self.tweet,
            match name {
                Some(n) => if is_blank(n@) {
                    r.organization_url_name is None
                } else {
                    r.organization_url_name == Some(n)
                },
                None => r.organization_url_name is None,
            },
    {
        let kept = match name {
            Some(n) => if is_blank_str(n.as_str()) {
                None
            } else {
                Some(n)
            },
            None => None,
        };
        QiitaArticleRequest { organization_url_name: kept, ..self }
    }

    fn validate(&self) -> (r: Result<(), QiitaError>)
        ensures
            match article_request_error(self.title@, self.body@, tags_view(self.tags@)) {
                Some(m) => r matches Err(e) && e@ == QiitaErrorView::InvalidArticle(m),
                None => r is Ok,
            },
    {
        if is_blank_str(self.title.as_str()) {
            return Err(QiitaError::InvalidArticle("title must not be empty"));
        }
        if is_blank_str(self.body.as_str()) {
            return Err(QiitaError::InvalidArticle("body must not be empty"));
        }
        if self.tags.len() == 0 {
            return Err(QiitaError::InvalidArticle("tags must not be empty"));
        }
        let mut k: usize = 0;
        while k < self.tags.len()
            invariant
                k <= self.tags.len(),
                !is_blank(self.title@),
                !is_blank(self.body@),
                self.tags.len() > 0,
                forall|j: int| 0 <= j < k ==> !is_blank(#[trigger] tags_view(self.tags@)[j].0),
            decreases self.tags.len() - k,
        {
            if is_blank_str(self.tags[k].name.as_str()) {
                assert(is_blank(tags_view(self.tags@)[k as int].0));
                return Err(QiitaError::InvalidArticle("tag names must not be empty"));
            }
            k = k + 1;
        }
        Ok(())
    }
}

/// An item as Qiita returns it.
#[derive(Debug, Clone, PartialEq, Eq)]
pub struct QiitaItem {
    pub id: String,
    pub url: String,
}

/// An image uploaded to Qiita's storage.
#[derive(Debug, Clone, PartialEq, Eq)]
pub struct UploadedImage {
    pub url: String,
}

/// The URL of an image uploaded with a policy: `<upload_url>/<key>`.
pub fn uploaded_image(upload_url: &str, key: &str) -> (r: UploadedImage)
    ensures
        r.url@ == upload_url@ + "/"@ + key@,
{
    let mut url = String::new();
    url.append(upload_url);
    url.append("/");
    url.append(key);
    UploadedImage { url }
}

/// The signed form of an upload policy, as Qiita hands it out.
#[derive(Debug, Clone, PartialEq, Eq)]
pub struct UploadPolicyForm {
    pub key: String,
    pub acl: String,
    pub policy: String,
    pub content_type: String,
    pub x_amz_credential: String,
    pub x_amz_algorithm: String,
    pub x_amz_date: String,
    pub x_amz_signature: String,
}

impl UploadPolicyForm {
    /// The text fields of the multipart form sent to the storage, in the
    /// order they are sent; the file follows them.
    pub fn form_fields(&self) -> (r: Vec<(String, String)>)
        ensures
            crate::markdown::pairs_view(r@) == seq![
                ("key"@, self.key@),
                ("acl"@, self.acl@),
                ("Content-Type"@, self.content_type@),
                ("policy"@, self.policy@),
                ("x-amz-credential"@, self.x_amz_credential@),
                ("x-amz-algorithm"@, self.x_amz_algorithm@),
                ("x-amz-date"@, self.x_amz_date@),
                ("x-amz-signature"@, self.x_amz_signature@),
            ],
    {
        let mut r: Vec<(String, String)> = Vec::new();
        r.push(("key".to_owned(), self.key.clone()));
        r.push(("acl".to_owned(), self.acl.clone()));
        r.push(("Content-Type".to_owned(), self.content_type.clone()));
        r.push(("policy".to_owned(), self.policy.clone()));
        r.push(("x-amz-credential".to_owned(), self.x_amz_credential.clone()));
        r.push(("x-amz-algorithm".to_owned(), self.x_amz_algorithm.clone()));
        r.push(("x-amz-date".to_owned(), self.x_amz_date.clone()));
        r.push(("x-amz-signature".to_owned(), self.x_amz_signature.clone()));
        assert(crate::markdown::pairs_view(r@) =~= seq![
            ("key"@, self.key@),
            ("acl"@, self.acl@),
            ("Content-Type"@, self.content_type@),
            ("policy"@, self.policy@),
            ("x-amz-credential"@, self.x_amz_credential@),
            ("x-amz-algorithm"@, self.x_amz_algorithm@),
            ("x-amz-date"@, self.x_amz_date@),
            ("x-amz-signature"@, self.x_amz_signature@),
        ]);
        r
    }
}

/// The last segment of a path that `Path::components` keeps as a component:
/// neither empty nor `.`.
pub open spec fn last_kept_segment(segs: Seq<Seq<char>>) -> Option<Seq<char>>
    decreases segs.len(),
{
    if segs.len() == 0 {
        None
    } else if is_skipped_segment(segs.last()) {
        last_kept_segment(segs.drop_last())
    } else {
        Some(segs.last())
    }
}

/// `Path::file_name` of a Unix path: its last component, unless that is `..`
/// or the path has no named component (it is empty, `.` or the root).
pub open spec fn path_file_name_of(path: Seq<char>) -> Option<Seq<char>> {
    match last_kept_segment(split_from(path, 0, '/')) {
        Some(name) => if name == seq!['.', '.'] {
            None
        } else {
            Some(name)
        },
        None => None,
    }
}

fn path_file_name(path: &str) -> (r: Option<String>)
    ensures
        r is None <==> path_file_name_of(path@) is None,
        r matches Some(n) ==> path_file_name_of(path@) == Some(n@),
{
    let s = chars_of(path);
    let segs = split_chars(&s, '/');
    let ghost all = char_vecs_view(segs@);
    let mut k = segs.len();
    assert(all.take(k as int) =~= all);
    while k > 0 && (segs[k - 1].len() == 0 || (segs[k - 1].len() == 1 && segs[k - 1][0] == '.'))
        invariant
            k <= segs.len(),
            all == char_vecs_view(segs@),
            last_kept_segment(all) == last_kept_segment(all.take(k as int)),
        decreases k,
    {
        proof {
            assert(all.take(k as int).drop_last() =~= all.take(k - 1));
            assert(all.take(k as int).last() == segs@[k - 1]@);
            if segs@[k - 1]@.len() == 1 {
                assert(segs@[k - 1]@ =~= seq!['.']);
            }
        }
        k = k - 1;
    }
    if k == 0 {
        return None;
    }
    proof {
        assert(all.take(k as int).last() == segs@[k - 1]@);
        assert(!is_skipped_segment(segs@[k - 1]@));
    }
    let last = &segs[k - 1];
    if last.len() == 2 && last[0] == '.' && last[1] == '.' {
        assert(last@ =~= seq!['.', '.']);
        None
    } else {
        Some(string_from_chars(last))
    }
}

/// The name an image is uploaded under: the last component of its path.
pub fn upload_file_name(image_path: &str) -> (r: Result<String, QiitaError>)
    ensures
        match path_file_name_of(image_path@) {
            Some(n) => r matches Ok(x) && x@ == n,
            None => r matches Err(e) && e@ == QiitaErrorView::InvalidImagePath(image_path@),
        },
{
    match path_file_name(image_path) {
        Some(name) => Ok(name),
        None => Err(QiitaError::InvalidImagePath(image_path.to_owned())),
    }
}

/// The error body of the Qiita API, as far as it parsed.
#[derive(Debug, Clone, PartialEq, Eq)]
pub struct ErrorResponse {
    pub message: Option<String>,
    pub error_type: Option<String>,
}

/// The readable message of an API error: the `message` of the parsed body,
/// else its `type`, else the trimmed text, or `empty error response`.
pub open spec fn api_error_message(parsed: Option<ErrorResponse>, text: Seq<char>) -> Seq<char> {
    match parsed {
        Some(ErrorResponse { message: Some(m), .. }) => m@,
        Some(ErrorResponse { message: None, error_type: Some(t) }) => t@,
        _ => if is_blank(text) {
            "empty error response"@
        } else {
            trim(text)
        },
    }
}

/// `parse_error_message`, given what the JSON parser made of the error body
/// (`None` when it is no such object).
pub fn error_message_from(parsed: Option<ErrorResponse>, text: &str) -> (r: String)
    ensures
        r@ == api_error_message(parsed, text@),
{
    if let Some(response) = parsed {
        if let Some(message) = response.message {
            return message;
        }
        if let Some(error_type) = response.error_type {
            return error_type;
        }
    }
    if is_blank_str(text) {
        "empty error response".to_owned()
    } else {
        let t = chars_of(text);
        let trimmed = trim_chars(&t);
        crate::text::string_from_chars(&trimmed)
    }
}

/// The error for a response that is no success: its status and the readable
/// message of its body, given what the JSON parser made of the body.
pub fn api_error(status: &str, text: &str, parsed: Option<ErrorResponse>) -> (r: QiitaError)
    ensures
        r@ == QiitaErrorView::Api(status@, api_error_message(parsed, text@)),
{
    QiitaError::Api { status: status.to_owned(), message: error_message_from(parsed, text) }
}

/// An item id that is safe to put in a URL: not blank, and made of ASCII
/// letters, digits and `-` only.
pub open spec fn is_valid_item_id(id: Seq<char>) -> bool {
    !is_blank(id) && forall|k: int|
        0 <= k < id.len() ==> crate::text::spec_is_ascii_alphanumeric(#[trigger] id[k]) || id[k]
            == '-'
}

/// Checks an item id before it is put into the URL of an update.
pub fn validate_item_id(item_id: &str) -> (r: Result<(), QiitaError>)
    ensures
        is_valid_item_id(item_id@) ==> r is Ok,
        !is_valid_item_id(item_id@) ==> (r matches Err(e) && e@ == QiitaErrorView::InvalidItemId(
            item_id@,
        )),
{
    let s = chars_of(item_id);
    let mut ok = !is_blank_str(item_id);
    let mut k: usize = 0;
    while k < s.len()
        invariant
            k <= s.len(),
            s@ == item_id@,
            ok == (!is_blank(item_id@) && forall|j: int|
                0 <= j < k ==> crate::text::spec_is_ascii_alphanumeric(#[trigger] s@[j]) || s@[j]
                    == '-'),
        decreases s.len() - k,
    {
        let c = s[k];
        ok = ok && (is_ascii_alphanumeric(c) || c == '-');
        k = k + 1;
    }
    if ok {
        Ok(())
    } else {
        Err(QiitaError::InvalidItemId(item_id.to_owned()))
    }
}

/// The content type that `mime_guess` guesses from a path's extension, as the
/// text of a `Mime`.
pub uninterp spec fn guessed_content_type_of(path: Seq<char>) -> Seq<char>;

/// Calls `mime_guess::from_path(path).first_or_octet_stream()` and writes the
/// `Mime` as text: the first media type that the extension of `path` maps to
/// in mime_guess's table, or `application/octet-stream`. The contract claims
/// only that the result is a function of the path.
#[verifier::external_body]
fn guessed_content_type(path: &str) -> (r: String)
    ensures
        r@ == guessed_content_type_of(path@),
{
    mime_guess::from_path(path).first_or_octet_stream().to_string()
}

/// The content type an image is uploaded with, guessed from its extension.
pub fn content_type_for(image_path: &str) -> (r: String)
    ensures
        r@ == guessed_content_type_of(image_path@),
{
    guessed_content_type(image_path)
}

/// The base URL that `with_api_base_url` keeps ends with no `/`, so that the
/// item URLs built on it hold no `//` where the two meet.
pub proof fn law_api_base_url_has_no_trailing_slash(s: Seq<char>)
    ensures
        without_trailing_slashes(s).len() == 0 || without_trailing_slashes(s).last() != '/',
    decreases s.len(),
{
    if s.len() > 0 && s[s.len() - 1] == '/' {
        law_api_base_url_has_no_trailing_slash(s.drop_last());
    }
}

/// The `Debug` form of a configuration does not depend on its token: two
/// configurations that differ only in their tokens look the same.
pub proof fn law_debug_form_hides_token(c: QiitaConfigView, token: Seq<char>, timeout: Seq<char>)
    ensures
        config_debug_form(c, timeout) == config_debug_form(QiitaConfigView { token, ..c }, timeout),
{
}

} // verus!
