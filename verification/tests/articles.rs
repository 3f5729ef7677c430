use gitita::application::check::{
    check_article, validate_articles as check_all, ArticleRepository, ArticleText,
};
use gitita::domain::frontmatter::{
    frontmatter_from_yaml_result, frontmatter_yaml, validate_frontmatter, Frontmatter,
    FrontmatterParseError, FrontmatterViolation, YamlValue,
};
use gitita::markdown::{image_probe_paths, FileKind, FileSnapshot};
use gitita::{split_frontmatter, validate_article, validate_articles, ArticleSource};

fn text(s: &str) -> YamlValue {
    YamlValue::String(s.to_owned())
}

fn frontmatter(title: Option<&str>, author: Option<&str>, qiita_id: Option<YamlValue>) -> Frontmatter {
    Frontmatter {
        title: title.map(|t| t.to_owned()),
        tags: Some(vec![text("rust")]),
        author: author.map(|a| a.to_owned()),
        qiita_id,
        published: None,
    }
}

/// What the file system tells of the probe paths of an article whose images
/// all exist: the image files are files, the directories above them are
/// directories.
fn snapshot_with_images(path: &str, content: &str) -> FileSnapshot {
    let mut files = FileSnapshot::new();
    let mut probes = image_probe_paths(path, content);
    if let Ok((_, body)) = split_frontmatter(path, content) {
        probes.extend(image_probe_paths(path, &body));
    }
    for probe in probes {
        let is_image = [".png", ".jpg", ".jpeg", ".gif", ".webp", ".tiff", ".avif"]
            .iter()
            .any(|extension| probe.ends_with(extension));
        let kind = if is_image { FileKind::File } else { FileKind::Other };
        files.record(&probe, kind);
    }
    files
}

fn source(path: &str, content: &str, parsed: Result<Frontmatter, String>) -> ArticleSource {
    ArticleSource {
        content: content.to_owned(),
        frontmatter: parsed,
        files: snapshot_with_images(path, content),
    }
}

const VALID: &str = "---\ntitle: \"Valid Article\"\ntags:\n  - rust\nauthor: \"codex\"\nqiita_id: null\n---\n\n# Valid Article\n";

#[test]
fn splits_frontmatter_and_body_without_rewriting_markdown() {
    let path = "articles/example/article.md";
    let content = "---\ntitle: Example\ntags: []\nauthor: codex\nqiita_id: null\n---\n# Body\n";

    let (frontmatter, body) = split_frontmatter(path, content).expect("frontmatter should split");

    assert!(frontmatter.contains("title: Example"));
    assert_eq!(body, "# Body\n");
}

#[test]
fn split_reports_missing_delimiters_with_the_path() {
    let opening = split_frontmatter("a.md", "title: x\n---\n").expect_err("no opening line");
    assert_eq!(opening, "a.md: missing frontmatter opening delimiter `---`");

    let closing = split_frontmatter("a.md", "---\ntitle: x\n").expect_err("no closing line");
    assert_eq!(closing, "a.md: missing frontmatter closing delimiter `---`");
}

#[test]
fn split_keeps_crlf_body() {
    let (yaml, body) =
        split_frontmatter("a.md", "---\r\ntitle: x\r\n---\r\nbody\r\n").expect("should split");
    assert_eq!(yaml, "title: x\r");
    assert_eq!(body, "body\r\n");
}

#[test]
fn validates_fixture_articles_with_valid_frontmatter() {
    let path = "tests/fixtures/frontmatter-valid/articles/valid-article/article.md";
    let parsed = frontmatter(Some("Valid Article"), Some("codex"), Some(YamlValue::Null));
    let articles = vec![(path.to_owned(), Ok(source(path, VALID, Ok(parsed))))];

    validate_articles(&articles).expect("valid fixture articles should pass");
}

#[test]
fn rejects_fixture_articles_with_invalid_frontmatter() {
    let root = "tests/fixtures/frontmatter-invalid/articles";
    let missing_title = format!("{root}/missing-title/article.md");
    let empty_author = format!("{root}/empty-author/article.md");
    let string_tags = format!("{root}/string-tags/article.md");
    let bad_qiita_id = format!("{root}/empty-qiita-id/article.md");
    let published = format!("{root}/published/article.md");

    let mut with_published = frontmatter(Some("Published"), Some("codex"), Some(YamlValue::Null));
    with_published.published = Some(YamlValue::Bool(true));

    let articles = vec![
        (
            missing_title.clone(),
            Ok(source(
                &missing_title,
                "---\ntags:\n  - rust\nauthor: codex\nqiita_id: null\n---\n",
                Ok(frontmatter(None, Some("codex"), Some(YamlValue::Null))),
            )),
        ),
        (
            empty_author.clone(),
            Ok(source(
                &empty_author,
                "---\ntitle: Empty author\ntags:\n  - rust\nauthor: \"\"\nqiita_id: null\n---\n",
                Ok(frontmatter(Some("Empty author"), Some(""), Some(YamlValue::Null))),
            )),
        ),
        (
            string_tags.clone(),
            Ok(source(
                &string_tags,
                "---\ntitle: String tags\ntags: rust\nauthor: codex\nqiita_id: null\n---\n",
                Err("tags: invalid type: string \"rust\", expected a sequence at line 2 column 7"
                    .to_owned()),
            )),
        ),
        (
            bad_qiita_id.clone(),
            Ok(source(
                &bad_qiita_id,
                "---\ntitle: Empty id\ntags:\n  - rust\nauthor: codex\nqiita_id: \"\"\n---\n",
                Ok(frontmatter(Some("Empty id"), Some("codex"), Some(text("")))),
            )),
        ),
        (
            published.clone(),
            Ok(source(
                &published,
                "---\ntitle: Published\ntags:\n  - rust\nauthor: codex\nqiita_id: null\npublished: true\n---\n",
                Ok(with_published),
            )),
        ),
    ];

    let message = validate_articles(&articles).expect_err("invalid fixture articles should fail");

    assert!(message.contains("missing required frontmatter field `title`"));
    assert!(message.contains("frontmatter field `author` must not be empty"));
    assert!(message.contains("frontmatter field `tags` must be an array"));
    assert!(message.contains("frontmatter field `qiita_id` must be null or a non-empty value"));
    assert!(message.contains("unsupported frontmatter field `published`"));
    assert_eq!(message.lines().count(), 5);
}

#[test]
fn unreadable_article_names_its_path() {
    let error = validate_article("articles/a/article.md", &Err("permission denied".to_owned()))
        .expect_err("a failed read should be reported");

    assert_eq!(
        error,
        "articles/a/article.md: failed to read article: permission denied"
    );
}

#[test]
fn invalid_yaml_message_keeps_the_parser_text() {
    let path = "articles/a/article.md";
    let error = validate_article(
        path,
        &Ok(source(path, "---\ntitle: [\n---\n", Err("did not find expected node".to_owned()))),
    )
    .expect_err("broken yaml should fail");

    assert_eq!(
        error,
        "articles/a/article.md: failed to parse frontmatter yaml: did not find expected node"
    );
}

#[test]
fn missing_image_is_reported_by_the_check() {
    let path = "articles/a/article.md";
    let content = "---\ntitle: t\ntags: []\nauthor: a\nqiita_id: null\n---\n![x](./images/missing.png)\n";
    let parsed = frontmatter(Some("t"), Some("a"), Some(YamlValue::Null));
    let source = ArticleSource {
        content: content.to_owned(),
        frontmatter: Ok(parsed),
        files: FileSnapshot::new(),
    };

    let error = validate_article(path, &Ok(source)).expect_err("a missing image should fail");

    assert_eq!(
        error,
        "articles/a/article.md: image path `./images/missing.png` does not exist at `articles/a/images/missing.png`"
    );
}

#[test]
fn rejects_missing_opening_delimiter() {
    let error = frontmatter_yaml("title: missing\n---").expect_err("frontmatter should fail");

    assert_eq!(error, FrontmatterParseError::MissingOpeningDelimiter);
}

#[test]
fn rejects_missing_closing_delimiter() {
    let error = frontmatter_yaml("---\ntitle: missing").expect_err("frontmatter should fail");

    assert_eq!(error, FrontmatterParseError::MissingClosingDelimiter);
}

#[test]
fn frontmatter_yaml_joins_the_lines_between_delimiters() {
    let yaml = frontmatter_yaml(VALID).expect("frontmatter should be found");

    assert_eq!(
        yaml,
        "title: \"Valid Article\"\ntags:\n  - rust\nauthor: \"codex\"\nqiita_id: null"
    );
}

#[test]
fn yaml_errors_about_string_tags_ask_for_an_array() {
    let error = frontmatter_from_yaml_result(Err(
        "tags: invalid type: string \"rust\", expected a sequence".to_owned(),
    ))
    .expect_err("should stay an error");

    assert_eq!(error, FrontmatterParseError::TagsMustBeArray);
    assert_eq!(error.message(), "frontmatter field `tags` must be an array");
}

#[test]
fn reports_domain_violations_without_io() {
    let parsed = Frontmatter {
        title: None,
        tags: Some(vec![text("rust")]),
        author: Some(String::new()),
        qiita_id: Some(text("")),
        published: Some(YamlValue::Bool(true)),
    };

    assert_eq!(
        validate_frontmatter(&parsed),
        vec![
            FrontmatterViolation::MissingRequiredField("title"),
            FrontmatterViolation::EmptyRequiredField("author"),
            FrontmatterViolation::UnsupportedPublishedField,
            FrontmatterViolation::InvalidQiitaId,
        ]
    );
}

#[test]
fn valid_frontmatter_has_no_violations() {
    let parsed = frontmatter(Some("Valid Article"), Some("codex"), Some(YamlValue::Null));

    assert!(validate_frontmatter(&parsed).is_empty());
}

#[test]
fn validates_articles_without_filesystem_io() {
    let found = Ok(vec![ArticleText {
        path: "articles/example/article.md".to_owned(),
        content: Ok(VALID.to_owned()),
        frontmatter: Ok(frontmatter(Some("Valid Article"), Some("codex"), Some(YamlValue::Null))),
    }]);

    check_all(&found).expect("article should be valid");
}

#[test]
fn includes_article_path_in_validation_errors() {
    let found = Ok(vec![ArticleText {
        path: "articles/example/article.md".to_owned(),
        content: Ok("---\ntags:\n  - rust\nauthor: \"codex\"\nqiita_id: null\n---\n".to_owned()),
        frontmatter: Ok(frontmatter(None, Some("codex"), Some(YamlValue::Null))),
    }]);

    let error = check_all(&found).expect_err("article should be invalid");

    assert_eq!(
        error,
        "articles/example/article.md: missing required frontmatter field `title`"
    );
}

#[test]
fn domain_check_lists_every_violation_of_an_article() {
    let article = ArticleText {
        path: "a.md".to_owned(),
        content: Ok("---\ntags:\n  - rust\nauthor: \"\"\nqiita_id: null\n---\n".to_owned()),
        frontmatter: Ok(frontmatter(None, Some(""), Some(YamlValue::Null))),
    };

    assert_eq!(
        check_article(&article),
        Err("a.md: missing required frontmatter field `title`\na.md: frontmatter field `author` must not be empty".to_owned())
    );
}

#[test]
fn domain_check_reports_read_and_discovery_failures_as_they_are() {
    let unreadable = ArticleText {
        path: "a.md".to_owned(),
        content: Err("a.md: failed to read article".to_owned()),
        frontmatter: Err(String::new()),
    };
    assert_eq!(
        check_article(&unreadable),
        Err("a.md: failed to read article".to_owned())
    );

    let found: Result<Vec<ArticleText>, String> =
        Err("articles path exists but is not a directory".to_owned());
    assert_eq!(
        check_all(&found),
        Err("articles path exists but is not a directory".to_owned())
    );
}

#[test]
fn frontmatter_that_passes_the_check_breaks_no_domain_rule() {
    let parsed = frontmatter(Some("Title"), Some("codex"), Some(text("abc")));

    gitita::validate_frontmatter_fields("a.md", &parsed).expect("fields should pass");
    assert!(validate_frontmatter(&parsed).is_empty());

    let numeric_id = frontmatter(Some("Title"), Some("codex"), Some(YamlValue::Number("5".to_owned())));
    assert_eq!(
        gitita::validate_frontmatter_fields("a.md", &numeric_id),
        Err("a.md: frontmatter field `qiita_id` must be null or a non-empty value".to_owned())
    );
    assert!(validate_frontmatter(&numeric_id).is_empty());
}

struct MemoryArticleRepository {
    articles: Vec<(String, String)>,
}

impl ArticleRepository for MemoryArticleRepository {
    fn discover_article_paths(&self, _root: &str) -> Result<Vec<String>, String> {
        Ok(self.articles.iter().map(|(path, _)| path.clone()).collect())
    }

    fn read_article(&self, path: &str) -> Result<String, String> {
        self.articles
            .iter()
            .find(|(p, _)| p == path)
            .map(|(_, content)| content.clone())
            .ok_or_else(|| format!("{path}: failed to read article"))
    }
}

#[test]
fn repository_articles_are_checked() {
    let repository = MemoryArticleRepository {
        articles: vec![("articles/example/article.md".to_owned(), VALID.to_owned())],
    };
    let found = repository.discover_article_paths(".").map(|paths| {
        paths
            .iter()
            .map(|path| ArticleText {
                path: path.clone(),
                content: repository.read_article(path),
                frontmatter: Ok(frontmatter(Some("Valid Article"), Some("codex"), Some(YamlValue::Null))),
            })
            .collect()
    });

    assert_eq!(check_all(&found), Ok(()));
    assert_eq!(
        repository.read_article("missing.md"),
        Err("missing.md: failed to read article".to_owned())
    );
}
