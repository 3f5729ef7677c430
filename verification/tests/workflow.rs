use gitita::diff::ChangedArticle;
use gitita::domain::frontmatter::{Frontmatter, YamlValue};
use gitita::markdown::{image_probe_paths, FileKind, FileSnapshot};
use gitita::qiita::{QiitaError, UploadedImage};
use gitita::workflow::id_rewrite::replace_qiita_id_in_frontmatter;
use gitita::workflow::{
    article_path, dry_run_report, next_publish_step, prepare_article, publish_action, qiita_id,
    qiita_tag, qiita_tags, report_lines, required_string, PublishAction, PublishOptions,
    PublishReport, PublishStep, PublishTarget, WorkflowError,
};
use gitita::{split_frontmatter, ArticleSource};

fn text(s: &str) -> YamlValue {
    YamlValue::String(s.to_owned())
}

fn frontmatter(title: &str, qiita_id: YamlValue) -> Frontmatter {
    Frontmatter {
        title: Some(title.to_owned()),
        tags: Some(vec![text("rust")]),
        author: Some("codex".to_owned()),
        qiita_id: Some(qiita_id),
        published: None,
    }
}

/// What was read of an article whose images all exist.
fn read_article(path: &str, content: &str, parsed: Frontmatter) -> ArticleSource {
    let mut files = FileSnapshot::new();
    let mut probes = image_probe_paths(path, content);
    if let Ok((_, body)) = split_frontmatter(path, content) {
        probes.extend(image_probe_paths(path, &body));
    }
    for probe in probes {
        let kind = if probe.ends_with(".png") || probe.ends_with(".webp") {
            FileKind::File
        } else {
            FileKind::Other
        };
        files.record(&probe, kind);
    }
    ArticleSource {
        content: content.to_owned(),
        frontmatter: Ok(parsed),
        files,
    }
}

const IMAGES_ARTICLE: &str = "---\ntitle: Markdown images\ntags:\n  - rust\nauthor: codex\nqiita_id: null\n---\n![alt](./images/example.png)\n<img src=\"./images/example.webp\" width=\"500\">\n";

#[test]
fn dry_run_reports_publish_targets_without_api_client() {
    let root = "tests/fixtures/markdown-valid";
    let path = article_path(root, "markdown-images");
    let articles = vec![(
        ChangedArticle {
            slug: "markdown-images".to_owned(),
            is_new: true,
        },
        Ok(read_article(&path, IMAGES_ARTICLE, frontmatter("Markdown images", YamlValue::Null))),
    )];

    let report = dry_run_report(root, &articles).expect("dry-run should prepare report");

    assert_eq!(report.targets.len(), 1);
    assert_eq!(report.targets[0].slug, "markdown-images");
    assert_eq!(report.targets[0].action, PublishAction::Create);
    assert_eq!(report.targets[0].upload_targets.len(), 2);
}

#[test]
fn selects_create_or_update_from_qiita_id() {
    assert_eq!(publish_action(None), PublishAction::Create);
    assert_eq!(
        publish_action(Some("abc123")),
        PublishAction::Update {
            qiita_id: "abc123".to_owned()
        }
    );
}

#[test]
fn prepares_article_with_create_action_when_qiita_id_is_null() {
    let root = "tests/fixtures/frontmatter-valid";
    let path = article_path(root, "valid-article");
    let content = "---\ntitle: \"Valid Article\"\ntags:\n  - rust\nauthor: \"codex\"\nqiita_id: null\n---\n\n# Valid Article\n";
    let source = Ok(read_article(&path, content, frontmatter("Valid Article", YamlValue::Null)));

    let article = prepare_article(root, "valid-article", &source).expect("valid article should prepare");

    assert!(article.qiita_id.is_none());
    assert_eq!(publish_action(article.qiita_id.as_deref()), PublishAction::Create);
    assert_eq!(article.path, "tests/fixtures/frontmatter-valid/articles/valid-article/article.md");
    assert_eq!(article.body, "\n# Valid Article\n");
    assert_eq!(article.title, "Valid Article");
}

#[test]
fn prepares_article_with_update_action_when_qiita_id_exists() {
    let root = "tests/fixtures/publish-update";
    let path = article_path(root, "published-article");
    let content = "---\ntitle: Published\ntags:\n  - rust\nauthor: codex\nqiita_id: abc123\n---\n# Published\n";
    let source = Ok(read_article(&path, content, frontmatter("Published", text("abc123"))));

    let article =
        prepare_article(root, "published-article", &source).expect("published article should prepare");

    assert_eq!(
        publish_action(article.qiita_id.as_deref()),
        PublishAction::Update {
            qiita_id: "abc123".to_owned()
        }
    );
}

#[test]
fn replaces_only_qiita_id_in_frontmatter() {
    let content = "---\ntitle: Example\ntags: []\nauthor: codex\nqiita_id: null\n---\n# Body\n![img](./images/example.png)\n";

    let updated =
        replace_qiita_id_in_frontmatter("articles/example/article.md", content, "abc123")
            .expect("qiita_id should update");

    assert!(updated.contains("qiita_id: \"abc123\""));
    assert!(updated.contains("# Body\n![img](./images/example.png)\n"));
}

#[test]
fn qiita_id_rewrite_keeps_every_other_line() {
    let content = "---\r\ntitle: Example\r\n  qiita_id: null\r\n---\r\nqiita_id: in the body\r\n";

    let updated = replace_qiita_id_in_frontmatter("a.md", content, "x\"y").expect("should update");

    assert_eq!(
        updated,
        "---\r\ntitle: Example\r\n  qiita_id: \"x\\\"y\"\r\n---\r\nqiita_id: in the body\r\n"
    );
}

#[test]
fn qiita_id_rewrite_twice_is_rewrite_once() {
    let content = "---\ntitle: Example\nqiita_id: null\n---\nbody\n";

    let once = replace_qiita_id_in_frontmatter("a.md", content, "abc").expect("first write");
    let twice = replace_qiita_id_in_frontmatter("a.md", &once, "abc").expect("second write");

    assert_eq!(once, twice);
}

#[test]
fn qiita_id_rewrite_needs_a_frontmatter_line() {
    let no_frontmatter = replace_qiita_id_in_frontmatter("a.md", "qiita_id: null\n", "abc")
        .expect_err("no frontmatter");
    assert_eq!(
        no_frontmatter.message(),
        "a.md: missing required frontmatter field `qiita_id`"
    );

    let no_line = replace_qiita_id_in_frontmatter("a.md", "---\ntitle: t\n---\n", "abc")
        .expect_err("no qiita_id line");
    assert_eq!(
        no_line,
        WorkflowError::InvalidFrontmatter {
            path: "a.md".to_owned(),
            message: "missing required frontmatter field `qiita_id`".to_owned()
        }
    );
}

#[test]
fn publishing_uploads_each_image_then_creates_the_item() {
    let root = "articles-root";
    let path = article_path(root, "images");
    let source = Ok(read_article(&path, IMAGES_ARTICLE, frontmatter("Markdown images", YamlValue::Null)));
    let article = prepare_article(root, "images", &source).expect("should prepare");

    let mut uploaded = Vec::new();
    let first = next_publish_step(&article, &uploaded, None).expect("first step");
    match first {
        PublishStep::UploadImage { image_path } => {
            assert_eq!(image_path, "articles-root/articles/images/images/example.png")
        }
        other => panic!("unexpected step {other:?}"),
    }
    uploaded.push(UploadedImage {
        url: "https://img.example/1.png".to_owned(),
    });
    match next_publish_step(&article, &uploaded, None).expect("second step") {
        PublishStep::UploadImage { image_path } => {
            assert_eq!(image_path, "articles-root/articles/images/images/example.webp")
        }
        other => panic!("unexpected step {other:?}"),
    }
    uploaded.push(UploadedImage {
        url: "https://img.example/2.webp".to_owned(),
    });
    match next_publish_step(&article, &uploaded, Some("org".to_owned())).expect("third step") {
        PublishStep::CreateItem { request } => {
            assert_eq!(request.title, "Markdown images");
            assert_eq!(
                request.body,
                "![alt](https://img.example/1.png)\n<img src=\"https://img.example/2.webp\" width=\"500\">\n"
            );
            assert_eq!(request.tags[0].name, "rust");
            assert!(!request.private);
            assert_eq!(request.organization_url_name, Some("org".to_owned()));
        }
        other => panic!("unexpected step {other:?}"),
    }
}

#[test]
fn publishing_an_article_with_a_qiita_id_updates_it() {
    let root = ".";
    let path = article_path(root, "published");
    let content = "---\ntitle: Published\ntags:\n  - rust\nauthor: codex\nqiita_id: abc123\n---\n# Body\n";
    let source = Ok(read_article(&path, content, frontmatter("Published", text("abc123"))));
    let article = prepare_article(root, "published", &source).expect("should prepare");

    match next_publish_step(&article, &Vec::new(), None).expect("step") {
        PublishStep::UpdateItem { qiita_id, request } => {
            assert_eq!(qiita_id, "abc123");
            assert_eq!(request.body, "# Body\n");
        }
        other => panic!("unexpected step {other:?}"),
    }
}

#[test]
fn publishing_refuses_a_blank_body() {
    let root = ".";
    let path = article_path(root, "empty");
    let content = "---\ntitle: Empty\ntags:\n  - rust\nauthor: codex\nqiita_id: null\n---\n\n";
    let source = Ok(read_article(&path, content, frontmatter("Empty", YamlValue::Null)));
    let article = prepare_article(root, "empty", &source).expect("should prepare");

    let error = next_publish_step(&article, &Vec::new(), None).expect_err("blank body");

    assert_eq!(
        error,
        WorkflowError::Qiita(QiitaError::InvalidArticle("body must not be empty"))
    );
    assert_eq!(
        error.message(),
        "invalid Qiita article request: body must not be empty"
    );
}

#[test]
fn dry_run_stops_at_the_first_article_that_does_not_prepare() {
    let root = ".";
    let good = article_path(root, "good");
    let articles = vec![
        (
            ChangedArticle {
                slug: "good".to_owned(),
                is_new: false,
            },
            Ok(read_article(&good, IMAGES_ARTICLE, frontmatter("Good", YamlValue::Null))),
        ),
        (
            ChangedArticle {
                slug: "gone".to_owned(),
                is_new: false,
            },
            Err("No such file or directory (os error 2)".to_owned()),
        ),
    ];

    let error = dry_run_report(root, &articles).expect_err("the second article is unreadable");

    assert_eq!(
        error,
        WorkflowError::Validation(
            "./articles/gone/article.md: failed to read article: No such file or directory (os error 2)"
                .to_owned()
        )
    );
}

#[test]
fn report_lines_list_targets_and_uploads() {
    let report = PublishReport {
        targets: vec![
            PublishTarget {
                slug: "a".to_owned(),
                action: PublishAction::Create,
                upload_targets: vec!["articles/a/images/x.png".to_owned()],
            },
            PublishTarget {
                slug: "b".to_owned(),
                action: PublishAction::Update {
                    qiita_id: "id1".to_owned(),
                },
                upload_targets: Vec::new(),
            },
        ],
    };

    assert_eq!(
        report_lines(&report),
        vec![
            "publish target: a create",
            "upload target: articles/a/images/x.png",
            "publish target: b update id1",
            "dry-run: skipped Qiita API calls",
        ]
    );
    assert_eq!(
        report_lines(&PublishReport { targets: Vec::new() }),
        vec!["No changed articles to publish."]
    );
}

#[test]
fn publish_options_default_to_the_last_commit() {
    let options = PublishOptions::from_settings(true, None, None);
    assert!(options.dry_run);
    assert_eq!(options.diff_base, "HEAD^");
    assert_eq!(options.diff_head, "HEAD");

    let given = PublishOptions::from_settings(false, Some("main".to_owned()), Some("topic".to_owned()));
    assert_eq!(given.diff_base, "main");
    assert_eq!(given.diff_head, "topic");
}

#[test]
fn article_path_joins_root_slug_and_file() {
    assert_eq!(article_path(".", "a"), "./articles/a/article.md");
    assert_eq!(article_path("root/", "a"), "root/articles/a/article.md");
    assert_eq!(article_path("", "a"), "articles/a/article.md");
}

#[test]
fn tags_are_strings_or_named_mappings() {
    let mapping = YamlValue::Mapping(vec![
        (text("name"), text("Rust")),
        (
            text("versions"),
            YamlValue::Sequence(vec![text("1.80"), YamlValue::Number("2".to_owned()), text("1.81")]),
        ),
    ]);
    let tag = qiita_tag("a.md", &mapping).expect("mapping tag");
    assert_eq!(tag.name, "Rust");
    assert_eq!(tag.versions, vec!["1.80".to_owned(), "1.81".to_owned()]);

    let tagged_name = YamlValue::Mapping(vec![(
        text("name"),
        YamlValue::Tagged {
            tag: "!lang".to_owned(),
            value: Box::new(text("Go")),
        },
    )]);
    assert_eq!(qiita_tag("a.md", &tagged_name).expect("tagged name").name, "Go");

    let nameless = YamlValue::Mapping(vec![(text("versions"), YamlValue::Sequence(Vec::new()))]);
    assert_eq!(
        qiita_tag("a.md", &nameless).expect_err("no name").message(),
        "a.md: tag mapping must include a non-empty `name`"
    );

    assert_eq!(
        qiita_tag("a.md", &text(" ")).expect_err("blank").message(),
        "a.md: tags must be strings or mappings with `name`"
    );

    let tags = qiita_tags("a.md", &Some(vec![text("rust"), YamlValue::Null]));
    assert_eq!(
        tags.expect_err("null tag").message(),
        "a.md: tags must be strings or mappings with `name`"
    );
    assert_eq!(
        qiita_tags("a.md", &None).expect_err("no tags").message(),
        "a.md: missing required frontmatter field `tags`"
    );
}

#[test]
fn qiita_id_and_title_of_the_frontmatter() {
    assert_eq!(qiita_id("a.md", &Some(YamlValue::Null)), Ok(None));
    assert_eq!(qiita_id("a.md", &Some(text("x1"))), Ok(Some("x1".to_owned())));
    assert_eq!(
        qiita_id("a.md", &Some(YamlValue::Number("12".to_owned()))).expect_err("number").message(),
        "a.md: frontmatter field `qiita_id` must be null or a non-empty string"
    );
    assert_eq!(
        qiita_id("a.md", &None).expect_err("missing").message(),
        "a.md: missing required frontmatter field `qiita_id`"
    );

    assert_eq!(
        required_string("a.md", "title", Some("T".to_owned())),
        Ok("T".to_owned())
    );
    assert_eq!(
        required_string("a.md", "title", None).expect_err("missing").message(),
        "a.md: frontmatter field `title` must not be empty"
    );
}

#[test]
fn workflow_error_messages() {
    let io = WorkflowError::Io {
        path: "a.md".to_owned(),
        message: "denied".to_owned(),
    };
    assert_eq!(io.message(), "a.md: denied");
    assert_eq!(
        WorkflowError::ImageValidation("x".to_owned()).message(),
        "x"
    );
    assert_eq!(
        WorkflowError::Diff(gitita::diff::DiffError::GitFailed("boom".to_owned())).message(),
        "git diff failed: boom"
    );
    assert_eq!(
        WorkflowError::from(QiitaError::MissingToken),
        WorkflowError::Qiita(QiitaError::MissingToken)
    );
}

#[test]
fn dry_run_lists_what_publishing_uploads() {
    let root = "repo";
    let path = article_path(root, "images");
    let source = Ok(read_article(&path, IMAGES_ARTICLE, frontmatter("Markdown images", YamlValue::Null)));
    let report = dry_run_report(
        root,
        &vec![(
            ChangedArticle {
                slug: "images".to_owned(),
                is_new: false,
            },
            Ok(read_article(&path, IMAGES_ARTICLE, frontmatter("Markdown images", YamlValue::Null))),
        )],
    )
    .expect("report");
    let article = prepare_article(root, "images", &source).expect("prepare");

    let mut uploaded = Vec::new();
    let mut uploads = Vec::new();
    while let PublishStep::UploadImage { image_path } =
        next_publish_step(&article, &uploaded, None).expect("step")
    {
        uploads.push(image_path);
        uploaded.push(UploadedImage {
            url: format!("https://img.example/{}", uploaded.len()),
        });
    }

    assert_eq!(uploads, report.targets[0].upload_targets);
    assert!(matches!(
        next_publish_step(&article, &uploaded, None).expect("last step"),
        PublishStep::CreateItem { .. }
    ));
}
