use gitita::diff::ChangedArticle;
use gitita::domain::frontmatter::{Frontmatter, YamlValue};
use gitita::interface::cli;
use gitita::markdown::{image_probe_paths, FileKind, FileSnapshot};
use gitita::workflow::{dry_run_report, report_lines};
use gitita::{
    command_from_matches, parse_command, split_frontmatter, validate_articles, ArticleSource,
    Command,
};

/// An article of a repository whose images all exist, as `check` reads it.
fn article(path: &str, content: &str, title: &str) -> (String, Result<ArticleSource, String>) {
    let mut files = FileSnapshot::new();
    let mut probes = image_probe_paths(path, content);
    if let Ok((_, body)) = split_frontmatter(path, content) {
        probes.extend(image_probe_paths(path, &body));
    }
    for probe in probes {
        let kind = if probe.ends_with(".png") || probe.ends_with(".webp") {
            FileKind::File
        } else {
            FileKind::Other
        };
        files.record(&probe, kind);
    }
    let frontmatter = Frontmatter {
        title: Some(title.to_owned()),
        tags: Some(vec![YamlValue::String("rust".to_owned())]),
        author: Some("codex".to_owned()),
        qiita_id: Some(YamlValue::Null),
        published: None,
    };
    (
        path.to_owned(),
        Ok(ArticleSource {
            content: content.to_owned(),
            frontmatter: Ok(frontmatter),
            files,
        }),
    )
}

#[test]
fn check_command_succeeds() {
    assert_eq!(parse_command(&["check"]), Ok(Command::Check));
    assert_eq!(validate_articles(&Vec::new()), Ok(()));
}

#[test]
fn check_command_accepts_valid_article_frontmatter() {
    assert_eq!(parse_command(&["check"]), Ok(Command::Check));
    let articles = vec![article(
        "tests/fixtures/frontmatter-valid/articles/valid-article/article.md",
        "---\ntitle: \"Valid Article\"\ntags:\n  - rust\nauthor: \"codex\"\nqiita_id: null\n---\n\n# Valid Article\n",
        "Valid Article",
    )];

    assert_eq!(validate_articles(&articles), Ok(()));
}

#[test]
fn check_command_accepts_valid_markdown_images() {
    assert_eq!(parse_command(&["check"]), Ok(Command::Check));
    let articles = vec![article(
        "tests/fixtures/markdown-valid/articles/markdown-images/article.md",
        "---\ntitle: Markdown images\ntags:\n  - rust\nauthor: codex\nqiita_id: null\n---\n![alt](./images/example.png)\n<img src=\"./images/example.webp\" width=\"500\">\n",
        "Markdown images",
    )];

    assert_eq!(validate_articles(&articles), Ok(()));
}

#[test]
fn publish_dry_run_command_succeeds() {
    assert_eq!(
        parse_command(&["publish", "--dry-run"]),
        Ok(Command::Publish {
            dry_run: true,
            preview: false
        })
    );
    let nothing_changed: Vec<(ChangedArticle, Result<ArticleSource, String>)> = Vec::new();
    let report = dry_run_report(".", &nothing_changed).expect("an empty change needs no token");

    assert_eq!(report_lines(&report), vec!["No changed articles to publish."]);
}

#[test]
fn lib_parses_check_command() {
    assert_eq!(parse_command(&["check"]), Ok(Command::Check));
}

#[test]
fn lib_parses_publish_dry_run_command() {
    assert_eq!(
        parse_command(&["publish", "--dry-run"]),
        Ok(Command::Publish {
            dry_run: true,
            preview: false
        })
    );
}

#[test]
fn lib_parses_publish_command_without_dry_run() {
    assert_eq!(
        parse_command(&["publish"]),
        Ok(Command::Publish {
            dry_run: false,
            preview: false
        })
    );
}

#[test]
fn lib_parses_publish_command_with_other_args_and_dry_run() {
    let error = parse_command(&["publish", "something", "--dry-run"])
        .expect_err("unexpected args should fail");
    assert!(error.message().contains("unexpected argument"));
}

#[test]
fn parses_publish_preview_command() {
    assert_eq!(
        parse_command(&["publish", "--preview"]),
        Ok(Command::Publish {
            dry_run: false,
            preview: true
        })
    );
}

#[test]
fn lib_unknown_command_returns_error() {
    let error = parse_command(&["unknown"]).expect_err("unknown command should fail");

    assert!(error.message().contains("unrecognized subcommand 'unknown'"));
}

#[test]
fn preview_and_dry_run_exclude_each_other() {
    let error = parse_command(&["publish", "--dry-run", "--preview"])
        .expect_err("the two flags together should fail");

    assert!(error.message().contains("cannot be used with"));
}

#[test]
fn missing_subcommand_is_an_error() {
    assert!(parse_command(&[]).is_err());
}

#[test]
fn command_from_matches_reads_the_subcommand() {
    assert_eq!(
        command_from_matches(Some("publish"), true, false),
        Ok(Command::Publish {
            dry_run: true,
            preview: false
        })
    );
    assert_eq!(command_from_matches(Some("check"), true, true), Ok(Command::Check));
    let error = command_from_matches(None, false, false).expect_err("no subcommand");
    assert_eq!(
        error.message(),
        "missing command: expected `check` or `publish`"
    );
}

#[test]
fn cli_parses_check_command() {
    assert_eq!(cli::parse_command(&["check"]), Ok(cli::Command::Check));
}

#[test]
fn cli_parses_publish_dry_run_command() {
    assert_eq!(
        cli::parse_command(&["publish", "--dry-run"]),
        Ok(cli::Command::Publish { dry_run: true })
    );
}

#[test]
fn cli_parses_publish_command_without_dry_run() {
    assert_eq!(
        cli::parse_command(&["publish"]),
        Ok(cli::Command::Publish { dry_run: false })
    );
}

#[test]
fn cli_parses_publish_command_with_other_args_and_dry_run() {
    assert_eq!(
        cli::parse_command(&["publish", "something", "--dry-run"]),
        Ok(cli::Command::Publish { dry_run: true })
    );
}

#[test]
fn cli_unknown_command_returns_error() {
    let error = cli::parse_command(&["unknown"]).expect_err("unknown command should fail");

    assert_eq!(error.message(), "unknown command or arguments: `unknown`");
}

#[test]
fn cli_missing_command_returns_error() {
    let error = cli::parse_command(&[]).expect_err("no command should fail");

    assert_eq!(
        error.message(),
        "missing command: expected `check` or `publish`"
    );
}

#[test]
fn cli_check_with_arguments_is_unknown() {
    let error = cli::parse_command(&["check", "--dry-run"]).expect_err("check takes no flag");

    assert_eq!(error.message(), "unknown command or arguments: `check`");
}

#[test]
fn check_command_rejects_invalid_article_frontmatter() {
    let root = "tests/fixtures/frontmatter-invalid/articles";
    let (missing_title, mut missing_title_source) = article(
        &format!("{root}/missing-title/article.md"),
        "---\ntags:\n  - rust\nauthor: codex\nqiita_id: null\n---\n",
        "unused",
    );
    if let Ok(source) = &mut missing_title_source {
        if let Ok(frontmatter) = &mut source.frontmatter {
            frontmatter.title = None;
        }
    }
    let (empty_author, mut empty_author_source) = article(
        &format!("{root}/empty-author/article.md"),
        "---\ntitle: t\ntags:\n  - rust\nauthor: \"\"\nqiita_id: null\n---\n",
        "t",
    );
    if let Ok(source) = &mut empty_author_source {
        if let Ok(frontmatter) = &mut source.frontmatter {
            frontmatter.author = Some(String::new());
        }
    }
    let (string_tags, mut string_tags_source) = article(
        &format!("{root}/string-tags/article.md"),
        "---\ntitle: t\ntags: rust\nauthor: codex\nqiita_id: null\n---\n",
        "t",
    );
    if let Ok(source) = &mut string_tags_source {
        source.frontmatter =
            Err("tags: invalid type: string \"rust\", expected a sequence at line 2 column 7".to_owned());
    }
    let (bad_id, mut bad_id_source) = article(
        &format!("{root}/bad-qiita-id/article.md"),
        "---\ntitle: t\ntags:\n  - rust\nauthor: codex\nqiita_id: \"\"\n---\n",
        "t",
    );
    if let Ok(source) = &mut bad_id_source {
        if let Ok(frontmatter) = &mut source.frontmatter {
            frontmatter.qiita_id = Some(YamlValue::String(String::new()));
        }
    }
    let (published, mut published_source) = article(
        &format!("{root}/published/article.md"),
        "---\ntitle: t\ntags:\n  - rust\nauthor: codex\nqiita_id: null\npublished: true\n---\n",
        "t",
    );
    if let Ok(source) = &mut published_source {
        if let Ok(frontmatter) = &mut source.frontmatter {
            frontmatter.published = Some(YamlValue::Bool(true));
        }
    }
    let articles = vec![
        (missing_title, missing_title_source),
        (empty_author, empty_author_source),
        (string_tags, string_tags_source),
        (bad_id, bad_id_source),
        (published, published_source),
    ];

    let message = validate_articles(&articles).expect_err("invalid articles should fail");

    assert!(message.contains("missing required frontmatter field `title`"));
    assert!(message.contains("frontmatter field `author` must not be empty"));
    assert!(message.contains("frontmatter field `tags` must be an array"));
    assert!(message.contains("frontmatter field `qiita_id` must be null or a non-empty value"));
    assert!(message.contains("unsupported frontmatter field `published`"));
}

#[test]
fn check_command_rejects_invalid_markdown_images() {
    let root = "tests/fixtures/markdown-invalid/articles";
    let articles = vec![
        article(
            &format!("{root}/parent-path/article.md"),
            "---\ntitle: t\ntags:\n  - rust\nauthor: codex\nqiita_id: null\n---\n![x](../outside.png)\n",
            "t",
        ),
        article(
            &format!("{root}/absolute-path/article.md"),
            "---\ntitle: t\ntags:\n  - rust\nauthor: codex\nqiita_id: null\n---\n![x](/etc/passwd.png)\n",
            "t",
        ),
        article(
            &format!("{root}/unsupported-image/article.md"),
            "---\ntitle: t\ntags:\n  - rust\nauthor: codex\nqiita_id: null\n---\n![x](./images/example.svg)\n",
            "t",
        ),
    ];

    let message = validate_articles(&articles).expect_err("invalid images should fail");

    assert!(message.contains("must stay inside the article directory"));
    assert!(message.contains("must be relative to the article directory"));
    assert!(message.contains("unsupported image extension `.svg`"));
}

#[test]
fn publish_never_gives_both_flags() {
    for args in [
        vec!["publish", "--dry-run", "--preview"],
        vec!["publish", "--preview", "--dry-run"],
    ] {
        assert!(parse_command(&args).is_err());
    }
}
