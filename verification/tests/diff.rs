use gitita::diff::{changed_articles_from_name_status, git_failure, ChangedArticle, DiffError};

#[test]
fn detects_no_article_changes() {
    let articles =
        changed_articles_from_name_status("M\tREADME.md\nA\tdocs/ai/example.md\nM\tCargo.toml\n")
            .expect("non-article changes should be ignored");

    assert!(articles.is_empty());
}

#[test]
fn detects_one_changed_article() {
    let articles = changed_articles_from_name_status("M\tarticles/rust-clap-intro/article.md\n")
        .expect("changed article should be detected");

    assert_eq!(
        articles,
        vec![ChangedArticle {
            slug: "rust-clap-intro".to_owned(),
            is_new: false,
        }]
    );
}

#[test]
fn detects_article_image_changes_by_slug() {
    let articles =
        changed_articles_from_name_status("A\tarticles/rust-clap-intro/images/example.png\n")
            .expect("article image change should be detected");

    assert_eq!(
        articles,
        vec![ChangedArticle {
            slug: "rust-clap-intro".to_owned(),
            is_new: false,
        }]
    );
}

#[test]
fn rejects_multiple_new_articles() {
    let error = changed_articles_from_name_status(
        "A\tarticles/first/article.md\nA\tarticles/second/article.md\n",
    )
    .expect_err("multiple new articles should fail validation");

    assert_eq!(
        error,
        DiffError::MultipleNewArticles {
            slugs: vec!["first".to_owned(), "second".to_owned()],
        }
    );
}

#[test]
fn rejects_forbidden_article_directory_rename() {
    let error = changed_articles_from_name_status(
        "R100\tarticles/old-slug/article.md\tarticles/new-slug/article.md\n",
    )
    .expect_err("article directory rename should fail validation");

    assert_eq!(
        error,
        DiffError::ForbiddenRename {
            from: "old-slug".to_owned(),
            to: "new-slug".to_owned(),
        }
    );
}

#[test]
fn allows_rename_inside_same_article_directory() {
    let articles = changed_articles_from_name_status(
        "R100\tarticles/rust-clap-intro/images/old.png\tarticles/rust-clap-intro/images/new.png\n",
    )
    .expect("same article directory rename should be allowed by diff detector");

    assert_eq!(
        articles,
        vec![ChangedArticle {
            slug: "rust-clap-intro".to_owned(),
            is_new: false,
        }]
    );
}

#[test]
fn records_single_new_article() {
    let articles = changed_articles_from_name_status(
        "A\tarticles/rust-clap-intro/article.md\nA\tarticles/rust-clap-intro/images/example.png\n",
    )
    .expect("one new article should be allowed");

    assert_eq!(
        articles,
        vec![ChangedArticle {
            slug: "rust-clap-intro".to_owned(),
            is_new: true,
        }]
    );
}

#[test]
fn changed_articles_come_sorted_by_slug_and_once_each() {
    let articles = changed_articles_from_name_status(
        "M\tarticles/zeta/article.md\nM\tarticles/alpha/images/a.png\nM\tarticles/zeta/images/b.png\nA\tarticles/mid/article.md\n",
    )
    .expect("listing should parse");

    assert_eq!(
        articles,
        vec![
            ChangedArticle {
                slug: "alpha".to_owned(),
                is_new: false,
            },
            ChangedArticle {
                slug: "mid".to_owned(),
                is_new: true,
            },
            ChangedArticle {
                slug: "zeta".to_owned(),
                is_new: false,
            },
        ]
    );
}

#[test]
fn rejects_malformed_name_status_line() {
    let error = changed_articles_from_name_status("M articles/a/article.md\n")
        .expect_err("a line without a tab should fail");

    assert_eq!(
        error,
        DiffError::InvalidDiffLine("M articles/a/article.md".to_owned())
    );
    assert_eq!(
        error.message(),
        "failed to parse git diff name-status line: `M articles/a/article.md`"
    );
}

#[test]
fn skips_blank_lines_of_a_listing() {
    let articles = changed_articles_from_name_status("\n  \nM\tarticles/a/article.md\n\n")
        .expect("blank lines should be skipped");

    assert_eq!(articles.len(), 1);
    assert_eq!(articles[0].slug, "a");
}

#[test]
fn diff_error_messages_name_the_articles() {
    let rename = DiffError::ForbiddenRename {
        from: "old".to_owned(),
        to: "new".to_owned(),
    };
    assert_eq!(
        rename.message(),
        "article directory rename is forbidden: articles/old/ -> articles/new/"
    );

    let multiple = DiffError::MultipleNewArticles {
        slugs: vec!["a".to_owned(), "b".to_owned()],
    };
    assert_eq!(
        multiple.message(),
        "multiple new articles are not allowed in one PR: a, b"
    );

    let git = DiffError::GitFailed("exit status 128".to_owned());
    assert_eq!(git.message(), "git diff failed: exit status 128");
}

#[test]
fn git_failure_uses_stderr_or_exit_status() {
    assert_eq!(
        git_failure("  fatal: bad revision 'HEAD^'\n", "exit status: 128"),
        DiffError::GitFailed("fatal: bad revision 'HEAD^'".to_owned())
    );
    assert_eq!(
        git_failure(" \n", "exit status: 128"),
        DiffError::GitFailed("exit status exit status: 128".to_owned())
    );
}

#[test]
fn listing_order_and_blank_lines_change_nothing() {
    let first = changed_articles_from_name_status(
        "M\tarticles/b/article.md\nA\tarticles/a/article.md\nR100\tarticles/c/x.png\tarticles/c/y.png\n",
    )
    .expect("listing should parse");
    let second = changed_articles_from_name_status(
        "\nR100\tarticles/c/x.png\tarticles/c/y.png\n  \nA\tarticles/a/article.md\nM\tarticles/b/article.md\nM\tarticles/b/article.md\n",
    )
    .expect("listing should parse");

    assert_eq!(first, second);
    let slugs: Vec<&str> = first.iter().map(|a| a.slug.as_str()).collect();
    assert_eq!(slugs, vec!["a", "b", "c"]);
    assert!(first[0].is_new);
}
