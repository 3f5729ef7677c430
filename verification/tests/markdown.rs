use gitita::markdown::{
    collect_image_references, image_probe_paths, replace_image_sources, resolve_image_references,
    validate_image_references, FileKind, FileSnapshot, ImageReference, ImageReferenceKind,
    ImageValidationError,
};

const VALID_ARTICLE: &str = "tests/fixtures/markdown-valid/articles/markdown-images/article.md";

/// A file system in which the images of `markdown` exist as regular files.
fn snapshot_with_images(article_path: &str, markdown: &str) -> FileSnapshot {
    let mut files = FileSnapshot::new();
    for probe in image_probe_paths(article_path, markdown) {
        let kind = if probe.ends_with(".png") || probe.ends_with(".webp") {
            FileKind::File
        } else {
            FileKind::Other
        };
        files.record(&probe, kind);
    }
    files
}

#[test]
fn detects_markdown_images() {
    let references = collect_image_references("![alt](./images/example.png)\n");

    assert_eq!(
        references,
        vec![ImageReference {
            kind: ImageReferenceKind::Markdown,
            source: "./images/example.png".to_owned(),
        }]
    );
}

#[test]
fn detects_html_img_sources() {
    let references =
        collect_image_references(r#"<img width="500" src="./images/example.webp" alt="alt">"#);

    assert_eq!(
        references,
        vec![ImageReference {
            kind: ImageReferenceKind::Html,
            source: "./images/example.webp".to_owned(),
        }]
    );
}

#[test]
fn ignores_external_urls() {
    let references = collect_image_references(
        "![remote](https://example.com/image.png)\n<img src=\"//example.com/image.png\">\n",
    );

    assert!(references.is_empty());
}

#[test]
fn ignores_image_like_text_inside_code_blocks() {
    let references = collect_image_references(
        "```md\n![alt](./images/example.png)\n<img src=\"./images/example.png\">\n```\n",
    );

    assert!(references.is_empty());
}

#[test]
fn rejects_parent_directory_traversal() {
    let files = FileSnapshot::new();
    let error = validate_image_references(VALID_ARTICLE, "![alt](../outside.png)", &files)
        .expect_err("unsafe image path should fail");

    assert!(matches!(error[0], ImageValidationError::UnsafePath { .. }));
}

#[test]
fn rejects_absolute_paths() {
    let files = FileSnapshot::new();
    let error = validate_image_references(VALID_ARTICLE, "![alt](/etc/passwd)", &files)
        .expect_err("absolute image path should fail");

    assert!(matches!(error[0], ImageValidationError::AbsolutePath { .. }));
}

#[test]
fn rejects_windows_style_paths() {
    let files = FileSnapshot::new();
    let error = validate_image_references(VALID_ARTICLE, r"![alt](C:\secret.txt)", &files)
        .expect_err("windows style image path should fail");

    assert!(matches!(error[0], ImageValidationError::UnsafePath { .. }));
}

#[test]
fn rejects_unsupported_image_extensions() {
    let article_path = "tests/fixtures/markdown-invalid/articles/unsupported-image/article.md";
    let files = FileSnapshot::new();
    let error = validate_image_references(article_path, "![alt](./images/example.svg)", &files)
        .expect_err("unsupported extension should fail");

    assert!(matches!(
        error[0],
        ImageValidationError::UnsupportedExtension { .. }
    ));
    assert_eq!(
        error[0].message(),
        format!("{article_path}: unsupported image extension `.svg` in `./images/example.svg`; supported extensions: png, jpg, jpeg, gif, webp, tiff, avif")
    );
}

#[test]
fn validates_local_images() {
    let markdown =
        "![alt](./images/example.png)\n<img src=\"./images/example.webp\" width=\"500\">\n";
    let files = snapshot_with_images(VALID_ARTICLE, markdown);

    let references = validate_image_references(VALID_ARTICLE, markdown, &files)
        .expect("valid local images should pass");

    assert_eq!(references.len(), 2);
}

#[test]
fn resolves_local_images_to_files() {
    let markdown =
        "![alt](./images/example.png)\n<img src=\"./images/example.webp\" width=\"500\">\n";
    let files = snapshot_with_images(VALID_ARTICLE, markdown);

    let references =
        resolve_image_references(VALID_ARTICLE, markdown, &files).expect("images should resolve");

    assert_eq!(references.len(), 2);
    assert!(references[0].image_path.ends_with("images/example.png"));
    assert!(references[1].image_path.ends_with("images/example.webp"));
}

#[test]
fn replaces_only_targeted_image_sources_in_memory() {
    let markdown = "![local](./images/example.png)\n\
<img src=\"./images/example.webp\" width=\"500\">\n\
![remote](https://example.com/image.png)\n\
```md\n\
![code](./images/example.png)\n\
<img src=\"./images/example.webp\">\n\
```\n";

    let replaced = replace_image_sources(
        markdown,
        &[
            (
                "./images/example.png".to_owned(),
                "https://img.qiita.com/uploaded.png".to_owned(),
            ),
            (
                "./images/example.webp".to_owned(),
                "https://img.qiita.com/uploaded.webp".to_owned(),
            ),
        ],
    );

    assert!(replaced.contains("![local](https://img.qiita.com/uploaded.png)"));
    assert!(replaced.contains(r#"<img src="https://img.qiita.com/uploaded.webp" width="500">"#));
    assert!(replaced.contains("![remote](https://example.com/image.png)"));
    assert!(replaced.contains("![code](./images/example.png)"));
    assert!(replaced.contains(r#"<img src="./images/example.webp">"#));
}

#[test]
fn preserves_markdown_image_title_when_replacing_source() {
    let replaced = replace_image_sources(
        r#"![local](./images/example.png "title")"#,
        &[(
            "./images/example.png".to_owned(),
            "https://img.qiita.com/uploaded.png".to_owned(),
        )],
    );

    assert_eq!(
        replaced,
        r#"![local](https://img.qiita.com/uploaded.png "title")"#
    );
}

#[test]
fn replacing_sources_by_themselves_keeps_the_text() {
    let markdown = "![a](./images/a.png)\n<img src='./images/b.webp'>\n```\n![c](./c.png)\n```\n";

    let replaced = replace_image_sources(
        markdown,
        &[
            ("./images/a.png".to_owned(), "./images/a.png".to_owned()),
            ("./images/b.webp".to_owned(), "./images/b.webp".to_owned()),
        ],
    );

    assert_eq!(replaced, markdown);
}

#[test]
fn collected_references_are_local_paths() {
    let references = collect_image_references(
        "![a](./a.png)\n![b](http://x/b.png)\n![c](mailto:x)\n<img src=\"data:image/png;base64,AA\">\n<img src=\"c.gif\">\n",
    );

    let sources: Vec<&str> = references.iter().map(|r| r.source.as_str()).collect();
    assert_eq!(sources, vec!["./a.png", "c.gif"]);
}

#[test]
fn resolved_image_paths_stay_inside_the_article_directory() {
    let article = "articles/a/article.md";
    let markdown = "![x](./images/./x.png)\n";
    let files = snapshot_with_images(article, markdown);

    let resolved = resolve_image_references(article, markdown, &files).expect("should resolve");

    assert_eq!(resolved[0].image_path, "articles/a/images/x.png");
}

#[test]
fn symlinked_images_are_rejected() {
    let article = "articles/a/article.md";
    let markdown = "![x](./images/x.png)\n";
    let mut files = FileSnapshot::new();
    files.record("articles/a/images", FileKind::Symlink);
    files.record("articles/a/images/x.png", FileKind::File);

    let error = validate_image_references(article, markdown, &files).expect_err("symlink");

    assert!(matches!(error[0], ImageValidationError::Symlink { .. }));
    assert_eq!(
        error[0].message(),
        "articles/a/article.md: image path `./images/x.png` points to a symlink at `articles/a/images`"
    );
}

#[test]
fn directories_are_not_images() {
    let article = "articles/a/article.md";
    let markdown = "![x](./images/x.png)\n";
    let mut files = FileSnapshot::new();
    files.record("articles/a/images", FileKind::Other);
    files.record("articles/a/images/x.png", FileKind::Other);

    let error = validate_image_references(article, markdown, &files).expect_err("not a file");

    assert!(matches!(error[0], ImageValidationError::NotFile { .. }));
}

#[test]
fn images_without_extension_are_rejected() {
    let error = validate_image_references("articles/a/article.md", "![x](./images/x)\n", &FileSnapshot::new())
        .expect_err("no extension");

    assert!(matches!(error[0], ImageValidationError::MissingExtension { .. }));
    assert_eq!(
        error[0].message(),
        "articles/a/article.md: image path `./images/x` must include a supported image extension"
    );
}

#[test]
fn all_image_errors_are_reported_in_order() {
    let error = validate_image_references(
        "articles/a/article.md",
        "![x](/abs.png)\n![y](../up.png)\n",
        &FileSnapshot::new(),
    )
    .expect_err("two errors");

    assert_eq!(error.len(), 2);
    assert!(matches!(error[0], ImageValidationError::AbsolutePath { .. }));
    assert!(matches!(error[1], ImageValidationError::UnsafePath { .. }));
    assert_eq!(
        error[0].message(),
        "articles/a/article.md: image path `/abs.png` must be relative to the article directory"
    );
    assert_eq!(
        error[1].message(),
        "articles/a/article.md: image path `../up.png` must stay inside the article directory"
    );
}

#[test]
fn probe_paths_list_each_prefix_of_an_image_path() {
    let probes = image_probe_paths("articles/a/article.md", "![x](./images/sub/x.png)\n");

    assert_eq!(
        probes,
        vec![
            "articles/a/images".to_owned(),
            "articles/a/images/sub".to_owned(),
            "articles/a/images/sub/x.png".to_owned(),
        ]
    );
}

#[test]
fn image_checks_read_only_the_probe_paths() {
    let article = "articles/a/article.md";
    let markdown = "![x](./images/x.png)\n";
    let plain = snapshot_with_images(article, markdown);
    let mut noisy = FileSnapshot::new();
    noisy.record("articles/a/other.png", FileKind::Symlink);
    noisy.record("articles/b/images/x.png", FileKind::Missing);
    for probe in image_probe_paths(article, markdown) {
        let kind = if probe.ends_with(".png") {
            FileKind::File
        } else {
            FileKind::Other
        };
        noisy.record(&probe, kind);
    }

    assert_eq!(
        resolve_image_references(article, markdown, &plain),
        resolve_image_references(article, markdown, &noisy)
    );
}
