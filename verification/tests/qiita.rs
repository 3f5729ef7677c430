use gitita::qiita::{
    api_error, content_type_for, error_message_from, upload_file_name, uploaded_image,
    validate_item_id, ErrorResponse, QiitaArticleRequest, QiitaConfig, QiitaError, QiitaTag,
    UploadPolicyForm,
};
use std::time::Duration;

/// The error of a configuration that was refused.
fn refused(result: Result<QiitaConfig, QiitaError>) -> QiitaError {
    match result {
        Err(error) => error,
        Ok(_) => panic!("the configuration should be refused"),
    }
}

fn config() -> QiitaConfig {
    QiitaConfig::new(
        "secret",
        "https://qiita.com/api/v2",
        "https://qiita.com/api/upload/policies",
    )
    .expect("token should be accepted")
}

#[test]
fn article_request_rejects_empty_required_fields() {
    let error =
        QiitaArticleRequest::new("", "body", vec![QiitaTag::new("Rust")], true).unwrap_err();

    assert_eq!(
        error.message(),
        "invalid Qiita article request: title must not be empty"
    );
}

#[test]
fn article_request_checks_body_tags_and_tag_names() {
    let body = QiitaArticleRequest::new("t", "  ", vec![QiitaTag::new("Rust")], false).unwrap_err();
    assert_eq!(body, QiitaError::InvalidArticle("body must not be empty"));

    let tags = QiitaArticleRequest::new("t", "b", Vec::new(), false).unwrap_err();
    assert_eq!(tags, QiitaError::InvalidArticle("tags must not be empty"));

    let names =
        QiitaArticleRequest::new("t", "b", vec![QiitaTag::new("Rust"), QiitaTag::new(" ")], false)
            .unwrap_err();
    assert_eq!(names, QiitaError::InvalidArticle("tag names must not be empty"));
}

#[test]
fn article_request_keeps_its_fields() {
    let request = QiitaArticleRequest::new(
        "Rust CLI",
        "# Body",
        vec![QiitaTag::with_versions("Rust", vec!["1.80".to_owned()])],
        true,
    )
    .expect("valid request should be accepted");

    assert_eq!(request.title, "Rust CLI");
    assert_eq!(request.body, "# Body");
    assert_eq!(request.tags[0].name, "Rust");
    assert_eq!(request.tags[0].versions, vec!["1.80".to_owned()]);
    assert!(request.private);
    assert!(!request.tweet);
    assert_eq!(request.organization_url_name, None);

    let in_org = request.clone().with_organization_url_name(Some("my-org".to_owned()));
    assert_eq!(in_org.organization_url_name, Some("my-org".to_owned()));
    let blank_org = request.with_organization_url_name(Some("  ".to_owned()));
    assert_eq!(blank_org.organization_url_name, None);
}

#[test]
fn config_requires_non_empty_token() {
    let error = refused(QiitaConfig::new(
        " ",
        "https://qiita.com/api/v2",
        "https://qiita.com/api/upload/policies",
    ));

    assert_eq!(error.message(), "QIITA_TOKEN environment variable is required");
}

#[test]
fn config_requires_urls() {
    let base = refused(QiitaConfig::new("t", "", "u"));
    assert_eq!(base.message(), "API_BASE_URL environment variable is required");

    let upload = refused(QiitaConfig::new("t", "b", "\n"));
    assert_eq!(
        upload.message(),
        "UPLOAD_POLICIES_URL environment variable is required"
    );
}

#[test]
fn config_uses_explicit_default_timeout() {
    let config = config().with_timeout(Duration::from_secs(12));

    assert_eq!(config.timeout(), Duration::from_secs(12));
}

#[test]
fn config_default_timeout_is_thirty_seconds() {
    assert_eq!(config().timeout(), Duration::from_secs(30));
    assert_eq!(config().timeout().as_secs(), 30);
    assert_eq!(config().timeout().subsec_nanos(), 0);
}

#[test]
fn config_debug_redacts_token() {
    let config = QiitaConfig::new(
        "super-secret-token",
        "https://qiita.com/api/v2",
        "https://qiita.com/api/upload/policies",
    )
    .expect("token should be accepted");
    let debug = config.debug_string();

    assert!(debug.contains("***"));
    assert!(!debug.contains("super-secret-token"));
}

#[test]
fn config_debug_shows_urls_and_timeout() {
    let debug = config().debug_string();

    assert_eq!(
        debug,
        "QiitaConfig { token: \"***\", api_base_url: \"https://qiita.com/api/v2\", upload_policies_url: \"https://qiita.com/api/upload/policies\", timeout: 30s }"
    );
}

#[test]
fn base_url_loses_trailing_slashes() {
    let config = config().with_api_base_url("https://example.com/api/v2//");

    assert_eq!(config.items_url(), "https://example.com/api/v2/items");
    assert_eq!(config.item_url("abc"), "https://example.com/api/v2/items/abc");
    assert_eq!(config.authorization_header(), "Bearer secret");

    let moved = config.with_upload_policies_url("https://example.com/upload");
    assert_eq!(moved.upload_policies_url(), "https://example.com/upload");
}

#[test]
fn validates_item_id_before_building_update_url() {
    validate_item_id("abc123-def").expect("safe item id should be accepted");

    let error = validate_item_id("../secret").expect_err("unsafe id should fail");

    assert!(matches!(error, QiitaError::InvalidItemId(item_id) if item_id == "../secret"));
}

#[test]
fn blank_item_id_is_invalid() {
    let error = validate_item_id(" ").expect_err("blank id should fail");

    assert_eq!(error.message(), "invalid Qiita item id: ` `");
}

#[test]
fn parses_readable_api_error_message() {
    let text = r#"{"message":"Unauthorized","type":"unauthorized"}"#;
    let value: serde_json::Value = serde_json::from_str(text).expect("valid json");
    let parsed = ErrorResponse {
        message: value["message"].as_str().map(|m| m.to_owned()),
        error_type: value["type"].as_str().map(|t| t.to_owned()),
    };

    let message = error_message_from(Some(parsed), text);

    assert_eq!(message, "Unauthorized");
}

#[test]
fn api_error_message_falls_back_to_type_then_text() {
    let only_type = ErrorResponse {
        message: None,
        error_type: Some("not_found".to_owned()),
    };
    assert_eq!(error_message_from(Some(only_type), "{}"), "not_found");
    assert_eq!(error_message_from(None, "  bad gateway \n"), "bad gateway");
    assert_eq!(error_message_from(None, " \n "), "empty error response");

    let error = api_error("502 Bad Gateway", "", None);
    assert_eq!(
        error.message(),
        "Qiita API returned 502 Bad Gateway: empty error response"
    );
}

#[test]
fn content_type_is_guessed_from_the_extension() {
    assert_eq!(content_type_for("images/example.png"), "image/png");
    assert_eq!(content_type_for("images/example.webp"), "image/webp");
    assert_eq!(content_type_for("images/example.unknownext"), "application/octet-stream");
    assert_eq!(content_type_for("images/EXAMPLE.PNG"), "image/png");
}

#[test]
fn upload_file_name_is_the_last_component() {
    assert_eq!(
        upload_file_name("articles/a/images/example.png"),
        Ok("example.png".to_owned())
    );

    let error = upload_file_name("articles/..").expect_err("no file name");
    assert_eq!(error.message(), "invalid image path: `articles/..`");
}

#[test]
fn uploaded_image_url_joins_upload_url_and_key() {
    let image = uploaded_image("https://s3.example.com/bucket", "abc/x.png");

    assert_eq!(image.url, "https://s3.example.com/bucket/abc/x.png");
}

#[test]
fn policy_form_fields_come_in_order() {
    let form = UploadPolicyForm {
        key: "k".to_owned(),
        acl: "public-read".to_owned(),
        policy: "p".to_owned(),
        content_type: "image/png".to_owned(),
        x_amz_credential: "c".to_owned(),
        x_amz_algorithm: "a".to_owned(),
        x_amz_date: "d".to_owned(),
        x_amz_signature: "s".to_owned(),
    };

    let names: Vec<String> = form.form_fields().into_iter().map(|(n, _)| n).collect();
    assert_eq!(
        names,
        vec![
            "key",
            "acl",
            "Content-Type",
            "policy",
            "x-amz-credential",
            "x-amz-algorithm",
            "x-amz-date",
            "x-amz-signature"
        ]
    );
    assert_eq!(form.form_fields()[2].1, "image/png");
}

#[test]
fn qiita_error_messages() {
    assert_eq!(
        QiitaError::ReadImage {
            path: "a.png".to_owned(),
            message: "not found".to_owned()
        }
        .message(),
        "failed to read image `a.png`: not found"
    );
    assert_eq!(
        QiitaError::ResponseMissingField("id").message(),
        "Qiita API response missing required field `id`"
    );
    assert_eq!(
        QiitaError::Request("timeout".to_owned()).message(),
        "Qiita API request failed: timeout"
    );
}

#[test]
fn upload_file_name_follows_path_file_name() {
    for path in [
        "a/b/x.png",
        "a/b/x.png/",
        "a/b/x.png/.",
        "./x.png",
        "x.png",
        "/",
        ".",
        "",
        "a/..",
        "a//b",
        "../a.gif",
    ] {
        let expected = std::path::Path::new(path)
            .file_name()
            .and_then(|name| name.to_str())
            .map(|name| name.to_owned());
        assert_eq!(upload_file_name(path).ok(), expected, "path {path:?}");
    }
}

#[test]
fn debug_form_shows_the_changed_timeout() {
    let debug = config().with_timeout(Duration::from_millis(1500)).debug_string();

    assert!(debug.ends_with(", timeout: 1.5s }"));
}
