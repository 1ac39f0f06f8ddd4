use gfty::credentials::{Credentials, CredentialsError};
use gfty::onshape::{
    authorization, canonical_request, form_encode, next_poll_delay, preview_image,
    request_signature, translation_result, validate_id, ModelTarget, PreviewError,
    ShadedImageGroup, TargetError, TranslationError, TranslationResponse, TranslationState,
};

#[test]
fn parses_immutable_part_studio_url() {
    let target = ModelTarget::parse(
        "https://cad.onshape.com/documents/089ad0a2edf08cd2cfdc9875/v/02d1ce92af09ce405aff8f7d/e/5bba513a46b691f2bf439aaa?renderMode=0",
    )
    .unwrap();
    assert_eq!(target.origin, "https://cad.onshape.com");
    assert_eq!(target.document_id, "089ad0a2edf08cd2cfdc9875");
    assert_eq!(target.version_id, "02d1ce92af09ce405aff8f7d");
    assert_eq!(target.element_id, "5bba513a46b691f2bf439aaa");
}

#[test]
fn rejects_non_onshape_hosts() {
    let error = ModelTarget::parse(
        "https://example.com/documents/089ad0a2edf08cd2cfdc9875/v/02d1ce92af09ce405aff8f7d/e/5bba513a46b691f2bf439aaa",
    )
    .unwrap_err()
    .message();
    assert!(error.contains("host"));
}

#[test]
fn rejects_workspace_targets() {
    let error = ModelTarget::parse(
        "https://cad.onshape.com/documents/089ad0a2edf08cd2cfdc9875/w/02d1ce92af09ce405aff8f7d/e/5bba513a46b691f2bf439aaa",
    )
    .unwrap_err()
    .message();
    assert!(error.contains("immutable version"));
}

#[test]
fn form_encodes_configuration_values() {
    assert_eq!(
        form_encode(r#"{"label":"A B","size":[1,2]}"#),
        "%7B%22label%22%3A%22A+B%22%2C%22size%22%3A%5B1%2C2%5D%7D"
    );
}

#[test]
fn form_encoding_keeps_unreserved_bytes_and_escapes_utf8() {
    assert_eq!(form_encode("aZ09-_.~"), "aZ09-_.~");
    assert_eq!(form_encode("é"), "%C3%A9");
}

#[test]
fn model_urls_keep_ports_and_check_every_id() {
    let target = ModelTarget::parse(
        "https://onshape.com:8443/documents/089ad0a2edf08cd2cfdc9875/v/02d1ce92af09ce405aff8f7d/e/5bba513a46b691f2bf439aaa",
    )
    .unwrap();
    assert_eq!(target.origin, "https://onshape.com:8443");
    assert_eq!(
        ModelTarget::parse("http://cad.onshape.com/documents/a/v/b/e/c").unwrap_err(),
        TargetError::NotHttps
    );
    assert_eq!(
        ModelTarget::parse("https://cad.onshape.com/documents/089ad0a2edf08cd2cfdc9875/v/02d1ce92af09ce405aff8f7d/e/xyz")
            .unwrap_err()
            .message(),
        "Onshape element ID must contain 24 hexadecimal digits"
    );
    assert_eq!(
        ModelTarget::parse("https://cad.onshape.com/models/1").unwrap_err(),
        TargetError::MissingPath
    );
    assert!(matches!(
        ModelTarget::parse("not a url").unwrap_err(),
        TargetError::InvalidUrl { .. }
    ));
}

#[test]
fn ids_are_24_hexadecimal_digits() {
    assert!(validate_id("089ad0a2edf08cd2cfdc9875", "document").is_ok());
    assert!(validate_id("089AD0A2EDF08CD2CFDC9875", "document").is_ok());
    assert!(validate_id("089ad0a2edf08cd2cfdc987", "document").is_err());
    assert!(validate_id("089ad0a2edf08cd2cfdc987g", "document").is_err());
}

#[test]
fn requests_are_signed_over_their_lowercase_canonical_text() {
    let canonical = canonical_request("GET", "Nonce", "Date", "/API/x", "a=B");
    assert_eq!(
        canonical,
        "get\nnonce\ndate\napplication/json;charset=utf-8; qs=0.09\n/api/x\na=b\n"
    );
    let credentials = Credentials::new(" access ".to_owned(), "secret".to_owned()).unwrap();
    let signature = request_signature(&credentials, &canonical);
    assert_eq!(signature.len(), 44);
    assert!(signature.ends_with('='));
    assert_ne!(signature, request_signature(&credentials, "other"));
    assert_eq!(
        authorization(&credentials, &signature),
        format!("On access:HmacSHA256:{signature}")
    );
}

#[test]
fn credentials_are_trimmed_and_required() {
    let credentials = Credentials::new(" a \n".to_owned(), "\tb".to_owned()).unwrap();
    assert_eq!(credentials.access_key(), "a");
    assert_eq!(credentials.secret_key(), "b");
    assert_eq!(
        Credentials::new("  ".to_owned(), "b".to_owned()).err(),
        Some(CredentialsError::EmptyAccessKey)
    );
    assert_eq!(
        Credentials::new("a".to_owned(), "".to_owned()).err(),
        Some(CredentialsError::EmptySecretKey)
    );
}

fn target() -> ModelTarget {
    ModelTarget {
        origin: "https://cad.onshape.com".to_owned(),
        document_id: "doc".to_owned(),
        version_id: "ver".to_owned(),
        element_id: "el".to_owned(),
    }
}

fn done(ids: Option<Vec<String>>) -> TranslationResponse {
    TranslationResponse {
        id: "t".to_owned(),
        request_state: TranslationState::Done,
        failure_reason: None,
        result_external_data_ids: ids,
        result_document_id: None,
        version_id: Some("ver".to_owned()),
        workspace_id: None,
    }
}

#[test]
fn finished_translations_name_exactly_one_file_of_the_target_version() {
    assert_eq!(
        translation_result(&target(), &done(Some(vec!["ext".to_owned()]))).unwrap(),
        ("doc".to_owned(), "ext".to_owned())
    );
    assert_eq!(
        translation_result(&target(), &done(None)).unwrap_err(),
        TranslationError::ResultCount { count: 0 }
    );
    let mut failed = done(None);
    failed.request_state = TranslationState::Failed;
    assert_eq!(
        translation_result(&target(), &failed).unwrap_err(),
        TranslationError::Failed { reason: "Onshape did not provide a failure reason".to_owned() }
    );
    let mut other = done(None);
    other.version_id = None;
    assert_eq!(
        translation_result(&target(), &other).unwrap_err(),
        TranslationError::UnexpectedVersion { expected: "ver".to_owned(), received: "none".to_owned() }
    );
    let mut workspace = done(Some(vec!["ext".to_owned()]));
    workspace.workspace_id = Some("w".to_owned());
    assert_eq!(
        translation_result(&target(), &workspace).unwrap_err(),
        TranslationError::MutableWorkspace
    );
}

#[test]
fn polling_backs_off_to_twenty_seconds() {
    assert_eq!(next_poll_delay(2), 4);
    assert_eq!(next_poll_delay(8), 16);
    assert_eq!(next_poll_delay(16), 20);
    assert_eq!(next_poll_delay(20), 20);
}

#[test]
fn previews_hold_exactly_one_png() {
    let png = "iVBORw0KGgpmaXh0dXJl".to_owned();
    assert_eq!(
        preview_image(&vec![ShadedImageGroup::Images(vec![png.clone()])]).unwrap(),
        b"\x89PNG\r\n\x1a\nfixture".to_vec()
    );
    assert_eq!(
        preview_image(&vec![ShadedImageGroup::Image(png.clone()), ShadedImageGroup::Image(png)])
            .unwrap_err(),
        PreviewError::ImageCount { count: 2 }
    );
    assert_eq!(
        preview_image(&vec![ShadedImageGroup::Image("Zm9v".to_owned())]).unwrap_err(),
        PreviewError::NotPng
    );
    assert_eq!(
        preview_image(&vec![ShadedImageGroup::Image("!!".to_owned())]).unwrap_err(),
        PreviewError::InvalidBase64
    );
}

#[test]
fn invalid_url_messages_quote_the_url() {
    let error = gfty::onshape::TargetError::InvalidUrl { value: "not a url".to_owned() };
    assert_eq!(error.message(), "invalid Onshape model URL \"not a url\"");
}

#[test]
fn signatures_are_standard_base64_of_the_hmac() {
    let credentials = Credentials::new("access".to_owned(), "Jefe".to_owned()).unwrap();
    assert_eq!(
        request_signature(&credentials, "what do ya want for nothing?"),
        "W9zBRr9gdU5qBCQmCJV1x1oAPwidJzmDnexYuWTsOEM="
    );
}

#[test]
fn targets_are_read_from_the_parsed_parts() {
    let segments = ["x", "documents", "089ad0a2edf08cd2cfdc9875", "v", "02d1ce92af09ce405aff8f7d", "e", "5bba513a46b691f2bf439aaa"];
    let parts = gfty::onshape::UrlParts {
        scheme: "https".to_owned(),
        host: Some("cad.onshape.com".to_owned()),
        port: Some(8443),
        segments: Some(segments.iter().map(|s| s.to_string()).collect()),
    };
    let target = ModelTarget::from_parts("ignored", Some(parts.clone())).unwrap();
    assert_eq!(target.origin, "https://cad.onshape.com:8443");
    assert_eq!(target.element_id, "5bba513a46b691f2bf439aaa");
    assert_eq!(
        ModelTarget::from_parts("not a url", None).unwrap_err(),
        TargetError::InvalidUrl { value: "not a url".to_owned() }
    );
    let plain = gfty::onshape::UrlParts { scheme: "http".to_owned(), ..parts };
    assert_eq!(ModelTarget::from_parts("x", Some(plain)).unwrap_err(), TargetError::NotHttps);
}
