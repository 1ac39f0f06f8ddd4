use gfty::artifact_cache::{
    check_manifest, hex, sha256_hex, verify_hash, ArtifactCache, CacheError, CacheManifest,
};

#[test]
fn digests_are_lowercase_hex_sha256() {
    assert_eq!(
        sha256_hex(b"abc"),
        "ba7816bf8f01cfea414140de5dae2223b00361a396177a9cb410ff61f20015ad"
    );
    assert_eq!(hex(&[0x00, 0xab, 0x0f]), "00ab0f");
}

#[test]
fn cached_artifacts_must_match_their_digest() {
    let digest = sha256_hex(b"contents");
    assert!(verify_hash(b"contents", &digest).is_ok());
    assert_eq!(
        verify_hash(b"other", &digest),
        Err(CacheError::HashMismatch { expected: digest.clone(), actual: sha256_hex(b"other") })
    );
}

#[test]
fn manifests_record_digests_of_stored_artifacts() {
    let cache = ArtifactCache { root: "/cache".to_owned() };
    let png = b"\x89PNG\r\n\x1a\nfixture";
    let manifest = cache.store_preview(None, "abc", png).unwrap();
    assert_eq!(manifest.version, 1);
    assert_eq!(manifest.request_key, "abc");
    assert_eq!(manifest.preview_sha256, Some(sha256_hex(png)));
    assert_eq!(manifest.step_sha256, None);
    let both = cache.store_step(Some(manifest), "abc", b"step");
    assert_eq!(both.step_sha256, Some(sha256_hex(b"step")));
    assert_eq!(both.preview_sha256, Some(sha256_hex(png)));
    assert_eq!(cache.store_preview(None, "abc", b"GIF89a").unwrap_err(), CacheError::NotPng);
    assert_eq!(cache.directory("abc"), "/cache/abc");
}

#[test]
fn manifests_must_belong_to_their_request() {
    let manifest = CacheManifest {
        version: 1,
        request_key: "abc".to_owned(),
        step_sha256: None,
        preview_sha256: None,
    };
    assert!(check_manifest(&manifest, "abc").is_ok());
    assert_eq!(check_manifest(&manifest, "abd"), Err(CacheError::IdentityMismatch));
}

#[test]
fn different_contents_have_different_digest_texts() {
    let first = gfty::artifact_cache::sha256_hex(b"artifact-a");
    let second = gfty::artifact_cache::sha256_hex(b"artifact-b");
    assert_eq!(first.len(), 64);
    assert_eq!(second.len(), 64);
    assert_ne!(first, second);
    assert_eq!(gfty::artifact_cache::hex(&[0x00, 0x0f, 0xf0, 0xff]), "000ff0ff");
}

#[test]
fn request_directories_sit_below_the_root() {
    let cache = ArtifactCache { root: "cache".to_owned() };
    let key = sha256_hex(b"request");
    let directory = cache.directory(&key);
    assert!(directory.starts_with("cache"));
    assert!(directory.ends_with(&key));
    assert!(directory.len() > key.len());
}

#[test]
fn a_stored_preview_survives_storing_the_step() {
    let cache = ArtifactCache { root: "cache".to_owned() };
    let png = [0x89, b'P', b'N', b'G', 13, 10, 26, 10, 1, 2, 3];
    let step = b"ISO-10303-21;".to_vec();
    let first = cache.store_preview(None, "request", &png).unwrap();
    let after = cache.store_step(Some(first), "request", &step);
    assert!(check_manifest(&after, "request").is_ok());
    assert!(verify_hash(&png, after.preview_sha256.as_deref().unwrap()).is_ok());
    assert!(verify_hash(&step, after.step_sha256.as_deref().unwrap()).is_ok());
    assert_eq!(after.step_sha256.as_deref(), Some(sha256_hex(&step).as_str()));
}

#[test]
fn request_keys_ignore_user_facing_names() {
    let parts = vec!["SwappableLabel".to_owned()];
    let first = ArtifactCache::key("geometry-key", "https://cad.onshape.com/model", &parts);
    let second = ArtifactCache::key("geometry-key", "https://cad.onshape.com/model", &parts);
    assert_eq!(first, second);
}

#[test]
fn request_keys_hash_the_canonical_request_json() {
    let parts = vec!["SwappableLabel".to_owned()];
    assert_eq!(
        ArtifactCache::key("geometry-key", "https://cad.onshape.com/model", &parts),
        "75ba9ae873ad74cfccf6d79fcb00d0d012cba42e090cdff7c418586d0072d5ee"
    );
    assert_ne!(
        ArtifactCache::key("other-key", "https://cad.onshape.com/model", &parts),
        ArtifactCache::key("geometry-key", "https://cad.onshape.com/model", &parts)
    );
}
