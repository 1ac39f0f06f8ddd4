//! The local cache of downloaded Onshape artifacts: content hashes, the
//! manifest that records them, and the checks made before an artifact is
//! stored or reused.
use vstd::prelude::*;
use crate::config::{adjoined, join_path, plain_name};
use crate::onshape::{is_png, png_signature};
use crate::strings::{push_str, string_of, strings_view};

verus! {

/// The manifest schema version.
pub const CACHE_VERSION: u32 = 1;

/// The SHA-256 digest of some bytes, as the `sha2` crate computes it.
pub uninterp spec fn sha256_digest(bytes: Seq<u8>) -> Seq<u8>;

/// `sha2::Sha256::digest`: the 32-byte SHA-256 digest of the bytes, named by
/// [`sha256_digest`].
#[verifier::external_body]
pub(crate) fn sha256(bytes: &[u8]) -> (r: Vec<u8>)
    ensures
        r@ == sha256_digest(bytes@),
        r@.len() == 32,
{
    <sha2::Sha256 as sha2::Digest>::digest(bytes).to_vec()
}

/// A lower-case hexadecimal digit.
pub open spec fn lower_hex(d: int) -> char {
    if d < 10 {
        (48 + d) as char
    } else {
        (87 + d) as char
    }
}

/// Two lower-case hexadecimal digits per byte.
pub open spec fn hex_text(bytes: Seq<u8>) -> Seq<char>
    decreases bytes.len(),
{
    if bytes.len() == 0 {
        seq![]
    } else {
        hex_text(bytes.drop_last()) + seq![
            lower_hex((bytes.last() / 16) as int),
            lower_hex((bytes.last() % 16) as int),
        ]
    }
}

proof fn lemma_lower_hex_injective(d1: int, d2: int)
    requires
        0 <= d1 < 16,
        0 <= d2 < 16,
        lower_hex(d1) == lower_hex(d2),
    ensures
        d1 == d2,
{
    assert(lower_hex(d1) as int == if d1 < 10 { 48 + d1 } else { 87 + d1 });
    assert(lower_hex(d2) as int == if d2 < 10 { 48 + d2 } else { 87 + d2 });
}

proof fn lemma_hex_text_len(a: Seq<u8>)
    ensures
        hex_text(a).len() == 2 * a.len(),
    decreases a.len(),
{
    if a.len() > 0 {
        lemma_hex_text_len(a.drop_last());
    }
}

/// Hex text is faithful: it has two characters per byte, and different
/// bytes (so different digests of cached artifacts) never share a text.
pub proof fn lemma_hex_text_is_faithful(a: Seq<u8>, b: Seq<u8>)
    ensures
        hex_text(a).len() == 2 * a.len(),
        hex_text(a) == hex_text(b) ==> a == b,
    decreases a.len(),
{
    lemma_hex_text_len(a);
    lemma_hex_text_len(b);
    if hex_text(a) == hex_text(b) && a.len() > 0 {
        let n = hex_text(a).len();
        let ha = hex_text(a.drop_last());
        let hb = hex_text(b.drop_last());
        lemma_hex_text_len(a.drop_last());
        lemma_hex_text_len(b.drop_last());
        let x = a.last();
        let y = b.last();
        assert(hex_text(a)[n - 2] == lower_hex((x / 16) as int));
        assert(hex_text(b)[n - 2] == lower_hex((y / 16) as int));
        assert(hex_text(a)[n - 1] == lower_hex((x % 16) as int));
        assert(hex_text(b)[n - 1] == lower_hex((y % 16) as int));
        lemma_lower_hex_injective((x / 16) as int, (y / 16) as int);
        lemma_lower_hex_injective((x % 16) as int, (y % 16) as int);
        assert(x == y);
        assert(ha =~= hex_text(a).take(n - 2));
        assert(hb =~= hex_text(b).take(n - 2));
        lemma_hex_text_is_faithful(a.drop_last(), b.drop_last());
        assert(a =~= a.drop_last().push(x));
        assert(b =~= b.drop_last().push(y));
    }
}

/// Bytes whose SHA-256 digest differs from that of the stored bytes never
/// match the digest text recorded for the stored bytes, so `verify_hash`
/// refuses them when they are read back in their place.
pub proof fn lemma_other_digests_are_refused(stored: Seq<u8>, read: Seq<u8>)
    ensures
        sha256_digest(read) != sha256_digest(stored) ==> hex_text(sha256_digest(read)) != hex_text(
            sha256_digest(stored),
        ),
{
    lemma_hex_text_is_faithful(sha256_digest(read), sha256_digest(stored));
}

fn lower_hex_digit(d: u8) -> (c: char)
    requires
        d < 16,
    ensures
        c == lower_hex(d as int),
{
    if d < 10 {
        (d + 48) as char
    } else {
        (d + 87) as char
    }
}

/// Bytes as lower-case hexadecimal text.
pub fn hex(bytes: &[u8]) -> (r: String)
    ensures
        r@ == hex_text(bytes@),
{
    let mut out: Vec<char> = Vec::new();
    let mut i: usize = 0;
    while i < bytes.len()
        invariant
            i <= bytes@.len(),
            out@ == hex_text(bytes@.take(i as int)),
        decreases bytes.len() - i,
    {
        assert(bytes@.take(i + 1).drop_last() =~= bytes@.take(i as int));
        out.push(lower_hex_digit(bytes[i] / 16));
        out.push(lower_hex_digit(bytes[i] % 16));
        i = i + 1;
        assert(out@ =~= hex_text(bytes@.take(i as int)));
    }
    assert(bytes@.take(bytes@.len() as int) =~= bytes@);
    string_of(&out)
}

/// The hexadecimal SHA-256 digest of some bytes.
pub fn sha256_hex(contents: &[u8]) -> (r: String)
    ensures
        r@ == hex_text(sha256_digest(contents@)),
{
    let digest = sha256(contents);
    hex(digest.as_slice())
}

/// Why a cached artifact or manifest was not used or stored.
#[derive(Debug, Clone, PartialEq, Eq)]
pub enum CacheError {
    /// The artifact's digest differs from the one the manifest records.
    HashMismatch { expected: String, actual: String },
    /// The manifest belongs to another schema version or request.
    IdentityMismatch,
    /// A preview is not a PNG image.
    NotPng,
}

/// Checks that an artifact has the digest that the manifest records.
pub fn verify_hash(contents: &[u8], expected: &str) -> (r: Result<(), CacheError>)
    ensures
        hex_text(sha256_digest(contents@)) == expected@ ==> r is Ok,
        hex_text(sha256_digest(contents@)) != expected@ ==> (r matches Err(
            CacheError::HashMismatch { expected: e, actual: a },
        ) && e@ == expected@ && a@ == hex_text(sha256_digest(contents@))),
{
    let actual = sha256_hex(contents);
    let wanted = expected.to_owned();
    if actual != wanted {
        return Err(CacheError::HashMismatch { expected: wanted, actual });
    }
    Ok(())
}

/// The manifest of one cache entry.
#[derive(Debug, Clone)]
pub struct CacheManifest {
    pub version: u32,
    pub request_key: String,
    pub step_sha256: Option<String>,
    pub preview_sha256: Option<String>,
}

/// Checks that a manifest read from the cache belongs to this schema version
/// and to the request it was looked up for.
pub fn check_manifest(manifest: &CacheManifest, key: &str) -> (r: Result<(), CacheError>)
    ensures
        r is Ok <==> manifest.version == CACHE_VERSION && manifest.request_key@ == key@,
        r is Err ==> r == Err::<(), CacheError>(CacheError::IdentityMismatch),
{
    let wanted = key.to_owned();
    if manifest.version != CACHE_VERSION || manifest.request_key != wanted {
        return Err(CacheError::IdentityMismatch);
    }
    Ok(())
}

/// The manifest to update: the stored one, or a fresh one for the request.
pub fn manifest_or_new(existing: Option<CacheManifest>, key: &str) -> (r: CacheManifest)
    ensures
        match existing {
            Some(m) => r == m,
            None => r.version == CACHE_VERSION && r.request_key@ == key@ && r.step_sha256 is None
                && r.preview_sha256 is None,
        },
{
    match existing {
        Some(manifest) => manifest,
        None => CacheManifest {
            version: CACHE_VERSION,
            request_key: key.to_owned(),
            step_sha256: None,
            preview_sha256: None,
        },
    }
}

/// The STEP digest that the stored manifest records, if any.
pub open spec fn kept_step_hash(existing: Option<CacheManifest>) -> Option<String> {
    match existing {
        Some(m) => m.step_sha256,
        None => None,
    }
}

/// The preview digest that the stored manifest records, if any.
pub open spec fn kept_preview_hash(existing: Option<CacheManifest>) -> Option<String> {
    match existing {
        Some(m) => m.preview_sha256,
        None => None,
    }
}

/// The version and request of the manifest to update.
pub open spec fn kept_identity(existing: Option<CacheManifest>, key: Seq<char>) -> (u32, Seq<char>) {
    match existing {
        Some(m) => (m.version, m.request_key@),
        None => (CACHE_VERSION, key),
    }
}

/// A preview stored in a fresh entry survives storing the STEP: when
/// `first` is what `store_preview` gives for no stored manifest and `after`
/// what `store_step` then gives for `first`, `after` belongs to the request
/// (so `check_manifest` accepts it) and records the digests of both files
/// (so `verify_hash` accepts each of them).
pub proof fn lemma_step_keeps_stored_preview(
    first: CacheManifest,
    after: CacheManifest,
    key: Seq<char>,
    png: Seq<u8>,
    step: Seq<u8>,
)
    requires
        first.preview_sha256 matches Some(h) && h@ == hex_text(sha256_digest(png)),
        first.step_sha256 == kept_step_hash(None),
        (first.version, first.request_key@) == kept_identity(None, key),
        after.step_sha256 matches Some(h) && h@ == hex_text(sha256_digest(step)),
        after.preview_sha256 == kept_preview_hash(Some(first)),
        (after.version, after.request_key@) == kept_identity(Some(first), key),
    ensures
        after.version == CACHE_VERSION,
        after.request_key@ == key,
        after.preview_sha256 matches Some(h) && hex_text(sha256_digest(png)) == h@,
        after.step_sha256 matches Some(h) && hex_text(sha256_digest(step)) == h@,
{
}

/// Texts paired with texts, as plain values.
pub open spec fn text_pairs_view(pairs: Seq<(String, String)>) -> Seq<(Seq<char>, Seq<char>)> {
    pairs.map_values(|p: (String, String)| (p.0@, p.1@))
}

/// Texts paired with lists of texts, as plain values.
pub open spec fn lists_view(lists: Seq<(String, Vec<String>)>) -> Seq<(Seq<char>, Seq<Seq<char>>)> {
    lists.map_values(|p: (String, Vec<String>)| (p.0@, strings_view(p.1@)))
}

/// Texts paired with flags, as plain values.
pub open spec fn flags_view(flags: Seq<(String, bool)>) -> Seq<(Seq<char>, bool)> {
    flags.map_values(|p: (String, bool)| (p.0@, p.1))
}

/// The bytes that `serde_json` writes for a JSON object with these string,
/// string-list and boolean members.
pub uninterp spec fn json_object(
    strings: Seq<(Seq<char>, Seq<char>)>,
    lists: Seq<(Seq<char>, Seq<Seq<char>>)>,
    flags: Seq<(Seq<char>, bool)>,
) -> Seq<u8>;

/// `serde_json::to_vec` of a `serde_json::Value` object built from the
/// members, named by [`json_object`]. Writing a value whose map keys are
/// strings cannot fail, so the `expect` never fires.
#[verifier::external_body]
fn json_object_bytes(
    strings: &Vec<(String, String)>,
    lists: &Vec<(String, Vec<String>)>,
    flags: &Vec<(String, bool)>,
) -> (r: Vec<u8>)
    ensures
        r@ == json_object(text_pairs_view(strings@), lists_view(lists@), flags_view(flags@)),
{
    let mut map = serde_json::Map::new();
    for (key, value) in strings {
        map.insert(key.clone(), serde_json::Value::from(value.as_str()));
    }
    for (key, values) in lists {
        map.insert(key.clone(), serde_json::Value::from(values.clone()));
    }
    for (key, value) in flags {
        map.insert(key.clone(), serde_json::Value::from(*value));
    }
    serde_json::to_vec(&serde_json::Value::Object(map)).expect("a JSON object serializes")
}

/// The text members of a STEP request: the request contract, the semantic
/// key of the geometry, the model, and the STEP options.
pub open spec fn request_texts(semantic_key: Seq<char>, model_url: Seq<char>) -> Seq<(Seq<char>, Seq<char>)> {
    seq![
        ("contract"@, "gfty-onshape-step-request/v1"@),
        ("semantic-key"@, semantic_key),
        ("model"@, model_url),
        ("format"@, "STEP"@),
        ("step-version"@, "AP242"@),
        ("unit"@, "MILLIMETER"@),
    ]
}

fn copy_strings(values: &Vec<String>) -> (r: Vec<String>)
    ensures
        strings_view(r@) == strings_view(values@),
{
    let mut r: Vec<String> = Vec::new();
    let mut i: usize = 0;
    while i < values.len()
        invariant
            i <= values.len(),
            r@.len() == i,
            forall|k: int| 0 <= k < i ==> #[trigger] r@[k]@ == values@[k]@,
        decreases values.len() - i,
    {
        r.push(values[i].clone());
        i = i + 1;
    }
    assert(strings_view(r@) =~= strings_view(values@));
    r
}

fn push_text_pair(pairs: &mut Vec<(String, String)>, key: &str, value: &str)
    ensures
        text_pairs_view(final(pairs)@) == text_pairs_view(old(pairs)@).push((key@, value@)),
{
    pairs.push((key.to_owned(), value.to_owned()));
    assert(text_pairs_view(pairs@) =~= text_pairs_view(old(pairs)@).push((key@, value@)));
}

impl ArtifactCache {
    /// The identity of one Onshape STEP request: the hex SHA-256 of the
    /// request's JSON, which holds the semantic key, the model, the part
    /// names and the STEP options, and no user-facing name or source path.
    pub fn key(semantic_key: &str, model_url: &str, part_names: &Vec<String>) -> (r: String)
        ensures
            r@ == hex_text(
                sha256_digest(
                    json_object(
                        request_texts(semantic_key@, model_url@),
                        seq![("parts"@, strings_view(part_names@))],
                        seq![("grouping"@, true)],
                    ),
                ),
            ),
    {
        let mut texts: Vec<(String, String)> = Vec::new();
        assert(text_pairs_view(texts@) =~= Seq::<(Seq<char>, Seq<char>)>::empty());
        push_text_pair(&mut texts, "contract", "gfty-onshape-step-request/v1");
        push_text_pair(&mut texts, "semantic-key", semantic_key);
        push_text_pair(&mut texts, "model", model_url);
        push_text_pair(&mut texts, "format", "STEP");
        push_text_pair(&mut texts, "step-version", "AP242");
        push_text_pair(&mut texts, "unit", "MILLIMETER");
        assert(text_pairs_view(texts@) == request_texts(semantic_key@, model_url@));
        let names = copy_strings(part_names);
        let mut lists: Vec<(String, Vec<String>)> = Vec::new();
        lists.push(("parts".to_owned(), names));
        assert(lists_view(lists@) =~= seq![("parts"@, strings_view(part_names@))]);
        let mut flags: Vec<(String, bool)> = Vec::new();
        flags.push(("grouping".to_owned(), true));
        assert(flags_view(flags@) =~= seq![("grouping"@, true)]);
        let bytes = json_object_bytes(&texts, &lists, &flags);
        sha256_hex(bytes.as_slice())
    }
}

/// Where the artifacts of one request are kept.
#[derive(Debug, Clone)]
pub struct ArtifactCache {
    pub root: String,
}

impl ArtifactCache {
    /// The directory of one request's artifacts, below the cache root. It is
    /// joined by the platform's path syntax; a plain key (a digest's hex text
    /// is one) always lands below the root.
    pub fn directory(&self, key: &str) -> (r: String)
        ensures
            plain_name(key@) ==> adjoined(r@, self.root@, key@),
    {
        join_path(self.root.as_str(), key)
    }

    /// The manifest after storing a STEP artifact: the stored or a fresh
    /// manifest with the artifact's digest.
    pub fn store_step(&self, existing: Option<CacheManifest>, key: &str, contents: &[u8]) -> (r:
        CacheManifest)
        ensures
            r.step_sha256 matches Some(h) && h@ == hex_text(sha256_digest(contents@)),
            r.preview_sha256 == kept_preview_hash(existing),
            (r.version, r.request_key@) == kept_identity(existing, key@),
    {
        let mut manifest = manifest_or_new(existing, key);
        manifest.step_sha256 = Some(sha256_hex(contents));
        manifest
    }

    /// The manifest after storing a preview, which must be a PNG image: the
    /// stored or a fresh manifest with the preview's digest.
    pub fn store_preview(&self, existing: Option<CacheManifest>, key: &str, contents: &[u8]) -> (r:
        Result<CacheManifest, CacheError>)
        ensures
            !(contents@.len() >= 8 && contents@.take(8) == png_signature()) ==> r == Err::<
                CacheManifest,
                CacheError,
            >(CacheError::NotPng),
            contents@.len() >= 8 && contents@.take(8) == png_signature() ==> (r matches Ok(m)
                && m.preview_sha256 matches Some(h) && h@ == hex_text(sha256_digest(contents@))
                && m.step_sha256 == kept_step_hash(existing) && (m.version, m.request_key@)
                == kept_identity(existing, key@)),
    {
        if !is_png(contents) {
            return Err(CacheError::NotPng);
        }
        let mut manifest = manifest_or_new(existing, key);
        manifest.preview_sha256 = Some(sha256_hex(contents));
        Ok(manifest)
    }
}

} // verus!
