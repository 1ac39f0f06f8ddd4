//! The decisions of the Onshape export client: which model URLs are
//! accepted, how requests are signed, how configuration values are encoded,
//! and what a finished translation or a shaded view must hold.
use vstd::prelude::*;
use crate::credentials::Credentials;
use crate::hexcolor::lowercase;
use vstd::utf8::encode_utf8;
use crate::strings::{chars_of, debug_quoted, debug_text, decimal_digits, decimal_string, has_suffix, ends_with, push_char, push_str, string_of, strings_view};

verus! {

broadcast use vstd::string::group_string_axioms;

/// An immutable Onshape part studio: origin and document, version and
/// element IDs.
#[derive(Debug, Clone)]
pub struct ModelTarget {
    pub origin: String,
    pub document_id: String,
    pub version_id: String,
    pub element_id: String,
}

/// The parts of a parsed URL that a model target reads: scheme, host, port
/// and path segments (`None` for a URL that cannot be a base).
#[derive(Debug, Clone)]
pub struct UrlParts {
    pub scheme: String,
    pub host: Option<String>,
    pub port: Option<u16>,
    pub segments: Option<Vec<String>>,
}

pub open spec fn optional_text(value: Option<String>) -> Option<Seq<char>> {
    match value {
        Some(text) => Some(text@),
        None => None,
    }
}

pub open spec fn optional_segments(value: Option<Vec<String>>) -> Option<Seq<Seq<char>>> {
    match value {
        Some(segments) => Some(strings_view(segments@)),
        None => None,
    }
}

/// The scheme, host, port and path segments that `url::Url::parse` finds in
/// a text, or `None` when it rejects the text.
pub uninterp spec fn parsed_url(value: Seq<char>) -> Option<(Seq<char>, Option<Seq<char>>, Option<u16>, Option<Seq<Seq<char>>>)>;

/// `reqwest::Url::parse` (the `url` crate): parses a URL; the parts it finds
/// are named by [`parsed_url`].
#[verifier::external_body]
fn parse_url(value: &str) -> (r: Option<UrlParts>)
    ensures
        match r {
            None => parsed_url(value@) is None,
            Some(p) => parsed_url(value@) == Some(
                (p.scheme@, optional_text(p.host), p.port, optional_segments(p.segments)),
            ),
        },
{
    match reqwest::Url::parse(value) {
        Ok(url) => Some(UrlParts {
            scheme: url.scheme().to_owned(),
            host: url.host_str().map(str::to_owned),
            port: url.port(),
            segments: url.path_segments().map(|segments| segments.map(str::to_owned).collect()),
        }),
        Err(_) => None,
    }
}

/// Why an Onshape model URL or ID was rejected.
#[derive(Debug, Clone, PartialEq, Eq)]
pub enum TargetError {
    InvalidUrl { value: String },
    NotHttps,
    NoHost,
    ForeignHost,
    NotBase,
    MissingPath,
    WorkspaceUrl,
    InvalidId { kind: String },
}

impl TargetError {
    /// The text that reports this error.
    pub fn message(&self) -> (m: String)
        ensures
            m@ == match self {
                TargetError::InvalidUrl { value } => "invalid Onshape model URL "@ + debug_quoted(value@),
                TargetError::NotHttps => "Onshape model URL must use HTTPS"@,
                TargetError::NoHost => "Onshape model URL has no host"@,
                TargetError::ForeignHost => "Onshape model URL host must be onshape.com or one of its subdomains"@,
                TargetError::NotBase => "Onshape model URL cannot be a base URL"@,
                TargetError::MissingPath => "Onshape model URL must contain /documents/DOCUMENT_ID/v/VERSION_ID/e/ELEMENT_ID"@,
                TargetError::WorkspaceUrl => "Onshape export requires an immutable version URL, not a workspace URL"@,
                TargetError::InvalidId { kind } => "Onshape "@ + kind@ + " ID must contain 24 hexadecimal digits"@,
            },
    {
        let mut m = String::new();
        match self {
            TargetError::InvalidUrl { value } => {
                push_str(&mut m, "invalid Onshape model URL ");
                let quoted = debug_text(value.as_str());
                push_str(&mut m, quoted.as_str());
            },
            TargetError::NotHttps => push_str(&mut m, "Onshape model URL must use HTTPS"),
            TargetError::NoHost => push_str(&mut m, "Onshape model URL has no host"),
            TargetError::ForeignHost => push_str(
                &mut m,
                "Onshape model URL host must be onshape.com or one of its subdomains",
            ),
            TargetError::NotBase => push_str(&mut m, "Onshape model URL cannot be a base URL"),
            TargetError::MissingPath => push_str(
                &mut m,
                "Onshape model URL must contain /documents/DOCUMENT_ID/v/VERSION_ID/e/ELEMENT_ID",
            ),
            TargetError::WorkspaceUrl => push_str(
                &mut m,
                "Onshape export requires an immutable version URL, not a workspace URL",
            ),
            TargetError::InvalidId { kind } => {
                push_str(&mut m, "Onshape ");
                push_str(&mut m, kind.as_str());
                push_str(&mut m, " ID must contain 24 hexadecimal digits");
            },
        }
        m
    }
}

pub open spec fn is_ascii_hex(c: char) -> bool {
    ('0' <= c && c <= '9') || ('a' <= c && c <= 'f') || ('A' <= c && c <= 'F')
}

/// An Onshape ID: 24 hexadecimal digits.
pub open spec fn valid_id(value: Seq<char>) -> bool {
    value.len() == 24 && forall|i: int| 0 <= i < 24 ==> is_ascii_hex(#[trigger] value[i])
}

/// Checks that an Onshape ID holds 24 hexadecimal digits.
pub fn validate_id(value: &str, kind: &str) -> (r: Result<(), TargetError>)
    ensures
        valid_id(value@) ==> r is Ok,
        !valid_id(value@) ==> (r matches Err(TargetError::InvalidId { kind: k }) && k@ == kind@),
{
    let chars = chars_of(value);
    if chars.len() != 24 {
        return Err(TargetError::InvalidId { kind: kind.to_owned() });
    }
    let mut i: usize = 0;
    while i < 24
        invariant
            i <= 24,
            chars@ == value@,
            chars@.len() == 24,
            forall|k: int| 0 <= k < i ==> is_ascii_hex(#[trigger] chars@[k]),
        decreases 24 - i,
    {
        let c = chars[i];
        if !(('0' <= c && c <= '9') || ('a' <= c && c <= 'f') || ('A' <= c && c <= 'F')) {
            return Err(TargetError::InvalidId { kind: kind.to_owned() });
        }
        i = i + 1;
    }
    Ok(())
}

/// A host of Onshape: `onshape.com` or one of its subdomains.
pub open spec fn onshape_host(host: Seq<char>) -> bool {
    host == "onshape.com"@ || has_suffix(host, ".onshape.com"@)
}

/// The index of the first segment `documents`.
pub open spec fn documents_index(segments: Seq<Seq<char>>) -> Option<int>
    decreases segments.len(),
{
    if segments.len() == 0 {
        None
    } else if segments[0] == "documents"@ {
        Some(0)
    } else {
        match documents_index(segments.drop_first()) {
            Some(i) => Some(i + 1),
            None => None,
        }
    }
}

pub proof fn lemma_documents_index(segments: Seq<Seq<char>>)
    ensures
        documents_index(segments) matches Some(i) ==> 0 <= i < segments.len(),
    decreases segments.len(),
{
    if segments.len() > 0 && segments[0] != "documents"@ {
        lemma_documents_index(segments.drop_first());
    }
}

/// `scheme://host[:port]`.
pub open spec fn origin_text(scheme: Seq<char>, host: Seq<char>, port: Option<u16>) -> Seq<char> {
    scheme + "://"@ + host + match port {
        Some(p) => ":"@ + decimal_digits(p as nat),
        None => seq![],
    }
}

/// The mathematical content of a [`TargetError`].
pub enum TargetFault {
    InvalidUrl(Seq<char>),
    NotHttps,
    NoHost,
    ForeignHost,
    NotBase,
    MissingPath,
    WorkspaceUrl,
    InvalidId(Seq<char>),
}

impl TargetError {
    pub open spec fn view(&self) -> TargetFault {
        match self {
            TargetError::InvalidUrl { value } => TargetFault::InvalidUrl(value@),
            TargetError::NotHttps => TargetFault::NotHttps,
            TargetError::NoHost => TargetFault::NoHost,
            TargetError::ForeignHost => TargetFault::ForeignHost,
            TargetError::NotBase => TargetFault::NotBase,
            TargetError::MissingPath => TargetFault::MissingPath,
            TargetError::WorkspaceUrl => TargetFault::WorkspaceUrl,
            TargetError::InvalidId { kind } => TargetFault::InvalidId(kind@),
        }
    }
}

/// What the path segments after `documents` stand for: the document,
/// version and element IDs, or the first reason to reject them.
pub open spec fn tail_outcome(tail: Seq<Seq<char>>) -> Result<(Seq<char>, Seq<char>, Seq<char>), TargetFault> {
    if tail.len() < 5 || tail[1] != "v"@ || tail[3] != "e"@ {
        if tail.len() >= 2 && tail[1] == "w"@ {
            Err(TargetFault::WorkspaceUrl)
        } else {
            Err(TargetFault::MissingPath)
        }
    } else if !valid_id(tail[0]) {
        Err(TargetFault::InvalidId("document"@))
    } else if !valid_id(tail[2]) {
        Err(TargetFault::InvalidId("version"@))
    } else if !valid_id(tail[4]) {
        Err(TargetFault::InvalidId("element"@))
    } else {
        Ok((tail[0], tail[2], tail[4]))
    }
}

/// What a model URL stands for: the model target's origin and IDs, or the
/// first reason to reject it.
pub open spec fn target_outcome(value: Seq<char>) -> Result<(Seq<char>, Seq<char>, Seq<char>, Seq<char>), TargetFault> {
    parts_outcome(value, parsed_url(value))
}

/// The parts of a parsed URL as plain values.
pub open spec fn url_view(parts: Option<UrlParts>) -> Option<(Seq<char>, Option<Seq<char>>, Option<u16>, Option<Seq<Seq<char>>>)> {
    match parts {
        Some(p) => Some((p.scheme@, optional_text(p.host), p.port, optional_segments(p.segments))),
        None => None,
    }
}

/// What a model URL stands for, given the parts that the URL parser found
/// in it (`None` where it rejected the text).
pub open spec fn parts_outcome(
    value: Seq<char>,
    parts: Option<(Seq<char>, Option<Seq<char>>, Option<u16>, Option<Seq<Seq<char>>>)>,
) -> Result<(Seq<char>, Seq<char>, Seq<char>, Seq<char>), TargetFault> {
    match parts {
        None => Err(TargetFault::InvalidUrl(value)),
        Some((scheme, host, port, segments)) => if scheme != "https"@ {
            Err(TargetFault::NotHttps)
        } else {
            match host {
                None => Err(TargetFault::NoHost),
                Some(h) => if !onshape_host(h) {
                    Err(TargetFault::ForeignHost)
                } else {
                    match segments {
                        None => Err(TargetFault::NotBase),
                        Some(s) => match documents_index(s) {
                            None => Err(TargetFault::MissingPath),
                            Some(d) => match tail_outcome(s.skip(d + 1)) {
                                Err(f) => Err(f),
                                Ok((document, version, element)) => Ok(
                                    (origin_text(scheme, h, port), document, version, element),
                                ),
                            },
                        },
                    }
                },
            }
        },
    }
}

fn same_text(a: &String, b: &str) -> (r: bool)
    ensures
        r == (a@ == b@),
{
    let other = b.to_owned();
    *a == other
}

impl ModelTarget {
    /// Parses an immutable Onshape part studio URL:
    /// `https://*.onshape.com/.../documents/D/v/V/e/E...` with 24-digit
    /// hexadecimal IDs.
    pub fn parse(value: &str) -> (r: Result<ModelTarget, TargetError>)
        ensures
            match target_outcome(value@) {
                Ok((origin, document, version, element)) => r matches Ok(t) && t.origin@ == origin
                    && t.document_id@ == document && t.version_id@ == version && t.element_id@
                    == element,
                Err(f) => r matches Err(e) && e.view() == f,
            },
    {
        let parts = parse_url(value);
        assert(url_view(parts) == parsed_url(value@));
        Self::from_parts(value, parts)
    }

    /// The model target of a URL, given the parts that the URL parser found
    /// in it (`None` where it rejected the text).
    pub fn from_parts(value: &str, parts: Option<UrlParts>) -> (r: Result<ModelTarget, TargetError>)
        ensures
            match parts_outcome(value@, url_view(parts)) {
                Ok((origin, document, version, element)) => r matches Ok(t) && t.origin@ == origin
                    && t.document_id@ == document && t.version_id@ == version && t.element_id@
                    == element,
                Err(f) => r matches Err(e) && e.view() == f,
            },
    {
        let parts = match parts {
            Some(parts) => parts,
            None => {
                return Err(TargetError::InvalidUrl { value: value.to_owned() });
            },
        };
        if !same_text(&parts.scheme, "https") {
            return Err(TargetError::NotHttps);
        }
        let host = match &parts.host {
            Some(host) => host,
            None => {
                return Err(TargetError::NoHost);
            },
        };
        if !same_text(host, "onshape.com") && !ends_with(host.as_str(), ".onshape.com") {
            return Err(TargetError::ForeignHost);
        }
        let segments = match &parts.segments {
            Some(segments) => segments,
            None => {
                return Err(TargetError::NotBase);
            },
        };
        let ghost sv = strings_view(segments@);
        let mut d: usize = 0;
        assert(sv.skip(0) =~= sv);
        while d < segments.len() && !same_text(&segments[d], "documents")
            invariant
                d <= segments.len(),
                sv == strings_view(segments@),
                documents_index(sv) == match documents_index(sv.skip(d as int)) {
                    Some(k) => Some(k + d),
                    None => None,
                },
            decreases segments.len() - d,
        {
            assert(sv.skip(d as int).drop_first() =~= sv.skip(d + 1));
            d = d + 1;
        }
        if d == segments.len() {
            return Err(TargetError::MissingPath);
        }
        assert(sv.skip(d as int)[0] == sv[d as int]);
        let ghost tail = sv.skip(d + 1);
        let start = d + 1;
        let count = segments.len() - start;
        if count < 5 || !same_text(&segments[start + 1], "v") || !same_text(&segments[start + 3], "e") {
            if count >= 2 && same_text(&segments[start + 1], "w") {
                return Err(TargetError::WorkspaceUrl);
            }
            return Err(TargetError::MissingPath);
        }
        assert(tail[0] == segments@[start as int]@);
        assert(tail[2] == segments@[start + 2]@);
        assert(tail[4] == segments@[start + 4]@);
        validate_id(segments[start].as_str(), "document")?;
        validate_id(segments[start + 2].as_str(), "version")?;
        validate_id(segments[start + 4].as_str(), "element")?;
        let mut origin = parts.scheme.clone();
        push_str(&mut origin, "://");
        push_str(&mut origin, host.as_str());
        match parts.port {
            Some(port) => {
                push_str(&mut origin, ":");
                let digits = decimal_string(port as u64);
                push_str(&mut origin, digits.as_str());
            },
            None => {},
        }
        Ok(
            ModelTarget {
                origin,
                document_id: segments[start].clone(),
                version_id: segments[start + 2].clone(),
                element_id: segments[start + 4].clone(),
            },
        )
    }
}

/// Bytes that form encoding keeps as they are.
pub open spec fn unreserved(b: u8) -> bool {
    (65 <= b <= 90) || (97 <= b <= 122) || (48 <= b <= 57) || b == 45 || b == 95 || b == 46 || b
        == 126
}

/// An upper-case hexadecimal digit.
pub open spec fn upper_hex(d: int) -> char {
    if d < 10 {
        (48 + d) as char
    } else {
        (55 + d) as char
    }
}

/// The form encoding of one byte: unreserved bytes stay, a space becomes
/// `+`, and every other byte becomes `%` and two upper-case hex digits.
pub open spec fn form_byte(b: u8) -> Seq<char> {
    if unreserved(b) {
        seq![b as char]
    } else if b == 32 {
        seq!['+']
    } else {
        seq!['%', upper_hex((b / 16) as int), upper_hex((b % 16) as int)]
    }
}

/// The form encoding of a byte sequence.
pub open spec fn form_encoded(bytes: Seq<u8>) -> Seq<char>
    decreases bytes.len(),
{
    if bytes.len() == 0 {
        seq![]
    } else {
        form_encoded(bytes.drop_last()) + form_byte(bytes.last())
    }
}

fn upper_hex_digit(d: u8) -> (c: char)
    requires
        d < 16,
    ensures
        c == upper_hex(d as int),
{
    if d < 10 {
        (d + 48) as char
    } else {
        (d + 55) as char
    }
}

/// Encodes a configuration value the way `application/x-www-form-urlencoded`
/// does, byte by byte of its UTF-8 text.
pub fn form_encode(value: &str) -> (r: String)
    ensures
        r@ == form_encoded(encode_utf8(value@)),
{
    let bytes = value.as_bytes();
    let mut out: Vec<char> = Vec::new();
    let mut i: usize = 0;
    while i < bytes.len()
        invariant
            i <= bytes@.len(),
            bytes@ == encode_utf8(value@),
            out@ == form_encoded(bytes@.take(i as int)),
        decreases bytes.len() - i,
    {
        let b = bytes[i];
        assert(bytes@.take(i + 1).drop_last() =~= bytes@.take(i as int));
        if (65 <= b && b <= 90) || (97 <= b && b <= 122) || (48 <= b && b <= 57) || b == 45 || b
            == 95 || b == 46 || b == 126 {
            out.push(b as char);
        } else if b == 32 {
            out.push('+');
        } else {
            out.push('%');
            out.push(upper_hex_digit(b / 16));
            out.push(upper_hex_digit(b % 16));
        }
        assert(out@ =~= form_encoded(bytes@.take(i + 1)));
        i = i + 1;
    }
    assert(bytes@.take(bytes@.len() as int) =~= bytes@);
    string_of(&out)
}

/// The content type that every signed request declares.
pub open spec fn json_content_type() -> Seq<char> {
    "application/json;charset=UTF-8; qs=0.09"@
}

/// The text that an Onshape request signature covers: method, nonce, date,
/// content type, path and query, each followed by a line feed, in lower case.
pub open spec fn canonical_text(method: Seq<char>, nonce: Seq<char>, date: Seq<char>, path: Seq<char>, query: Seq<char>) -> Seq<char> {
    lowercase(
        method + "\n"@ + nonce + "\n"@ + date + "\n"@ + json_content_type() + "\n"@ + path + "\n"@
            + query + "\n"@,
    )
}

/// The canonical text of a request, as its signature covers it.
pub fn canonical_request(method: &str, nonce: &str, date: &str, path: &str, query: &str) -> (r:
    String)
    ensures
        r@ == canonical_text(method@, nonce@, date@, path@, query@),
{
    let mut text = String::new();
    push_str(&mut text, method);
    push_str(&mut text, "\n");
    push_str(&mut text, nonce);
    push_str(&mut text, "\n");
    push_str(&mut text, date);
    push_str(&mut text, "\n");
    push_str(&mut text, "application/json;charset=UTF-8; qs=0.09");
    push_str(&mut text, "\n");
    push_str(&mut text, path);
    push_str(&mut text, "\n");
    push_str(&mut text, query);
    push_str(&mut text, "\n");
    let chars = chars_of(text.as_str());
    let mut lower: Vec<char> = Vec::new();
    let mut i: usize = 0;
    while i < chars.len()
        invariant
            i <= chars.len(),
            lower@ == lowercase(chars@.take(i as int)),
        decreases chars.len() - i,
    {
        lower.push(crate::hexcolor::ascii_lower_char(chars[i]));
        i = i + 1;
        assert(lower@ =~= lowercase(chars@.take(i as int)));
    }
    assert(chars@.take(chars.len() as int) =~= chars@);
    string_of(&lower)
}

/// The HMAC-SHA256 of a message under a key, as the `hmac` crate computes it.
pub uninterp spec fn hmac_sha256_mac(key: Seq<u8>, message: Seq<u8>) -> Seq<u8>;

/// `hmac::Hmac::<sha2::Sha256>`: `new_from_slice` with the key, `update`
/// with the message, `finalize`. `new_from_slice` accepts keys of any length
/// in the crate's source. The tag is named by [`hmac_sha256_mac`].
#[verifier::external_body]
fn hmac_sha256(key: &[u8], message: &[u8]) -> (r: Vec<u8>)
    ensures
        r@ == hmac_sha256_mac(key@, message@),
{
    let mut mac = <hmac::Hmac<sha2::Sha256> as hmac::Mac>::new_from_slice(key).expect(
        "HMAC can take key of any size",
    );
    hmac::Mac::update(&mut mac, message);
    hmac::Mac::finalize(mac).into_bytes().to_vec()
}

/// The digit of standard base64 (RFC 4648 alphabet) for a six-bit value.
pub open spec fn base64_digit(v: int) -> char {
    if v < 26 {
        (65 + v) as char
    } else if v < 52 {
        (97 + v - 26) as char
    } else if v < 62 {
        (48 + v - 52) as char
    } else if v == 62 {
        '+'
    } else {
        '/'
    }
}

/// The padded standard base64 text of some bytes (RFC 4648): each group of
/// three bytes becomes four digits, and a last group of one or two bytes
/// becomes two or three digits followed by `=` padding.
pub open spec fn base64_text(bytes: Seq<u8>) -> Seq<char>
    decreases bytes.len(),
{
    if bytes.len() == 0 {
        Seq::empty()
    } else if bytes.len() == 1 {
        let a = bytes[0] as int;
        seq![base64_digit(a / 4), base64_digit((a % 4) * 16), '=', '=']
    } else if bytes.len() == 2 {
        let a = bytes[0] as int;
        let b = bytes[1] as int;
        seq![
            base64_digit(a / 4),
            base64_digit((a % 4) * 16 + b / 16),
            base64_digit((b % 16) * 4),
            '=',
        ]
    } else {
        let a = bytes[0] as int;
        let b = bytes[1] as int;
        let c = bytes[2] as int;
        seq![
            base64_digit(a / 4),
            base64_digit((a % 4) * 16 + b / 16),
            base64_digit((b % 16) * 4 + c / 64),
            base64_digit(c % 64),
        ] + base64_text(bytes.skip(3))
    }
}

/// `base64::engine::general_purpose::STANDARD.encode`: the padded standard
/// base64 text of the bytes, as [`base64_text`] states it.
#[verifier::external_body]
fn base64_encode(bytes: &[u8]) -> (r: String)
    ensures
        r@ == base64_text(bytes@),
{
    base64::Engine::encode(&base64::engine::general_purpose::STANDARD, bytes)
}

/// The signature of a request: the base64 text of the HMAC-SHA256 of its
/// canonical text under the secret key.
pub fn request_signature(credentials: &Credentials, canonical: &str) -> (r: String)
    ensures
        r@ == base64_text(hmac_sha256_mac(encode_utf8(credentials.secret()), encode_utf8(canonical@))),
{
    let key = credentials.secret_key().as_bytes();
    let mac = hmac_sha256(key, canonical.as_bytes());
    base64_encode(mac.as_slice())
}

/// The `Authorization` header of a signed request.
pub fn authorization(credentials: &Credentials, signature: &str) -> (r: String)
    ensures
        r@ == "On "@ + credentials.access() + ":HmacSHA256:"@ + signature@,
{
    let mut text = String::new();
    push_str(&mut text, "On ");
    push_str(&mut text, credentials.access_key());
    push_str(&mut text, ":HmacSHA256:");
    push_str(&mut text, signature);
    text
}

/// The state of an Onshape translation.
#[derive(Debug, Clone, Copy, PartialEq, Eq, Structural)]
pub enum TranslationState {
    Active,
    Done,
    Failed,
}

/// What Onshape reports of a translation.
#[derive(Debug, Clone)]
pub struct TranslationResponse {
    pub id: String,
    pub request_state: TranslationState,
    pub failure_reason: Option<String>,
    pub result_external_data_ids: Option<Vec<String>>,
    pub result_document_id: Option<String>,
    pub version_id: Option<String>,
    pub workspace_id: Option<String>,
}

/// Why a finished translation cannot be downloaded.
#[derive(Debug, Clone, PartialEq, Eq)]
pub enum TranslationError {
    /// The translation failed, with Onshape's reason or a note that it gave none.
    Failed { reason: String },
    /// Onshape translated another version than the target's.
    UnexpectedVersion { expected: String, received: String },
    /// Onshape translated a mutable workspace.
    MutableWorkspace,
    /// The translation produced another number of files than one.
    ResultCount { count: usize },
}

pub open spec fn text_or(value: Option<String>, fallback: Seq<char>) -> Seq<char> {
    match value {
        Some(text) => text@,
        None => fallback,
    }
}

/// The document and external-data IDs to download from a finished
/// translation, or why it cannot be downloaded.
pub fn translation_result(target: &ModelTarget, translation: &TranslationResponse) -> (r: Result<
    (String, String),
    TranslationError,
>)
    ensures
        translation.request_state != TranslationState::Done ==> (r matches Err(
            TranslationError::Failed { reason },
        ) && reason@ == text_or(
            translation.failure_reason,
            "Onshape did not provide a failure reason"@,
        )),
        translation.request_state == TranslationState::Done && optional_text(translation.version_id)
            != Some(target.version_id@) ==> (r matches Err(
            TranslationError::UnexpectedVersion { expected, received },
        ) && expected@ == target.version_id@ && received@ == text_or(translation.version_id, "none"@)),
        translation.request_state == TranslationState::Done && optional_text(translation.version_id)
            == Some(target.version_id@) && translation.workspace_id is Some ==> r == Err::<
            (String, String),
            TranslationError,
        >(TranslationError::MutableWorkspace),
        translation.request_state == TranslationState::Done && optional_text(translation.version_id)
            == Some(target.version_id@) && translation.workspace_id is None ==> match translation.result_external_data_ids {
            Some(ids) if ids@.len() == 1 => r matches Ok((document, external)) && document@ == text_or(
                translation.result_document_id,
                target.document_id@,
            ) && external@ == ids@[0]@,
            Some(ids) => r == Err::<(String, String), TranslationError>(
                TranslationError::ResultCount { count: ids@.len() as usize },
            ),
            None => r == Err::<(String, String), TranslationError>(
                TranslationError::ResultCount { count: 0 },
            ),
        },
{
    if translation.request_state != TranslationState::Done {
        let reason = match &translation.failure_reason {
            Some(reason) => reason.clone(),
            None => "Onshape did not provide a failure reason".to_owned(),
        };
        return Err(TranslationError::Failed { reason });
    }
    let version_matches = match &translation.version_id {
        Some(version) => *version == target.version_id,
        None => false,
    };
    if !version_matches {
        let received = match &translation.version_id {
            Some(version) => version.clone(),
            None => "none".to_owned(),
        };
        return Err(TranslationError::UnexpectedVersion { expected: target.version_id.clone(), received });
    }
    if translation.workspace_id.is_some() {
        return Err(TranslationError::MutableWorkspace);
    }
    match &translation.result_external_data_ids {
        None => Err(TranslationError::ResultCount { count: 0 }),
        Some(ids) => {
            if ids.len() != 1 {
                return Err(TranslationError::ResultCount { count: ids.len() });
            }
            let document = match &translation.result_document_id {
                Some(document) => document.clone(),
                None => target.document_id.clone(),
            };
            Ok((document, ids[0].clone()))
        },
    }
}

/// The next wait between polls of a translation: twice the last one, at
/// most twenty seconds.
pub fn next_poll_delay(seconds: u64) -> (r: u64)
    ensures
        r == if 2 * seconds < 20 { 2 * seconds } else { 20 },
{
    if seconds < 10 {
        2 * seconds
    } else {
        20
    }
}

/// The images of a shaded view come as one image or a list of them.
#[derive(Debug, Clone)]
pub enum ShadedImageGroup {
    Image(String),
    Images(Vec<String>),
}

impl ShadedImageGroup {
    pub open spec fn view(&self) -> Seq<Seq<char>> {
        match self {
            ShadedImageGroup::Image(image) => seq![image@],
            ShadedImageGroup::Images(images) => strings_view(images@),
        }
    }

    /// The images of the group, in order.
    pub fn into_images(self) -> (r: Vec<String>)
        ensures
            strings_view(r@) == self.view(),
    {
        match self {
            ShadedImageGroup::Image(image) => {
                let mut images = Vec::new();
                images.push(image);
                assert(strings_view(images@) =~= seq![image@]);
                images
            },
            ShadedImageGroup::Images(images) => images,
        }
    }
}

/// The images of all groups, in order.
pub open spec fn all_images(groups: Seq<ShadedImageGroup>) -> Seq<Seq<char>>
    decreases groups.len(),
{
    if groups.len() == 0 {
        seq![]
    } else {
        all_images(groups.drop_last()) + groups.last().view()
    }
}

/// The bytes of a base64 text as the `base64` crate decodes it, or `None`
/// when it rejects the text.
pub uninterp spec fn base64_bytes(text: Seq<char>) -> Option<Seq<u8>>;

/// `base64::engine::general_purpose::STANDARD.decode`: the bytes of a
/// standard base64 text, named by [`base64_bytes`].
#[verifier::external_body]
fn base64_decode(text: &str) -> (r: Option<Vec<u8>>)
    ensures
        match r {
            Some(bytes) => base64_bytes(text@) == Some(bytes@),
            None => base64_bytes(text@) is None,
        },
{
    match base64::Engine::decode(&base64::engine::general_purpose::STANDARD, text) {
        Ok(bytes) => Some(bytes),
        Err(_) => None,
    }
}

/// The eight bytes that open every PNG file.
pub open spec fn png_signature() -> Seq<u8> {
    seq![0x89u8, 0x50u8, 0x4eu8, 0x47u8, 0x0du8, 0x0au8, 0x1au8, 0x0au8]
}

/// Whether bytes open with the PNG signature.
pub fn is_png(bytes: &[u8]) -> (r: bool)
    ensures
        r == (bytes@.len() >= 8 && bytes@.take(8) == png_signature()),
{
    if bytes.len() < 8 {
        return false;
    }
    let ok = bytes[0] == 0x89 && bytes[1] == 0x50 && bytes[2] == 0x4e && bytes[3] == 0x47 && bytes[4]
        == 0x0d && bytes[5] == 0x0a && bytes[6] == 0x1a && bytes[7] == 0x0a;
    if ok {
        assert(bytes@.take(8) =~= png_signature());
    } else {
        assert(bytes@.take(8) != png_signature()) by {
            if bytes@.take(8) == png_signature() {
                assert(bytes@.take(8)[0] == bytes@[0]);
                assert(bytes@.take(8)[1] == bytes@[1]);
                assert(bytes@.take(8)[2] == bytes@[2]);
                assert(bytes@.take(8)[3] == bytes@[3]);
                assert(bytes@.take(8)[4] == bytes@[4]);
                assert(bytes@.take(8)[5] == bytes@[5]);
                assert(bytes@.take(8)[6] == bytes@[6]);
                assert(bytes@.take(8)[7] == bytes@[7]);
            }
        }
    }
    ok
}

/// Why a shaded view gave no preview.
#[derive(Debug, Clone, Copy, PartialEq, Eq, Structural)]
pub enum PreviewError {
    /// The view held another number of images than one.
    ImageCount { count: usize },
    /// The image is not valid base64.
    InvalidBase64,
    /// The image is not a PNG.
    NotPng,
}

/// The PNG preview in a shaded view's images: exactly one image, valid
/// base64, opening with the PNG signature.
pub fn preview_image(groups: &Vec<ShadedImageGroup>) -> (r: Result<Vec<u8>, PreviewError>)
    ensures
        all_images(groups@).len() != 1 ==> r == Err::<Vec<u8>, PreviewError>(
            PreviewError::ImageCount { count: all_images(groups@).len() as usize },
        ),
        all_images(groups@).len() == 1 ==> match base64_bytes(all_images(groups@)[0]) {
            None => r == Err::<Vec<u8>, PreviewError>(PreviewError::InvalidBase64),
            Some(bytes) => if bytes.len() >= 8 && bytes.take(8) == png_signature() {
                r matches Ok(image) && image@ == bytes
            } else {
                r == Err::<Vec<u8>, PreviewError>(PreviewError::NotPng)
            },
        },
{
    let mut images: Vec<String> = Vec::new();
    let mut i: usize = 0;
    while i < groups.len()
        invariant
            i <= groups.len(),
            strings_view(images@) == all_images(groups@.take(i as int)),
        decreases groups.len() - i,
    {
        assert(groups@.take(i + 1).drop_last() =~= groups@.take(i as int));
        let ghost before = strings_view(images@);
        match &groups[i] {
            ShadedImageGroup::Image(image) => {
                images.push(image.clone());
                assert(strings_view(images@) =~= before + seq![image@]);
            },
            ShadedImageGroup::Images(list) => {
                let mut k: usize = 0;
                while k < list.len()
                    invariant
                        k <= list.len(),
                        strings_view(images@) == before + strings_view(list@.take(k as int)),
                    decreases list.len() - k,
                {
                    let ghost was = images@;
                    images.push(list[k].clone());
                    assert(strings_view(images@) =~= strings_view(was).push(list@[k as int]@));
                    assert(strings_view(list@.take(k + 1)) =~= strings_view(list@.take(k as int)).push(
                        list@[k as int]@,
                    ));
                    k = k + 1;
                    assert(strings_view(images@) =~= before + strings_view(list@.take(k as int)));
                }
                assert(list@.take(list.len() as int) =~= list@);
            },
        }
        i = i + 1;
    }
    assert(groups@.take(groups.len() as int) =~= groups@);
    if images.len() != 1 {
        return Err(PreviewError::ImageCount { count: images.len() });
    }
    assert(strings_view(images@)[0] == images@[0]@);
    match base64_decode(images[0].as_str()) {
        None => Err(PreviewError::InvalidBase64),
        Some(bytes) => {
            if is_png(bytes.as_slice()) {
                Ok(bytes)
            } else {
                Err(PreviewError::NotPng)
            }
        },
    }
}

impl TranslationError {
    /// The text that reports this error.
    pub fn message(&self) -> (m: String)
        ensures
            m@ == match self {
                TranslationError::Failed { reason } => "Onshape STEP translation failed: "@ + reason@,
                TranslationError::UnexpectedVersion { expected, received } => "Onshape translated an unexpected version: expected "@
                    + expected@ + ", received "@ + received@,
                TranslationError::MutableWorkspace => "Onshape unexpectedly translated a mutable workspace"@,
                TranslationError::ResultCount { count } => "Onshape STEP export returned "@
                    + decimal_digits(*count as nat)
                    + " external files; expected exactly one grouped STEP"@,
            },
    {
        let mut m = String::new();
        match self {
            TranslationError::Failed { reason } => {
                push_str(&mut m, "Onshape STEP translation failed: ");
                push_str(&mut m, reason.as_str());
            },
            TranslationError::UnexpectedVersion { expected, received } => {
                push_str(&mut m, "Onshape translated an unexpected version: expected ");
                push_str(&mut m, expected.as_str());
                push_str(&mut m, ", received ");
                push_str(&mut m, received.as_str());
            },
            TranslationError::MutableWorkspace => push_str(
                &mut m,
                "Onshape unexpectedly translated a mutable workspace",
            ),
            TranslationError::ResultCount { count } => {
                push_str(&mut m, "Onshape STEP export returned ");
                let n = decimal_string(*count as u64);
                push_str(&mut m, n.as_str());
                push_str(&mut m, " external files; expected exactly one grouped STEP");
            },
        }
        m
    }
}

impl PreviewError {
    /// The text that reports this error.
    pub fn message(&self) -> (m: String)
        ensures
            m@ == match *self {
                PreviewError::ImageCount { count } => "Onshape shaded view returned "@ + decimal_digits(
                    count as nat,
                ) + " images; expected exactly one"@,
                PreviewError::InvalidBase64 => "Onshape shaded view contains invalid base64 image data"@,
                PreviewError::NotPng => "Onshape shaded view is not a PNG image"@,
            },
    {
        let mut m = String::new();
        match *self {
            PreviewError::ImageCount { count } => {
                push_str(&mut m, "Onshape shaded view returned ");
                let n = decimal_string(count as u64);
                push_str(&mut m, n.as_str());
                push_str(&mut m, " images; expected exactly one");
            },
            PreviewError::InvalidBase64 => push_str(
                &mut m,
                "Onshape shaded view contains invalid base64 image data",
            ),
            PreviewError::NotPng => push_str(&mut m, "Onshape shaded view is not a PNG image"),
        }
        m
    }
}
} // verus!
