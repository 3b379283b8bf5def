//! Addresses of remote files: URLs taken apart, and object paths.
use crate::text;
use crate::text::trim_start_slashes;
use vstd::prelude::*;
use vstd::string::*;

verus! {

/// The parts of a URL that address a file.
#[derive(Debug)]
pub struct UrlParts {
    pub scheme: String,
    pub host: Option<String>,
    pub path: String,
}

impl UrlParts {
    /// Scheme, host and path as texts.
    pub open spec fn texts(self) -> (Seq<char>, Option<Seq<char>>, Seq<char>) {
        (
            self.scheme@,
            match self.host {
                Some(h) => Some(h@),
                None => None,
            },
            self.path@,
        )
    }
}

/// What `url::Url::parse` makes of a text: scheme, host and path, or nothing where it is
/// no absolute URL.
pub uninterp spec fn parsed_url(text: Seq<char>) -> Option<(Seq<char>, Option<Seq<char>>, Seq<char>)>;

/// Trusted: `url::Url::parse`, its result read by `scheme`, `host_str` and `path`, is
/// determined by the text alone. What it is, is named and not stated.
#[verifier::external_body]
fn parse_url(text: &str) -> (r: Option<UrlParts>)
    ensures
        match r {
            Some(p) => parsed_url(text@) == Some(p.texts()),
            None => parsed_url(text@) is None,
        },
{
    match url::Url::parse(text) {
        Ok(u) => Some(UrlParts {
            scheme: u.scheme().to_string(),
            host: u.host_str().map(|h| h.to_string()),
            path: u.path().to_string(),
        }),
        Err(_) => None,
    }
}

/// What `object_store::path::Path::from` makes of a text.
pub uninterp spec fn object_path_of(text: Seq<char>) -> Seq<char>;

/// There is something between the slashes of a text.
pub open spec fn has_segment(text: Seq<char>) -> bool {
    exists|i: int| 0 <= i < text.len() && #[trigger] text[i] != '/'
}

/// Two texts with a slash between them.
pub open spec fn slashed(a: Seq<char>, b: Seq<char>) -> Seq<char> {
    a + seq!['/'] + b
}

/// The object path of a text is made part by part: wherever the text is parted at a slash,
/// it is the paths of both parts, the second of them not empty, with a slash between them,
/// or that of the one part that has a segment. Without any segment it is empty.
pub open spec fn made_by_parts(text: Seq<char>, path: Seq<char>) -> bool {
    &&& has_segment(text) <==> path.len() > 0
    &&& forall|a: Seq<char>, b: Seq<char>|
        text == #[trigger] slashed(a, b) ==> if has_segment(a) && has_segment(b) {
            path == slashed(object_path_of(a), object_path_of(b)) && path.len() > object_path_of(
                a,
            ).len() + 1
        } else if has_segment(a) {
            path == object_path_of(a)
        } else {
            path == object_path_of(b)
        }
}

/// Trusted: `object_store::path::Path::from` is determined by the text alone: its
/// segments between slashes, empty ones left out, with reserved characters
/// percent-encoded, and slashes between them. What the encoding is, is named and not
/// stated.
#[verifier::external_body]
pub(crate) fn object_path(text: &str) -> (path: String)
    ensures
        path@ == object_path_of(text@),
        made_by_parts(text@, path@),
{
    String::from(object_store::path::Path::from(text))
}

/// Where a remote file is: the store that serves it and its path there.
#[derive(Debug)]
pub struct FileLocation {
    pub base: String,
    pub path: String,
}

/// The base URL of a store: scheme and host, without port.
pub open spec fn store_base(parts: (Seq<char>, Option<Seq<char>>, Seq<char>)) -> Seq<char> {
    parts.0 + "://"@ + match parts.1 {
        Some(h) => h,
        None => "localhost"@,
    }
}

/// Where the file of a URL is, given the parts of the URL.
pub fn locate_parts(parts: &UrlParts) -> (at: FileLocation)
    ensures
        at.base@ == store_base(parts.texts()),
        parts.host matches Some(h) ==> at.base@ == parts.scheme@ + "://"@ + h@,
        parts.host is None ==> at.base@ == parts.scheme@ + "://"@ + "localhost"@,
        at.path@ == object_path_of(text::without_start_slashes(parts.path@)),
{
    let mut base = parts.scheme.clone();
    base.append("://");
    match &parts.host {
        Some(h) => base.append(h.as_str()),
        None => base.append("localhost"),
    }
    let trimmed = trim_start_slashes(parts.path.as_str());
    FileLocation { base, path: object_path(trimmed.as_str()) }
}

/// Where the file of a URL is; `None` where the text is no absolute URL.
pub fn locate(url: &str) -> (r: Option<FileLocation>)
    ensures
        r is None <==> parsed_url(url@) is None,
        r matches Some(at) ==> at.base@ == store_base(parsed_url(url@)->0) && at.path@
            == object_path_of(text::without_start_slashes((parsed_url(url@)->0).2)),
{
    match parse_url(url) {
        Some(parts) => Some(locate_parts(&parts)),
        None => None,
    }
}

} // verus!
