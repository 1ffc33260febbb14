//! The small command-facing helpers around the tree: a greeting, the port
//! pass-through, application information, and the pure computations of the
//! notification icon cache (content key, glob pattern, file name, URL check).

use vstd::prelude::*;

use crate::encoding::{dec_str, push_dec, push_str_part};
use crate::error::TocError;

verus! {

/// The greeting text for `name`.
pub fn greet(name: &str) -> (r: String)
    ensures
        r@ == "Hello, "@ + name@ + "! You've been greeted from Rust!"@,
{
    let mut out = String::new();
    push_str_part(&mut out, "Hello, ");
    push_str_part(&mut out, name);
    push_str_part(&mut out, "! You've been greeted from Rust!");
    proof {
        assert(out@ =~= "Hello, "@ + name@ + "! You've been greeted from Rust!"@);
    }
    out
}

/// Returns the port number the host process chose, unchanged.
pub fn get_port(port: u16) -> (r: u16)
    ensures
        r == port,
{
    port
}

/// Application information handed to the front end.
#[derive(Debug)]
pub struct AppInfo {
    pub name: String,
    /// App version
    pub version: String,
    /// The crate authors.
    pub authors: &'static str,
    /// The crate description.
    pub description: &'static str,
    pub webview_version: String,
}

/// Builds the application information record: the version triple is printed
/// as dotted decimals, and a missing webview version reads `unknown`.
pub fn app_info(
    name: String,
    major: u64,
    minor: u64,
    patch: u64,
    authors: &'static str,
    description: &'static str,
    webview_version: Option<String>,
) -> (r: AppInfo)
    ensures
        r.name == name,
        r.version@ == dec_str(major as nat) + "."@ + dec_str(minor as nat) + "."@ + dec_str(
            patch as nat,
        ),
        r.authors == authors,
        r.description == description,
        match webview_version {
            Some(v) => r.webview_version == v,
            None => r.webview_version@ == "unknown"@,
        },
{
    let mut version = String::new();
    push_dec(&mut version, major as u128);
    push_str_part(&mut version, ".");
    push_dec(&mut version, minor as u128);
    push_str_part(&mut version, ".");
    push_dec(&mut version, patch as u128);
    proof {
        assert(version@ =~= dec_str(major as nat) + "."@ + dec_str(minor as nat) + "."@ + dec_str(
            patch as nat,
        ));
    }
    let webview = match webview_version {
        Some(v) => v,
        None => {
            let mut w = String::new();
            push_str_part(&mut w, "unknown");
            proof {
                assert(w@ =~= "unknown"@);
            }
            w
        },
    };
    AppInfo { name, version, authors, description, webview_version: webview }
}

/// The parameters of one desktop notification.
#[derive(Debug, Clone)]
pub struct NotificationParams {
    pub title: String,
    pub body: String,
    pub icon: Option<String>,
}

/// The hex digest that sha256 computes of a text; it depends on the
/// characters alone.
pub uninterp spec fn digest_of(s: Seq<char>) -> Seq<char>;

/// Whether a text parses as an absolute URL; it depends on the characters
/// alone.
pub uninterp spec fn is_url(s: Seq<char>) -> bool;

/// The extension table entry that mime_guess holds for a mime type; it
/// depends on the characters alone.
pub uninterp spec fn mime_exts_of(m: Seq<char>) -> Option<Seq<Seq<char>>>;

/// Relies on sha256::digest: the hex digest of the input bytes, a function of
/// the input alone.
#[verifier::external_body]
fn sha256_hex(s: &str) -> (r: String)
    ensures
        r@ == digest_of(s@),
{
    sha256::digest(s)
}

/// Relies on url::Url::parse: whether the text is a well-formed absolute URL,
/// a function of the text alone.
#[verifier::external_body]
fn url_parses(s: &str) -> (r: bool)
    ensures
        r == is_url(s@),
{
    url::Url::parse(s).is_ok()
}

/// Relies on mime_guess::get_mime_extensions_str: the static list of file
/// extensions registered for a mime type, a function of the text alone.
#[verifier::external_body]
fn mime_extensions(m: &str) -> (r: Option<Vec<String>>)
    ensures
        match r {
            None => mime_exts_of(m@) is None,
            Some(v) => mime_exts_of(m@) matches Some(e) && v.deep_view() == e,
        },
{
    match mime_guess::get_mime_extensions_str(m) {
        None => None,
        Some(arr) => {
            let mut v: Vec<String> = Vec::new();
            for s in arr.iter() {
                v.push(s.to_string());
            }
            Some(v)
        },
    }
}

/// The file extension chosen for a downloaded icon of the given mime type:
/// the first registered extension, or `png` when the registered list is empty.
pub open spec fn ext_of(m: Seq<char>) -> Seq<char> {
    match mime_exts_of(m) {
        Some(e) => if e.len() > 0 {
            e[0]
        } else {
            "png"@
        },
        None => "png"@,
    }
}

/// Checks the icon URL as the notification flow does before downloading:
/// exactly the well-formed absolute URLs pass.
pub fn check_icon_url(icon: &str) -> (r: Result<(), TocError>)
    ensures
        r is Ok <==> is_url(icon@),
        r matches Err(e) ==> e matches TocError::Other(msg) && msg@ == "Failed to parse icon URL"@,
{
    if url_parses(icon) {
        Ok(())
    } else {
        let mut msg = String::new();
        push_str_part(&mut msg, "Failed to parse icon URL");
        proof {
            assert(msg@ =~= "Failed to parse icon URL"@);
        }
        Err(TocError::Other(msg))
    }
}

/// The glob pattern that finds a cached icon: the content digest of the URL,
/// followed by any extension.
pub fn icon_glob_pattern(icon: &str) -> (r: String)
    ensures
        r@ == digest_of(icon@) + ".*"@,
{
    let mut key = sha256_hex(icon);
    push_str_part(&mut key, ".*");
    proof {
        assert(key@ =~= digest_of(icon@) + ".*"@);
    }
    key
}

/// The cache file name of a freshly downloaded icon: the content digest of
/// the URL, a dot, and the extension chosen for the response's mime type.
/// Fails exactly when the mime type has no registered extension list.
pub fn icon_file_name(icon: &str, mime: &str) -> (r: Result<String, TocError>)
    ensures
        r is Ok <==> mime_exts_of(mime@) is Some,
        r matches Ok(name) ==> name@ == digest_of(icon@) + "."@ + ext_of(mime@),
        r matches Err(e) ==> e matches TocError::Other(msg) && msg@
            == "Failed to get extensions from content type"@,
{
    let exts = match mime_extensions(mime) {
        Some(v) => v,
        None => {
            let mut msg = String::new();
            push_str_part(&mut msg, "Failed to get extensions from content type");
            proof {
                assert(msg@ =~= "Failed to get extensions from content type"@);
            }
            return Err(TocError::Other(msg));
        },
    };
    let mut name = sha256_hex(icon);
    push_str_part(&mut name, ".");
    if exts.len() > 0 {
        let e = &exts[0];
        push_str_part(&mut name, e.as_str());
        proof {
            assert(exts.deep_view()[0] == exts@[0]@);
            assert(name@ =~= digest_of(icon@) + "."@ + ext_of(mime@));
        }
    } else {
        push_str_part(&mut name, "png");
        proof {
            assert(name@ =~= digest_of(icon@) + "."@ + ext_of(mime@));
        }
    }
    Ok(name)
}

} // verus!
