//! The decisions behind the commands the front end can invoke and the
//! requests the WebView makes: which local files may be opened or served,
//! which remote destinations may be handed to the system, and which
//! navigations are allowed.

use vstd::prelude::*;
use crate::links::{is_unc, spec_is_unc, spec_resolve};
use crate::markdown::{image_origin, open_scheme, spec_rewrite};
use crate::percent::{
    lemma_percent_round_trip, percent_decode, spec_percent_decode, spec_percent_encode,
};
use crate::text::{starts_with, str_eq, str_starts_with};

verus! {

/// Why a link target is not opened.
#[derive(PartialEq, Eq, Structural, Clone, Copy, Debug)]
pub enum FollowError {
    /// The target is not a well-formed percent-encoded path.
    MalformedTarget,
    /// The target names a host rather than a local file.
    NetworkPath,
}

impl FollowError {
    /// The message the front end is given.
    pub fn message(&self) -> (m: &'static str)
        ensures
            m@ == (match self {
                FollowError::MalformedTarget => "malformed target"@,
                FollowError::NetworkPath => "refusing to open a network path"@,
            }),
    {
        match self {
            FollowError::MalformedTarget => "malformed target",
            FollowError::NetworkPath => "refusing to open a network path",
        }
    }
}

/// The local path a clicked link asks to open in a new viewer window. The
/// target is always handed to the viewer itself and never to the shell, and
/// a network path is refused.
pub open spec fn spec_link_target(target: Seq<char>) -> Result<Seq<char>, FollowError> {
    match spec_percent_decode(target) {
        None => Err(FollowError::MalformedTarget),
        Some(p) => if spec_is_unc(p) {
            Err(FollowError::NetworkPath)
        } else {
            Ok(p)
        },
    }
}

/// The local path a clicked link asks to open (the percent-encoded part of
/// an `mdview-open:` destination), or why it is not opened.
pub fn link_target(target: &str) -> (r: Result<String, FollowError>)
    ensures
        r matches Ok(p) ==> !spec_is_unc(p@),
        match r {
            Ok(p) => spec_link_target(target@) == Ok::<Seq<char>, FollowError>(p@),
            Err(e) => spec_link_target(target@) == Err::<Seq<char>, FollowError>(e),
        },
{
    match percent_decode(target) {
        None => Err(FollowError::MalformedTarget),
        Some(p) => if is_unc(p.as_str()) {
            Err(FollowError::NetworkPath)
        } else {
            Ok(p)
        },
    }
}

/// A local link, once rewritten for the WebView, opens exactly the file its
/// destination resolved to: the target it carries decodes back to that path,
/// which is never refused as a network path. The same holds of a local
/// image, whose request names the resolved path and is not refused.
pub proof fn lemma_rewritten_link_opens_resolved_path(dest: Seq<char>, base: Seq<char>)
    requires
        spec_resolve(dest, base) is Some,
    ensures
        ({
            let p = spec_resolve(dest, base)->0;
            &&& spec_rewrite(Some((false, dest)), Some(base)) == Some(open_scheme() + spec_percent_encode(p))
            &&& spec_link_target(spec_percent_encode(p)) == Ok::<Seq<char>, FollowError>(p)
            &&& spec_rewrite(Some((true, dest)), Some(base)) == Some(image_origin() + spec_percent_encode(p))
            &&& spec_percent_decode(spec_percent_encode(p)) == Some(p)
            &&& spec_asset_path(spec_percent_encode(p)) == Ok::<Seq<char>, u16>(p)
        }),
{
    let p = spec_resolve(dest, base)->0;
    lemma_percent_round_trip(p);
}

/// A remote destination may be handed to whatever the system has registered
/// for it only when its scheme is `http`, `https` or `mailto`; the scheme is
/// checked here rather than trusted from the caller.
pub open spec fn spec_is_allowed_external(url: Seq<char>) -> bool {
    starts_with(url, "http://"@) || starts_with(url, "https://"@) || starts_with(url, "mailto:"@)
}

/// Exec form of [`spec_is_allowed_external`].
pub fn is_allowed_external(url: &str) -> (r: bool)
    ensures
        r == spec_is_allowed_external(url@),
{
    str_starts_with(url, "http://") || str_starts_with(url, "https://") || str_starts_with(
        url,
        "mailto:",
    )
}

/// Whether a navigation may proceed. Every navigation that would leave the
/// app's own origin is refused: `http`/`https` only to `tauri.localhost`,
/// `tauri:` and `about:` always, anything else never. With `dev_server`, the
/// local development server (`localhost`) is allowed too.
pub open spec fn spec_navigation_allowed(scheme: Seq<char>, host: Option<Seq<char>>, dev_server: bool) -> bool {
    if dev_server && host == Some("localhost"@) {
        true
    } else if scheme == "http"@ || scheme == "https"@ {
        host == Some("tauri.localhost"@)
    } else {
        scheme == "tauri"@ || scheme == "about"@
    }
}

/// Exec form of [`spec_navigation_allowed`].
pub fn navigation_allowed(scheme: &str, host: Option<&str>, dev_server: bool) -> (r: bool)
    ensures
        r == spec_navigation_allowed(scheme@, host.deep_view(), dev_server),
{
    let is_localhost = match host {
        Some(h) => str_eq(h, "localhost"),
        None => false,
    };
    if dev_server && is_localhost {
        return true;
    }
    if str_eq(scheme, "http") || str_eq(scheme, "https") {
        match host {
            Some(h) => str_eq(h, "tauri.localhost"),
            None => false,
        }
    } else {
        str_eq(scheme, "tauri") || str_eq(scheme, "about")
    }
}

/// The status of a refused image request: the path did not decode.
pub const STATUS_BAD_REQUEST: u16 = 400;

/// The status of a refused image request: the path names a host.
pub const STATUS_FORBIDDEN: u16 = 403;

/// The status of a refused image request: the file cannot be found or read.
pub const STATUS_NOT_FOUND: u16 = 404;

/// The path an image request names (the percent-encoded part of an `mdimg`
/// URL), or the status it is refused with: a path that does not decode is a
/// bad request, and a network path is forbidden before anything touches it.
pub open spec fn spec_asset_path(encoded: Seq<char>) -> Result<Seq<char>, u16> {
    match spec_percent_decode(encoded) {
        None => Err(STATUS_BAD_REQUEST),
        Some(p) => if spec_is_unc(p) {
            Err(STATUS_FORBIDDEN)
        } else {
            Ok(p)
        },
    }
}

/// The path an image request names, or the status it is refused with.
/// Failures are reported as status codes and never as page content; a
/// network path is refused here, before the path is canonicalised, since
/// canonicalising it would already reach out to the host it names.
pub fn asset_path(encoded: &str) -> (r: Result<String, u16>)
    ensures
        r matches Ok(p) ==> !spec_is_unc(p@),
        match r {
            Ok(p) => spec_asset_path(encoded@) == Ok::<Seq<char>, u16>(p@),
            Err(s) => spec_asset_path(encoded@) == Err::<Seq<char>, u16>(s),
        },
{
    match percent_decode(encoded) {
        Some(p) => if is_unc(p.as_str()) {
            Err(STATUS_FORBIDDEN)
        } else {
            Ok(p)
        },
        None => Err(STATUS_BAD_REQUEST),
    }
}

/// Whether the canonical form of a requested image path may be read, or the
/// status the request is refused with. It is checked again after
/// canonicalising: a junction or symlink part-way along an otherwise
/// ordinary path can still land on a network share.
pub fn asset_access(canonical: Option<String>) -> (r: Result<String, u16>)
    ensures
        match canonical {
            None => r == Err::<String, u16>(STATUS_NOT_FOUND),
            Some(c) => if spec_is_unc(c@) {
                r == Err::<String, u16>(STATUS_FORBIDDEN)
            } else {
                r matches Ok(p) && p@ == c@
            },
        },
{
    match canonical {
        None => Err(STATUS_NOT_FOUND),
        Some(c) => if is_unc(c.as_str()) {
            Err(STATUS_FORBIDDEN)
        } else {
            Ok(c)
        },
    }
}

} // verus!
