//! Subscription and URL validation: HTTPS endpoints on allow-listed
//! hosts, key material of exactly the lengths Web Push requires, and the
//! delete-token gate for unsubscribing.
use vstd::prelude::*;
use vstd::string::{StringSliceAdditionalSpecFns, StrSliceExecFns, StringExecFns};
use vstd::utf8::encode_utf8;

use crate::b64::{b64url_decode, b64url_decoded};
use crate::error::{
    AppError, STATUS_BAD_REQUEST, STATUS_FORBIDDEN, STATUS_INTERNAL_SERVER_ERROR,
    STATUS_NOT_FOUND, STATUS_UNAUTHORIZED,
};
use crate::models::{PushSubscription, StoredSubscription};
use crate::strutil::{
    eq_ignore_ascii_case, str_eq, str_eq_ignore_ascii_case, trim_ascii, trimmed,
};

verus! {

/// What parsing a URI yields: nothing when it does not parse, else its
/// scheme and host, either of which the URI may lack. Named so that
/// contracts can speak of it; the parsing itself is the `http` crate's.
pub uninterp spec fn uri_parts(s: Seq<char>) -> Option<(Option<Seq<char>>, Option<Seq<char>>)>;

/// Relies on `http::Uri` parsing (`str::parse::<Uri>`, then `scheme_str`
/// and `host`): the outcome is a deterministic function of the string.
#[verifier::external_body]
fn parse_uri_parts(s: &str) -> (r: Option<(Option<String>, Option<String>)>)
    ensures
        match r {
            Some(p) => uri_parts(s@) == Some(
                (
                    match p.0 {
                        Some(ref x) => Some(x@),
                        None => None,
                    },
                    match p.1 {
                        Some(ref x) => Some(x@),
                        None => None,
                    },
                ),
            ),
            None => uri_parts(s@) is None,
        },
{
    match s.parse::<http::Uri>() {
        Ok(uri) => {
            let scheme = uri.scheme_str().map(|x| x.to_string());
            let host = uri.host().map(|x| x.to_string());
            Some((scheme, host))
        },
        Err(_) => None,
    }
}

/// The views of a host allow-list.
pub open spec fn host_views(allowed: Seq<String>) -> Seq<Seq<char>> {
    allowed.map_values(|s: String| s@)
}

/// A host passes an allow-list that is empty, contains `*`, or contains
/// it up to ASCII case.
pub open spec fn host_allowed_spec(host: Seq<char>, allowed: Seq<Seq<char>>) -> bool {
    ||| allowed.len() == 0
    ||| exists|i: int| 0 <= i < allowed.len() && #[trigger] allowed[i] == ("*")@
    ||| exists|i: int|
        0 <= i < allowed.len() && eq_ignore_ascii_case(#[trigger] allowed[i], host)
}

/// Decide whether `host` may receive pushes.
pub fn host_allowed(host: &str, allowed_hosts: &[String]) -> (r: bool)
    ensures
        r == host_allowed_spec(host@, host_views(allowed_hosts@)),
{
    let n = allowed_hosts.len();
    if n == 0 {
        return true;
    }
    let mut i: usize = 0;
    while i < n
        invariant
            n == allowed_hosts@.len(),
            i <= n,
            forall|j: int| 0 <= j < i ==> #[trigger] host_views(allowed_hosts@)[j] != ("*")@,
        decreases n - i,
    {
        if str_eq(vstd::slice::slice_index_get(allowed_hosts, i).as_str(), "*") {
            proof {
                assert(host_views(allowed_hosts@)[i as int] == ("*")@);
            }
            return true;
        }
        i = i + 1;
    }
    let mut i: usize = 0;
    while i < n
        invariant
            n == allowed_hosts@.len(),
            i <= n,
            forall|j: int|
                0 <= j < i ==> !eq_ignore_ascii_case(
                    #[trigger] host_views(allowed_hosts@)[j],
                    host@,
                ),
            forall|j: int| 0 <= j < n ==> #[trigger] host_views(allowed_hosts@)[j] != ("*")@,
        decreases n - i,
    {
        if str_eq_ignore_ascii_case(vstd::slice::slice_index_get(allowed_hosts, i).as_str(), host)
            {
            proof {
                assert(eq_ignore_ascii_case(host_views(allowed_hosts@)[i as int], host@));
            }
            return true;
        }
        i = i + 1;
    }
    false
}

/// The first reason a subscription is rejected, or nothing when it is
/// acceptable: the endpoint (after trimming) must be present, at most
/// 2048 bytes, an HTTPS URI with an allow-listed host, and the keys must
/// be URL-safe base64 of exactly 65 (`p256dh`) and 16 (`auth`) bytes.
pub open spec fn subscription_issue(
    endpoint: Seq<char>,
    p256dh: Seq<char>,
    auth: Seq<char>,
    allowed: Seq<Seq<char>>,
) -> Option<Seq<char>> {
    let e = trimmed(endpoint);
    if e.len() == 0 {
        Some(("endpoint required")@)
    } else if encode_utf8(e).len() > 2048 {
        Some(("endpoint too long")@)
    } else {
        match uri_parts(e) {
            None => Some(("invalid endpoint url")@),
            Some(parts) => {
                let scheme = match parts.0 {
                    Some(x) => x,
                    None => Seq::<char>::empty(),
                };
                if !eq_ignore_ascii_case(scheme, ("https")@) {
                    Some(("endpoint must be https")@)
                } else {
                    match parts.1 {
                        None => Some(("endpoint host missing")@),
                        Some(host) => {
                            if !host_allowed_spec(host, allowed) {
                                Some(("endpoint host not allowed")@)
                            } else if encode_utf8(p256dh).len() > 256 || encode_utf8(auth).len()
                                > 128 {
                                Some(("subscription keys too long")@)
                            } else {
                                match b64url_decoded(p256dh) {
                                    None => Some(("invalid p256dh")@),
                                    Some(pb) => {
                                        if pb.len() != 65 {
                                            Some(("invalid p256dh length")@)
                                        } else {
                                            match b64url_decoded(auth) {
                                                None => Some(("invalid auth")@),
                                                Some(ab) => {
                                                    if ab.len() != 16 {
                                                        Some(("invalid auth length")@)
                                                    } else {
                                                        None
                                                    }
                                                },
                                            }
                                        }
                                    },
                                }
                            }
                        },
                    }
                }
            },
        }
    }
}

/// Validate a subscription before it is persisted: accepted exactly when
/// no check finds an issue, and rejected with the first issue otherwise.
pub fn validate_subscription(subscription: &PushSubscription, allowed_hosts: &[String]) -> (r:
    Result<(), AppError>)
    ensures
        ({
            let issue = subscription_issue(
                subscription.endpoint@,
                subscription.keys.p256dh@,
                subscription.keys.auth@,
                host_views(allowed_hosts@),
            );
            match r {
                Ok(_) => issue is None,
                Err(e) => e.status == STATUS_BAD_REQUEST && issue == Some(e.message@),
            }
        }),
{
    let endpoint = trim_ascii(subscription.endpoint.as_str());
    if endpoint.is_empty() {
        return Err(AppError::new(STATUS_BAD_REQUEST, "endpoint required"));
    }
    if endpoint.as_bytes().len() > 2048 {
        return Err(AppError::new(STATUS_BAD_REQUEST, "endpoint too long"));
    }
    let parts = match parse_uri_parts(endpoint) {
        Some(p) => p,
        None => {
            return Err(AppError::new(STATUS_BAD_REQUEST, "invalid endpoint url"));
        },
    };
    let scheme_https = match parts.0 {
        Some(ref s) => str_eq_ignore_ascii_case(s.as_str(), "https"),
        None => {
            proof {
                assert(!eq_ignore_ascii_case(Seq::<char>::empty(), ("https")@)) by {
                    reveal_strlit("https");
                }
            }
            false
        },
    };
    if !scheme_https {
        return Err(AppError::new(STATUS_BAD_REQUEST, "endpoint must be https"));
    }
    let host = match parts.1 {
        Some(h) => h,
        None => {
            return Err(AppError::new(STATUS_BAD_REQUEST, "endpoint host missing"));
        },
    };
    if !host_allowed(host.as_str(), allowed_hosts) {
        return Err(AppError::new(STATUS_BAD_REQUEST, "endpoint host not allowed"));
    }
    if subscription.keys.p256dh.as_str().as_bytes().len() > 256
        || subscription.keys.auth.as_str().as_bytes().len() > 128 {
        return Err(AppError::new(STATUS_BAD_REQUEST, "subscription keys too long"));
    }
    let p256dh_bytes = match b64url_decode(subscription.keys.p256dh.as_str()) {
        Some(v) => v,
        None => {
            return Err(AppError::new(STATUS_BAD_REQUEST, "invalid p256dh"));
        },
    };
    if p256dh_bytes.len() != 65 {
        return Err(AppError::new(STATUS_BAD_REQUEST, "invalid p256dh length"));
    }
    let auth_bytes = match b64url_decode(subscription.keys.auth.as_str()) {
        Some(v) => v,
        None => {
            return Err(AppError::new(STATUS_BAD_REQUEST, "invalid auth"));
        },
    };
    if auth_bytes.len() != 16 {
        return Err(AppError::new(STATUS_BAD_REQUEST, "invalid auth length"));
    }
    Ok(())
}

/// An HTTPS scheme, compared without ASCII case.
pub open spec fn scheme_is_https(s: Option<Seq<char>>) -> bool {
    match s {
        Some(x) => eq_ignore_ascii_case(x, ("https")@),
        None => false,
    }
}

/// A host naming the local machine.
pub open spec fn host_is_localhost(h: Option<Seq<char>>) -> bool {
    match h {
        Some(x) => x == ("localhost")@ || x == ("127.0.0.1")@ || x == ("::1")@,
        None => false,
    }
}

/// The reason a public base URL is refused, or nothing when it is
/// acceptable: it must parse, and be HTTPS unless its host is localhost.
pub open spec fn base_url_issue(value: Seq<char>) -> Option<Seq<char>> {
    match uri_parts(value) {
        None => Some(("PUBLIC_BASE_URL is not a valid URL")@),
        Some(parts) => {
            if scheme_is_https(parts.0) || host_is_localhost(parts.1) {
                None
            } else {
                Some(("PUBLIC_BASE_URL must be https for non-localhost deployments")@)
            }
        },
    }
}

/// Refuse an insecure public base URL at startup.
pub fn ensure_secure_base_url(value: &str) -> (r: Result<(), AppError>)
    ensures
        match r {
            Ok(_) => base_url_issue(value@) is None,
            Err(e) => e.status == STATUS_INTERNAL_SERVER_ERROR && (base_url_issue(value@)
                matches Some(m) && m == e.message@),
        },
{
    let parts = match parse_uri_parts(value) {
        Some(p) => p,
        None => {
            return Err(
                AppError::new(STATUS_INTERNAL_SERVER_ERROR, "PUBLIC_BASE_URL is not a valid URL"),
            );
        },
    };
    let scheme_https = match parts.0 {
        Some(ref s) => str_eq_ignore_ascii_case(s.as_str(), "https"),
        None => false,
    };
    let is_localhost = match parts.1 {
        Some(ref h) => {
            let r1 = str_eq(h.as_str(), "localhost");
            let r2 = str_eq(h.as_str(), "127.0.0.1");
            let r3 = str_eq(h.as_str(), "::1");
            r1 || r2 || r3
        },
        None => false,
    };
    proof {
        let sparts = uri_parts(value@)->0;
        assert(scheme_https == scheme_is_https(sparts.0));
        assert(is_localhost == host_is_localhost(sparts.1));
    }
    if !scheme_https && !is_localhost {
        return Err(
            AppError::new(
                STATUS_INTERNAL_SERVER_ERROR,
                "PUBLIC_BASE_URL must be https for non-localhost deployments",
            ),
        );
    }
    Ok(())
}

/// `base` without trailing slashes.
pub open spec fn trim_trailing_slashes(s: Seq<char>) -> Seq<char>
    decreases s.len(),
{
    if s.len() > 0 && s.last() == '/' {
        trim_trailing_slashes(s.drop_last())
    } else {
        s
    }
}

proof fn lemma_trim_slash_take(s: Seq<char>, j: int)
    requires
        0 <= j <= s.len(),
        forall|k: int| j <= k < s.len() ==> #[trigger] s[k] == '/',
        j > 0 ==> s[j - 1] != '/',
    ensures
        trim_trailing_slashes(s) == s.take(j),
    decreases s.len() - j,
{
    if j == s.len() {
        assert(s.take(j) =~= s);
    } else {
        assert(s.last() == '/');
        lemma_trim_slash_take(s.drop_last(), j);
        assert(s.drop_last().take(j) =~= s.take(j));
    }
}

/// The webhook URL of a subscription: the base URL, cleaned of trailing
/// slashes, then a slash and the subscription id.
pub fn subscription_url(base: &str, uuid: &str) -> (r: String)
    ensures
        r@ == trim_trailing_slashes(base@) + ("/")@ + uuid@,
{
    let n = base.unicode_len();
    let mut j: usize = n;
    while j > 0
        invariant_except_break
            n == base@.len(),
            j <= n,
            forall|k: int| j <= k < n ==> #[trigger] base@[k] == '/',
        ensures
            j <= n,
            n == base@.len(),
            forall|k: int| j <= k < n ==> #[trigger] base@[k] == '/',
            j > 0 ==> base@[j - 1] != '/',
        decreases j,
    {
        if s_char_ne_slash(base, j - 1) {
            break ;
        }
        j = j - 1;
    }
    proof {
        lemma_trim_slash_take(base@, j as int);
    }
    let head = base.substring_char(0, j);
    let mut out = head.to_owned();
    out.append("/");
    out.append(uuid);
    proof {
        assert(base@.subrange(0, j as int) =~= base@.take(j as int));
        assert(out@ == trim_trailing_slashes(base@) + ("/")@ + uuid@);
    }
    out
}

fn s_char_ne_slash(s: &str, i: usize) -> (r: bool)
    requires
        i < s@.len(),
    ensures
        r == (s@[i as int] != '/'),
{
    let c = s.get_char(i);
    c != '/'
}

/// Gate an unsubscribe call: the token must be present, the subscription
/// known, and the token the stored one.
pub fn authorize_unsubscribe(provided: &str, stored: Option<&StoredSubscription>) -> (r: Result<
    (),
    AppError,
>)
    ensures
        match r {
            Ok(_) => provided@.len() > 0 && (stored matches Some(s) && s.delete_token@ == provided@),
            Err(e) => {
                if provided@.len() == 0 {
                    e.status == STATUS_UNAUTHORIZED && e.message@ == ("delete token required")@
                } else if stored is None {
                    e.status == STATUS_NOT_FOUND && e.message@ == ("subscription not found")@
                } else {
                    e.status == STATUS_FORBIDDEN && e.message@ == ("invalid delete token")@
                        && (stored matches Some(s) && s.delete_token@ != provided@)
                }
            },
        },
{
    if provided.is_empty() {
        return Err(AppError::new(STATUS_UNAUTHORIZED, "delete token required"));
    }
    let s = match stored {
        Some(s) => s,
        None => {
            return Err(AppError::new(STATUS_NOT_FOUND, "subscription not found"));
        },
    };
    if !str_eq(s.delete_token.as_str(), provided) {
        return Err(AppError::new(STATUS_FORBIDDEN, "invalid delete token"));
    }
    Ok(())
}

} // verus!
