//! The authentication cookie of the PIN gate: its name, attributes and
//! lifetime, and whether it must be marked `Secure`.

use vstd::prelude::*;

use axum_extra::extract::cookie::{Cookie, SameSite};

use crate::origin_check::RequestHeaders;
use crate::text::{chars_eq_ignore_ascii_case, chars_of, chars_start_with, eq_ignore_ascii_case, has_prefix};

verus! {

/// Shortest cookie lifetime handed out, in seconds.
pub const MIN_LIFETIME_SECONDS: u64 = 60;

/// Longest cookie lifetime handed out (thirty days), in seconds.
pub const MAX_LIFETIME_SECONDS: u64 = 2592000;

#[verifier::external_type_specification]
#[verifier::external_body]
pub struct ExCookie<'c>(Cookie<'c>);

/// The `SameSite` attribute of the cookie.
#[derive(Clone, Copy, PartialEq, Eq, Debug, Structural)]
pub enum SameSitePolicy {
    Strict,
    Lax,
}

/// The attributes of the authentication cookie.
pub struct AuthCookie {
    pub name: String,
    pub value: String,
    pub path: String,
    pub http_only: bool,
    pub secure: bool,
    pub same_site: SameSitePolicy,
    pub max_age_seconds: u64,
}

/// A requested lifetime in seconds, clamped into
/// `MIN_LIFETIME_SECONDS..=MAX_LIFETIME_SECONDS` (a non-positive request
/// gets the minimum).
pub open spec fn clamped_lifetime(seconds: int) -> int {
    if seconds < MIN_LIFETIME_SECONDS {
        MIN_LIFETIME_SECONDS as int
    } else if seconds > MAX_LIFETIME_SECONDS {
        MAX_LIFETIME_SECONDS as int
    } else {
        seconds
    }
}

/// Whatever lifetime is asked for, the cookie's lifetime stays between
/// one minute and thirty days.
pub proof fn law_lifetime_in_range(max_age_hours: int)
    ensures
        MIN_LIFETIME_SECONDS <= clamped_lifetime(max_age_hours * 3600) <= MAX_LIFETIME_SECONDS,
{
}

pub fn clamp_seconds(seconds: i64) -> (r: u64)
    ensures
        r == clamped_lifetime(seconds as int),
{
    if seconds <= 0 {
        return MIN_LIFETIME_SECONDS;
    }
    let unsigned = seconds as u64;
    if unsigned < MIN_LIFETIME_SECONDS {
        MIN_LIFETIME_SECONDS
    } else if unsigned > MAX_LIFETIME_SECONDS {
        MAX_LIFETIME_SECONDS
    } else {
        unsigned
    }
}

/// Cookie name used by this app.
pub fn cookie_name() -> (r: &'static str)
    ensures
        r@ == "SCAN_PIN"@,
{
    "SCAN_PIN"
}

/// The attributes of the session cookie carrying `value`: named
/// `SCAN_PIN`, path `/`, HttpOnly, SameSite strict, `Secure` as asked,
/// and a lifetime of `max_age_hours` hours clamped into the allowed range.
pub fn auth_cookie(value: &str, max_age_hours: i64, secure: bool) -> (c: AuthCookie)
    ensures
        c.name@ == "SCAN_PIN"@,
        c.value@ == value@,
        c.path@ == "/"@,
        c.http_only,
        c.secure == secure,
        c.same_site == SameSitePolicy::Strict,
        c.max_age_seconds == clamped_lifetime(max_age_hours * 3600),
{
    let max_age_seconds = match max_age_hours.checked_mul(3600) {
        Some(seconds) => clamp_seconds(seconds),
        None => if max_age_hours > 0 {
            MAX_LIFETIME_SECONDS
        } else {
            MIN_LIFETIME_SECONDS
        },
    };
    AuthCookie {
        name: cookie_name().to_owned(),
        value: value.to_owned(),
        path: "/".to_owned(),
        http_only: true,
        secure,
        same_site: SameSitePolicy::Strict,
        max_age_seconds,
    }
}

/// The attributes of the expired cookie that clears the session on logout:
/// empty value and a lifetime of zero, otherwise as `auth_cookie`.
pub fn clear_auth_cookie(secure: bool) -> (c: AuthCookie)
    ensures
        c.name@ == "SCAN_PIN"@,
        c.value@ == Seq::<char>::empty(),
        c.path@ == "/"@,
        c.http_only,
        c.secure == secure,
        c.same_site == SameSitePolicy::Strict,
        c.max_age_seconds == 0,
{
    AuthCookie {
        name: cookie_name().to_owned(),
        value: String::new(),
        path: "/".to_owned(),
        http_only: true,
        secure,
        same_site: SameSitePolicy::Strict,
        max_age_seconds: 0,
    }
}

/// The cookie that `Cookie::build` and the `CookieBuilder` setters
/// `path`, `http_only`, `secure`, `same_site`, `max_age` and `build` make
/// from these attributes (the builder only stores them, so equal attributes
/// give equal cookies).
pub uninterp spec fn built_cookie(
    name: Seq<char>,
    value: Seq<char>,
    path: Seq<char>,
    http_only: bool,
    secure: bool,
    same_site: SameSitePolicy,
    max_age_seconds: u64,
) -> Cookie<'static>;

/// Builds an `axum_extra` cookie (`Cookie::build` followed by the
/// `CookieBuilder` setters `path`, `http_only`, `secure`, `same_site`,
/// `max_age` and `build`) with the attributes of `c`; the result is named
/// `built_cookie` of those attributes. The cookie type is opaque to Verus:
/// what its getters return is not stated.
#[verifier::external_body]
fn http_cookie(c: &AuthCookie) -> (r: Cookie<'static>)
    ensures
        r == built_cookie(c.name@, c.value@, c.path@, c.http_only, c.secure, c.same_site, c.max_age_seconds),
{
    let same_site = match c.same_site {
        SameSitePolicy::Strict => SameSite::Strict,
        SameSitePolicy::Lax => SameSite::Lax,
    };
    Cookie::build((c.name.clone(), c.value.clone()))
        .path(c.path.clone())
        .http_only(c.http_only)
        .secure(c.secure)
        .same_site(same_site)
        .max_age(time::Duration::seconds(c.max_age_seconds as i64))
        .build()
}

/// The authentication cookie carrying `value` (see `auth_cookie`): named
/// `SCAN_PIN`, path `/`, HttpOnly, SameSite strict, `Secure` as asked, and
/// the clamped lifetime.
pub fn build_cookie(value: &str, max_age_hours: i64, secure: bool) -> (r: Cookie<'static>)
    ensures
        r == built_cookie(
            "SCAN_PIN"@,
            value@,
            "/"@,
            true,
            secure,
            SameSitePolicy::Strict,
            clamped_lifetime(max_age_hours * 3600) as u64,
        ),
{
    http_cookie(&auth_cookie(value, max_age_hours, secure))
}

/// The expired cookie used to clear the session on logout (see
/// `clear_auth_cookie`): named `SCAN_PIN`, empty, path `/`, HttpOnly,
/// SameSite strict, `Secure` as asked, and a lifetime of zero.
pub fn build_clear_cookie(secure: bool) -> (r: Cookie<'static>)
    ensures
        r == built_cookie("SCAN_PIN"@, Seq::<char>::empty(), "/"@, true, secure, SameSitePolicy::Strict, 0),
{
    http_cookie(&clear_auth_cookie(secure))
}

/// The request came over HTTPS according to the proxy, or the app is
/// served from an `https` base URL.
pub open spec fn should_be_secure(forwarded_proto: Option<Seq<char>>, base_url: Seq<char>) -> bool {
    (forwarded_proto is Some && eq_ignore_ascii_case(forwarded_proto->0, "https"@)) || has_prefix(
        base_url,
        "https"@,
    )
}

/// Decides whether an auth cookie should be marked `Secure`: when the
/// `X-Forwarded-Proto` header says `https` (in any case) or the base URL
/// starts with `https`.
pub fn cookie_should_be_secure(headers: &RequestHeaders, base_url: &str) -> (r: bool)
    ensures
        r == should_be_secure(headers.forwarded_proto_view(), base_url@),
{
    let https = chars_of("https");
    let via_proxy = match &headers.forwarded_proto {
        Some(proto) => chars_eq_ignore_ascii_case(chars_of(proto.as_str()).as_slice(), https.as_slice()),
        None => false,
    };
    via_proxy || chars_start_with(chars_of(base_url).as_slice(), https.as_slice())
}

} // verus!
