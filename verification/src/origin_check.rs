//! Origin-header CSRF defence: a state-changing request is accepted only
//! when its `Origin` header names this app.

use vstd::prelude::*;

use crate::text::{
    all_digits, chars_eq_ignore_ascii_case, chars_equal, chars_of, chars_start_with,
    chars_suffix_all_digits, chars_suffix_equal, eq_ignore_ascii_case, has_prefix, opt_view,
};

verus! {

/// The request headers that the security decisions read: each is the header's value
/// when it is present and readable as text.
pub struct RequestHeaders {
    pub origin: Option<String>,
    pub host: Option<String>,
    pub forwarded_proto: Option<String>,
}

impl RequestHeaders {
    pub open spec fn origin_view(&self) -> Option<Seq<char>> {
        opt_view(self.origin)
    }

    pub open spec fn host_view(&self) -> Option<Seq<char>> {
        opt_view(self.host)
    }

    pub open spec fn forwarded_proto_view(&self) -> Option<Seq<char>> {
        opt_view(self.forwarded_proto)
    }
}

/// Why a request was refused.
#[derive(Clone, Copy, PartialEq, Eq, Debug, Structural)]
pub enum OriginRejection {
    MissingOrigin,
    NullOrigin,
    CrossOrigin,
}

impl OriginRejection {
    /// The HTTP status of the refusal: 403 Forbidden.
    pub fn status(&self) -> (code: u16)
        ensures
            code == 403,
    {
        403
    }

    /// The `error` field of the refusal's JSON body.
    pub fn error_message(&self) -> (m: &'static str)
        ensures
            m@ == "forbidden"@,
    {
        "forbidden"
    }
}

/// What follows the host of a URL is nothing, or `:` and a non-empty
/// decimal port.
pub open spec fn port_suffix(rest: Seq<char>) -> bool {
    rest.len() == 0 || (rest[0] == ':' && rest.len() > 1 && all_digits(rest.skip(1)))
}

/// `url` is the scheme and host `origin_prefix` (such as
/// `http://localhost`), then nothing or a decimal port.
pub open spec fn on_host(url: Seq<char>, origin_prefix: Seq<char>) -> bool {
    has_prefix(url, origin_prefix) && port_suffix(url.skip(origin_prefix.len() as int))
}

/// The URL `base` has the scheme and host `origin_prefix` (such as
/// `http://localhost`): the prefix is followed by the end, by `:` (a port)
/// or by `/` (a path).
pub open spec fn base_on_host(base: Seq<char>, origin_prefix: Seq<char>) -> bool {
    &&& has_prefix(base, origin_prefix)
    &&& (base.len() == origin_prefix.len() || base[origin_prefix.len() as int] == ':'
        || base[origin_prefix.len() as int] == '/')
}

/// `base` has the scheme and host `origin_prefix`, and `origin` is that
/// scheme and host on some port (or none).
pub open spec fn loopback_match(origin: Seq<char>, base: Seq<char>, origin_prefix: Seq<char>) -> bool {
    base_on_host(base, origin_prefix) && on_host(origin, origin_prefix)
}

/// `origin` is `base` exactly, or the host of `base` is `localhost` or
/// `127.0.0.1` (scheme `http` or `https`, then any port or path) and
/// `origin` has the same scheme and host on any port.
pub open spec fn origin_matches_base(origin: Seq<char>, base: Seq<char>) -> bool {
    ||| origin == base
    ||| loopback_match(origin, base, "http://localhost"@)
    ||| loopback_match(origin, base, "https://localhost"@)
    ||| loopback_match(origin, base, "http://127.0.0.1"@)
    ||| loopback_match(origin, base, "https://127.0.0.1"@)
}

/// `origin` without a leading `http://` or `https://`.
pub open spec fn strip_scheme(origin: Seq<char>) -> Seq<char> {
    if has_prefix(origin, "http://"@) {
        origin.skip("http://"@.len() as int)
    } else if has_prefix(origin, "https://"@) {
        origin.skip("https://"@.len() as int)
    } else {
        origin
    }
}

/// The verdict on a request: no `Origin` is refused; `null` (in any case)
/// passes only when allowed; otherwise the origin must name the request's
/// own `Host` (scheme stripped) or match the base URL.
pub open spec fn origin_verdict(
    origin: Option<Seq<char>>,
    host: Option<Seq<char>>,
    base: Seq<char>,
    allow_null_origin: bool,
) -> Result<(), OriginRejection> {
    match origin {
        None => Err(OriginRejection::MissingOrigin),
        Some(o) => if eq_ignore_ascii_case(o, "null"@) {
            if allow_null_origin {
                Ok(())
            } else {
                Err(OriginRejection::NullOrigin)
            }
        } else if (host is Some && strip_scheme(o) == host->0) || origin_matches_base(o, base) {
            Ok(())
        } else {
            Err(OriginRejection::CrossOrigin)
        },
    }
}

fn is_on_host(url: &[char], origin_prefix: &[char]) -> (r: bool)
    ensures
        r == on_host(url@, origin_prefix@),
{
    if !chars_start_with(url, origin_prefix) {
        return false;
    }
    let k = origin_prefix.len();
    let ghost rest = url@.skip(k as int);
    if url.len() == k {
        return true;
    }
    assert(rest[0] == url@[k as int]);
    if url[k] == ':' && url.len() > k + 1 {
        let digits = chars_suffix_all_digits(url, k + 1);
        assert(rest.skip(1) =~= url@.skip(k + 1));
        digits
    } else {
        false
    }
}

fn is_base_on_host(base: &[char], origin_prefix: &[char]) -> (r: bool)
    ensures
        r == base_on_host(base@, origin_prefix@),
{
    if !chars_start_with(base, origin_prefix) {
        return false;
    }
    let k = origin_prefix.len();
    base.len() == k || base[k] == ':' || base[k] == '/'
}

fn loopback_matches(origin: &[char], base: &[char], origin_prefix: &[char]) -> (r: bool)
    ensures
        r == loopback_match(origin@, base@, origin_prefix@),
{
    is_base_on_host(base, origin_prefix) && is_on_host(origin, origin_prefix)
}

/// Matches `origin` against `base`: passes when they are equal, or when
/// the host of `base` is `localhost` or `127.0.0.1` (with any port or
/// path) and the origin is the same scheme and host on any port.
pub fn origin_matches(origin: &str, base: &str) -> (r: bool)
    ensures
        r == origin_matches_base(origin@, base@),
{
    let o = chars_of(origin);
    let b = chars_of(base);
    if chars_equal(o.as_slice(), b.as_slice()) {
        return true;
    }
    let prefixes = [
        chars_of("http://localhost"),
        chars_of("https://localhost"),
        chars_of("http://127.0.0.1"),
        chars_of("https://127.0.0.1"),
    ];
    if loopback_matches(o.as_slice(), b.as_slice(), prefixes[0].as_slice()) {
        return true;
    }
    if loopback_matches(o.as_slice(), b.as_slice(), prefixes[1].as_slice()) {
        return true;
    }
    if loopback_matches(o.as_slice(), b.as_slice(), prefixes[2].as_slice()) {
        return true;
    }
    loopback_matches(o.as_slice(), b.as_slice(), prefixes[3].as_slice())
}

/// The Origin check applies to `POST` requests only; other methods pass
/// through.
pub fn origin_check_applies(method: &str) -> (r: bool)
    ensures
        r == (method@ == "POST"@),
{
    chars_equal(chars_of(method).as_slice(), chars_of("POST").as_slice())
}

/// The origin, with its scheme stripped, is the request's `Host`.
fn same_as_host(origin: &[char], host: &[char]) -> (r: bool)
    ensures
        r == (strip_scheme(origin@) == host@),
{
    let http = chars_of("http://");
    let https = chars_of("https://");
    if chars_start_with(origin, http.as_slice()) {
        chars_suffix_equal(origin, http.len(), host)
    } else if chars_start_with(origin, https.as_slice()) {
        chars_suffix_equal(origin, https.len(), host)
    } else {
        chars_equal(origin, host)
    }
}

/// Inspects the request's `Origin` header against the app's `base_url`;
/// `allow_null_origin` is the opt-in for `Origin: null` clients.
pub fn assert_origin_allowed(
    req: &RequestHeaders,
    base_url: &str,
    allow_null_origin: bool,
) -> (r: Result<(), OriginRejection>)
    ensures
        r == origin_verdict(req.origin_view(), req.host_view(), base_url@, allow_null_origin),
{
    let origin = match &req.origin {
        Some(o) => o,
        None => {
            return Err(OriginRejection::MissingOrigin);
        },
    };
    let o = chars_of(origin.as_str());
    let null = chars_of("null");
    if chars_eq_ignore_ascii_case(o.as_slice(), null.as_slice()) {
        if allow_null_origin {
            return Ok(());
        }
        return Err(OriginRejection::NullOrigin);
    }
    let is_same_origin = match &req.host {
        Some(host) => same_as_host(o.as_slice(), chars_of(host.as_str()).as_slice()),
        None => false,
    };
    if is_same_origin || origin_matches(origin.as_str(), base_url) {
        Ok(())
    } else {
        Err(OriginRejection::CrossOrigin)
    }
}

/// A request without an `Origin` header is always refused.
pub proof fn law_missing_origin_rejected(host: Option<Seq<char>>, base: Seq<char>, allow_null_origin: bool)
    ensures
        origin_verdict(None, host, base, allow_null_origin) == Err::<(), OriginRejection>(
            OriginRejection::MissingOrigin,
        ),
{
}

/// The configured base URL is always an accepted origin (unless it is
/// literally `null`).
pub proof fn law_base_url_accepted(host: Option<Seq<char>>, base: Seq<char>, allow_null_origin: bool)
    requires
        !eq_ignore_ascii_case(base, "null"@),
    ensures
        origin_verdict(Some(base), host, base, allow_null_origin) == Ok::<(), OriginRejection>(()),
{
}

/// The scheme-and-host prefixes whose base URLs accept any port.
pub open spec fn is_loopback_prefix(origin_prefix: Seq<char>) -> bool {
    ||| origin_prefix == "http://localhost"@
    ||| origin_prefix == "https://localhost"@
    ||| origin_prefix == "http://127.0.0.1"@
    ||| origin_prefix == "https://127.0.0.1"@
}

/// When the host of the base URL is not `localhost` or `127.0.0.1` and the
/// request names no `Host`, an origin is accepted exactly when it is the
/// base URL, or `null` with the opt-in.
pub proof fn law_production_base_is_exact(origin: Seq<char>, base: Seq<char>, allow_null_origin: bool)
    requires
        forall|p: Seq<char>| is_loopback_prefix(p) ==> !#[trigger] base_on_host(base, p),
    ensures
        origin_verdict(Some(origin), None, base, allow_null_origin) is Ok <==> (if eq_ignore_ascii_case(
            origin,
            "null"@,
        ) {
            allow_null_origin
        } else {
            origin == base
        }),
{
    assert(!base_on_host(base, "http://localhost"@));
    assert(!base_on_host(base, "https://localhost"@));
    assert(!base_on_host(base, "http://127.0.0.1"@));
    assert(!base_on_host(base, "https://127.0.0.1"@));
}

/// With a base URL whose host is `localhost` or `127.0.0.1` (with any port
/// or path), the same scheme and host on any decimal port is accepted.
pub proof fn law_loopback_any_port(
    origin_prefix: Seq<char>,
    port: Seq<char>,
    base: Seq<char>,
    allow_null_origin: bool,
)
    requires
        is_loopback_prefix(origin_prefix),
        base_on_host(base, origin_prefix),
        port.len() > 0,
        all_digits(port),
    ensures
        origin_verdict(
            Some(origin_prefix + ":"@ + port),
            None,
            base,
            allow_null_origin,
        ) == Ok::<(), OriginRejection>(()),
{
    reveal_strlit("http://localhost");
    reveal_strlit("https://localhost");
    reveal_strlit("http://127.0.0.1");
    reveal_strlit("https://127.0.0.1");
    reveal_strlit(":");
    reveal_strlit("null");
    let o = origin_prefix + ":"@ + port;
    assert(o.subrange(0, origin_prefix.len() as int) =~= origin_prefix);
    let rest = o.skip(origin_prefix.len() as int);
    assert(rest[0] == ':');
    assert(rest.skip(1) =~= port);
    assert(on_host(o, origin_prefix));
    assert(!eq_ignore_ascii_case(o, "null"@)) by {
        assert(o.len() > 4);
    }
}

/// The value enables the `Origin: null` opt-in: `true`, `1` or `on`, in
/// any case.
pub open spec fn is_truthy(value: Option<Seq<char>>) -> bool {
    value is Some && (eq_ignore_ascii_case(value->0, "true"@) || eq_ignore_ascii_case(
        value->0,
        "1"@,
    ) || eq_ignore_ascii_case(value->0, "on"@))
}

/// Reads the opt-in setting from the raw value of its environment variable.
pub fn allow_null_origin_setting(value: Option<&str>) -> (r: bool)
    ensures
        r == is_truthy(
            match value {
                Some(v) => Some(v@),
                None => None,
            },
        ),
{
    match value {
        None => false,
        Some(v) => {
            let chars = chars_of(v);
            chars_eq_ignore_ascii_case(chars.as_slice(), chars_of("true").as_slice())
                || chars_eq_ignore_ascii_case(chars.as_slice(), chars_of("1").as_slice())
                || chars_eq_ignore_ascii_case(chars.as_slice(), chars_of("on").as_slice())
        },
    }
}

} // verus!
