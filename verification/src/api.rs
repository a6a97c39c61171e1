//! Data exchanged with the backend by the game's client, and the client's
//! decisions on the backend's answers.

use vstd::prelude::*;

use crate::text::{decimal, push_decimal};

verus! {

/// REST endpoints exposed by the backend; the requests themselves are made
/// by the client program.
pub struct ApiService;

/// One row of the global high-score table.
#[derive(Clone, Debug, Default, PartialEq)]
pub struct LeaderboardEntry {
    /// Player-chosen display name.
    pub name: String,
    /// Final score when the row was submitted.
    pub score: u32,
    /// ISO-8601 submission date set by the server; empty for outbound payloads.
    pub date: String,
}

/// Response payload of the PIN-requirement check.
pub struct PinRequiredResponse {
    /// `true` if the app is configured to require a PIN at startup.
    pub required: bool,
    /// Expected PIN length (in digits).
    pub length: usize,
    /// `true` if the IP is currently rate-limited and must wait.
    pub locked: bool,
}

/// Outbound payload of the PIN check.
pub struct VerifyPinPayload {
    /// PIN entered by the user; digits only.
    pub pin: String,
}

/// Response payload of the PIN check.
pub struct VerifyPinResponse {
    /// `true` if the PIN was accepted.
    pub success: bool,
    /// Human-readable error message, surfaced to the login UI on failure.
    pub error: Option<String>,
}

/// Default of the configuration flags that the backend may leave out:
/// shown unless said otherwise.
pub fn default_true() -> (r: bool)
    ensures
        r,
{
    true
}

/// Application-wide configuration fetched once at startup.
pub struct ConfigResponse {
    /// Deployed backend version, surfaced in the header.
    pub version: String,
    /// Site title rendered in the header link.
    pub site_title: String,
    /// Whether the language picker is shown.
    pub enable_translation: bool,
    /// Whether the theme toggle is shown.
    pub enable_themes: bool,
    /// Whether the print button is shown.
    pub enable_print: bool,
    /// Whether the version badge is rendered in the header.
    pub show_version: bool,
    /// Whether the GitHub footer link is rendered.
    pub show_github: bool,
}

/// Outbound payload of a score submission.
pub struct SubmitRequest {
    pub name: String,
    pub score: u32,
    pub category: String,
}

/// The HTTP statuses on which the PIN check answers with an error body.
pub open spec fn is_pin_error_status(status: u16) -> bool {
    status == 401 || status == 429 || status == 400
}

impl ApiService {
    /// The request body of the PIN check.
    pub fn pin_payload(pin: &str) -> (p: VerifyPinPayload)
        ensures
            p.pin@ == pin@,
    {
        VerifyPinPayload { pin: pin.to_owned() }
    }

    /// The answer to a PIN check that the backend refused: on status 400,
    /// 401 or 429 with an `error` message, a failed response carrying that
    /// message; otherwise `None` and the body is read as a response.
    pub fn pin_failure(status: u16, error: Option<String>) -> (r: Option<VerifyPinResponse>)
        ensures
            r is Some <==> (is_pin_error_status(status) && error is Some),
            r matches Some(resp) ==> !resp.success && resp.error == error,
    {
        if (status == 401 || status == 429 || status == 400) && error.is_some() {
            Some(VerifyPinResponse { success: false, error })
        } else {
            None
        }
    }

    /// Path of the leaderboard of `category`.
    pub fn leaderboard_url(category: &str) -> (url: String)
        ensures
            url@ == "/api/leaderboard?category="@ + category@,
    {
        let mut url = "/api/leaderboard?category=".to_owned();
        crate::text::push_str(&mut url, category);
        url
    }

    /// The request body of a score submission.
    pub fn submit_payload(name: &str, score: u32, category: &str) -> (p: SubmitRequest)
        ensures
            p.name@ == name@,
            p.score == score,
            p.category@ == category@,
    {
        SubmitRequest { name: name.to_owned(), score, category: category.to_owned() }
    }

    /// The error reported for a refused submission: the backend's `error`
    /// message, or `HTTP error` and the status.
    pub fn submit_failure_message(status: u16, error: Option<String>) -> (m: String)
        ensures
            m@ == match error {
                Some(e) => e@,
                None => "HTTP error "@ + decimal(status as nat),
            },
    {
        match error {
            Some(e) => e,
            None => {
                let mut m = "HTTP error ".to_owned();
                push_decimal(&mut m, status as u64);
                m
            },
        }
    }
}

} // verus!
