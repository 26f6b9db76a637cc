//! The checks around the stateless HTTP transport: the target URL's
//! scheme, the size caps on request and response bodies, the status
//! range, and the response body's shape. The POST itself is I/O and
//! stays with the caller.
use vstd::prelude::*;
use crate::json::str_eq;
use vstd::string::StringSliceAdditionalSpecFns;
use crate::wire::{Reply, full_jv, parse_reply, reply_of, reply_view};

verus! {

/// Declares the url crate's parsed-URL type, so that the transport
/// can hold its target; its values are opaque to the verifier.
#[verifier::external_type_specification]
#[verifier::external_body]
pub struct ExUrl(url::Url);

/// Configuration of the HTTP transport.
#[derive(Debug)]
pub struct HttpConfig {
    /// The largest request or response body, in bytes.
    pub max_request_body_size: u32,
}

impl Default for HttpConfig {
    /// Ten megabytes, unless configured otherwise.
    fn default() -> (r: Self)
        ensures
            r.max_request_body_size == 10485760,
    {
        HttpConfig { max_request_body_size: 10485760 }
    }
}

/// The ways the HTTP transport can fail before or after the one POST
/// it makes per call.
#[derive(Debug)]
pub enum HttpError {
    /// The target is not a URL, or not an HTTP one.
    Url(String),
    /// The request or response body exceeds the configured maximum.
    RequestTooLarge,
    /// The server answered with a status outside the success range.
    RequestFailure { status_code: u16 },
    /// The connection itself failed before any status arrived; the
    /// text is the caller's description of the I/O failure.
    Transport(String),
    /// The response body is not one JSON-RPC reply.
    ParseError,
}

/// Whether the url crate parses this text as a URL. Parsing is a
/// function of the text alone.
pub uninterp spec fn url_ok(s: Seq<char>) -> bool;

/// The scheme of the URL this text parses as: lower case, without the
/// colon. Meaningful only where `url_ok` holds.
pub uninterp spec fn scheme_of(s: Seq<char>) -> Seq<char>;

/// Relies on url::Url::parse and url::Url::scheme: the text parses
/// exactly when `url_ok` holds, and the parsed URL's scheme — lower
/// case, colon stripped — is `scheme_of` of the text.
#[verifier::external_body]
fn url_parse_scheme(s: &str) -> (r: Option<(url::Url, String)>)
    ensures
        r is Some <==> url_ok(s@),
        r matches Some(p) ==> p.1@ == scheme_of(s@),
{
    match url::Url::parse(s) {
        Ok(u) => {
            let scheme = u.scheme().to_string();
            Some((u, scheme))
        },
        Err(_) => None,
    }
}

/// The stateless HTTP transport: each call is one POST carrying one
/// request body, answered by one response body. This type holds the
/// checks around the POST; the POST itself is the caller's.
#[derive(Debug)]
pub struct HttpTransportClient {
    target: url::Url,
    /// The configured size cap.
    pub config: HttpConfig,
}

impl HttpTransportClient {
    /// The configured cap on request and response bodies.
    pub closed spec fn spec_max(&self) -> u32 {
        self.config.max_request_body_size
    }

    /// A transport toward `target`: construction succeeds exactly when
    /// the target parses as a URL whose scheme is `http` or `https`;
    /// anything else is refused before any network use.
    pub fn new(target: &str, config: HttpConfig) -> (r: Result<HttpTransportClient, HttpError>)
        ensures
            r is Ok <==> url_ok(target@) && (scheme_of(target@) == ("http")@ || scheme_of(
                target@,
            ) == ("https")@),
            r matches Ok(c) ==> c.spec_max() == config.max_request_body_size,
            r matches Err(e) ==> e is Url,
    {
        let u = match url_parse_scheme(target) {
            Some(u) => u,
            None => {
                return Err(HttpError::Url(String::from_str("invalid URL")));
            },
        };
        if str_eq(u.1.as_str(), "http") || str_eq(u.1.as_str(), "https") {
            Ok(HttpTransportClient { target: u.0, config })
        } else {
            Err(
                HttpError::Url(
                    String::from_str("URL scheme not supported, expects 'http' or 'https'"),
                ),
            )
        }
    }

    /// The request body for one frame, refused before any network use
    /// when it exceeds the configured maximum.
    pub fn prepare_request(&self, frame: &str) -> (r: Result<Vec<u8>, HttpError>)
        ensures
            r matches Ok(b) ==> b@ == frame.spec_bytes() && b@.len()
                <= self.spec_max(),
            r matches Err(e) ==> e is RequestTooLarge && frame.spec_bytes().len()
                > self.spec_max(),
    {
        let body = frame.as_bytes_vec();
        if body.len() > self.config.max_request_body_size as usize {
            Err(HttpError::RequestTooLarge)
        } else {
            Ok(body)
        }
    }

    /// Judge the status the server answered with: only the success
    /// range goes through.
    pub fn check_status(status: u16) -> (r: Result<(), HttpError>)
        ensures
            r is Ok <==> 200 <= status < 300,
            r matches Err(e) ==> (e matches HttpError::RequestFailure { status_code } && status_code
                == status),
    {
        if 200 <= status && status < 300 {
            Ok(())
        } else {
            Err(HttpError::RequestFailure { status_code: status })
        }
    }

    /// Judge the length of a response body before reading it: one
    /// over the configured maximum is refused, one exactly at it goes
    /// through.
    pub fn check_response_size(&self, len: usize) -> (r: Result<(), HttpError>)
        ensures
            r is Ok <==> len <= self.spec_max(),
            r matches Err(e) ==> e is RequestTooLarge,
    {
        if len > self.config.max_request_body_size as usize {
            Err(HttpError::RequestTooLarge)
        } else {
            Ok(())
        }
    }

    /// Read the reply out of a response body: exactly one JSON-RPC
    /// reply envelope, anything else is a parse error.
    pub fn parse_response(body: &str) -> (r: Result<Reply, HttpError>)
        ensures
            r matches Ok(rep) ==> (full_jv(body@) matches Some(w) && reply_of(w) == Some(
                reply_view(rep),
            )),
            r matches Err(e) ==> e is ParseError && (full_jv(body@) is None || (full_jv(body@)
                matches Some(w) ==> reply_of(w) is None)),
    {
        match parse_reply(body) {
            Some(rep) => Ok(rep),
            None => Err(HttpError::ParseError),
        }
    }
}

} // verus!
