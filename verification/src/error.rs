//! Errors of the library surface.

use vstd::prelude::*;

use crate::text::{debug_text, push_decimal, str_debug, decimal};

verus! {

/// A failed HTTP exchange, as the transport reports it.
#[derive(Debug)]
pub struct NetworkFault {
    pub timeout: bool,
    pub connect: bool,
    pub request: bool,
    pub message: String,
}

/// Everything that can go wrong in the library.
#[derive(Debug)]
pub enum Error {
    NotAuthenticated,
    AuthExpired,
    /// HTTP 401 from the document API. Deliberately not `AuthExpired`:
    /// callers check the stored expiry and refresh before every request, so a
    /// 401 that still arrives usually means the endpoint refuses this
    /// pairing, not that the token lapsed.
    Unauthorized { body: String },
    RefreshFailed(String),
    Network(NetworkFault),
    Json(String),
    Io { path: String, source: String },
    BareIo(String),
    Config(String),
    Convert(String),
    V6Format(String),
    Api { status: u16, body: String },
    InvalidResponse(String),
    RateLimited { retry_after_secs: u64 },
    Cancelled,
    Job(String),
    Other(String),
}

pub type Result<T, E = Error> = core::result::Result<T, E>;

/// The mathematical value of an [`Error`].
pub enum ErrorView {
    NotAuthenticated,
    AuthExpired,
    Unauthorized { body: Seq<char> },
    RefreshFailed(Seq<char>),
    Network { timeout: bool, connect: bool, request: bool, message: Seq<char> },
    Json(Seq<char>),
    Io { path: Seq<char>, source: Seq<char> },
    BareIo(Seq<char>),
    Config(Seq<char>),
    Convert(Seq<char>),
    V6Format(Seq<char>),
    Api { status: u16, body: Seq<char> },
    InvalidResponse(Seq<char>),
    RateLimited { retry_after_secs: u64 },
    Cancelled,
    Job(Seq<char>),
    Other(Seq<char>),
}

impl View for Error {
    type V = ErrorView;

    open spec fn view(&self) -> ErrorView {
        match *self {
            Error::NotAuthenticated => ErrorView::NotAuthenticated,
            Error::AuthExpired => ErrorView::AuthExpired,
            Error::Unauthorized { body } => ErrorView::Unauthorized { body: body@ },
            Error::RefreshFailed(m) => ErrorView::RefreshFailed(m@),
            Error::Network(f) => ErrorView::Network {
                timeout: f.timeout,
                connect: f.connect,
                request: f.request,
                message: f.message@,
            },
            Error::Json(m) => ErrorView::Json(m@),
            Error::Io { path, source } => ErrorView::Io { path: path@, source: source@ },
            Error::BareIo(m) => ErrorView::BareIo(m@),
            Error::Config(m) => ErrorView::Config(m@),
            Error::Convert(m) => ErrorView::Convert(m@),
            Error::V6Format(m) => ErrorView::V6Format(m@),
            Error::Api { status, body } => ErrorView::Api { status, body: body@ },
            Error::InvalidResponse(m) => ErrorView::InvalidResponse(m@),
            Error::RateLimited { retry_after_secs } => ErrorView::RateLimited { retry_after_secs },
            Error::Cancelled => ErrorView::Cancelled,
            Error::Job(m) => ErrorView::Job(m@),
            Error::Other(m) => ErrorView::Other(m@),
        }
    }
}

/// A result whose values are taken by their views.
pub open spec fn res_view<T: View>(r: core::result::Result<T, Error>) -> core::result::Result<
    T::V,
    ErrorView,
> {
    match r {
        Ok(x) => Ok(x@),
        Err(e) => Err(e@),
    }
}

impl ErrorView {
    /// Whether a second try of the same request may succeed.
    pub open spec fn retryable(self) -> bool {
        match self {
            ErrorView::Network { timeout, connect, request, .. } => timeout || connect || request,
            ErrorView::Api { status, .. } => status == 408 || status == 429 || status == 500
                || status == 502 || status == 503 || status == 504,
            ErrorView::RateLimited { .. } => true,
            _ => false,
        }
    }

    /// The one-line message shown to the user.
    pub open spec fn text(self) -> Seq<char> {
        match self {
            ErrorView::NotAuthenticated => "not authenticated; run `rr auth`"@,
            ErrorView::AuthExpired => "authentication expired; run `rr auth` to re-pair"@,
            ErrorView::Unauthorized { body } => "unauthorized (HTTP 401): "@ + body,
            ErrorView::RefreshFailed(m) => "token refresh failed: "@ + m,
            ErrorView::Network { message, .. } => "network error: "@ + message,
            ErrorView::Json(m) => "json error: "@ + m,
            ErrorView::Io { path, source } => "io error at "@ + str_debug(path) + ": "@ + source,
            ErrorView::BareIo(m) => "io error: "@ + m,
            ErrorView::Config(m) => "config error: "@ + m,
            ErrorView::Convert(m) => "conversion error: "@ + m,
            ErrorView::V6Format(m) => "v6 format error: "@ + m,
            ErrorView::Api { status, body } => "api error: HTTP "@ + decimal(status as nat)
                + " – "@ + body,
            ErrorView::InvalidResponse(m) => "invalid response: "@ + m,
            ErrorView::RateLimited { retry_after_secs } => "rate limited; retry after "@ + decimal(
                retry_after_secs as nat,
            ) + "s"@,
            ErrorView::Cancelled => "operation cancelled"@,
            ErrorView::Job(m) => "job error: "@ + m,
            ErrorView::Other(m) => m,
        }
    }
}

/// `prefix` followed by `rest`.
pub(crate) fn joined(prefix: &str, rest: &str) -> (r: String)
    ensures
        r@ == prefix@ + rest@,
{
    let mut out = prefix.to_owned();
    out.push_str(rest);
    out
}

impl Error {
    /// Whether a second try of the same request may succeed.
    pub fn is_retryable(&self) -> (r: bool)
        ensures
            r == self@.retryable(),
    {
        match self {
            Error::Network(f) => f.timeout || f.connect || f.request,
            Error::Api { status, .. } => {
                let s: u16 = *status;
                s == 408 || s == 429 || s == 500 || s == 502 || s == 503 || s == 504
            },
            Error::RateLimited { .. } => true,
            _ => false,
        }
    }

    /// The one-line message shown to the user.
    pub fn message(&self) -> (r: String)
        ensures
            r@ == self@.text(),
    {
        match self {
            Error::NotAuthenticated => "not authenticated; run `rr auth`".to_owned(),
            Error::AuthExpired => "authentication expired; run `rr auth` to re-pair".to_owned(),
            Error::Unauthorized { body } => joined("unauthorized (HTTP 401): ", body.as_str()),
            Error::RefreshFailed(m) => joined("token refresh failed: ", m.as_str()),
            Error::Network(f) => joined("network error: ", f.message.as_str()),
            Error::Json(m) => joined("json error: ", m.as_str()),
            Error::Io { path, source } => {
                let mut out = "io error at ".to_owned();
                out.push_str(debug_text(path.as_str()).as_str());
                out.push_str(": ");
                out.push_str(source.as_str());
                out
            },
            Error::BareIo(m) => joined("io error: ", m.as_str()),
            Error::Config(m) => joined("config error: ", m.as_str()),
            Error::Convert(m) => joined("conversion error: ", m.as_str()),
            Error::V6Format(m) => joined("v6 format error: ", m.as_str()),
            Error::Api { status, body } => {
                let mut out = "api error: HTTP ".to_owned();
                push_decimal(&mut out, *status as u64);
                out.push_str(" – ");
                out.push_str(body.as_str());
                out
            },
            Error::InvalidResponse(m) => joined("invalid response: ", m.as_str()),
            Error::RateLimited { retry_after_secs } => {
                let mut out = "rate limited; retry after ".to_owned();
                push_decimal(&mut out, *retry_after_secs);
                out.push_str("s");
                out
            },
            Error::Cancelled => "operation cancelled".to_owned(),
            Error::Job(m) => joined("job error: ", m.as_str()),
            Error::Other(m) => m.clone(),
        }
    }
}

} // verus!
