//! Errors of the gateway transport.
use vstd::prelude::*;
use vstd::string::*;

verus! {

/// An input or output error of the operating system.
#[verifier::external_type_specification]
#[verifier::external_body]
pub struct ExIoError(std::io::Error);

/// Errors of the RD Gateway connect path.
#[derive(Debug)]
pub enum GatewayError {
    /// DNS or TCP failure reaching the gateway.
    Network(std::io::Error),
    /// TLS handshake or certificate parsing failed.
    Tls(String),
    /// The TLS certificate of the gateway was rejected (trust on first use).
    CertRejected(String),
    /// A step of the gateway protocol failed (HTTP, RTS, bind, NDR or NTLM).
    Protocol(String),
    /// Malformed input (a bad host, an empty user name, and the like).
    Invalid(String),
}

impl From<std::io::Error> for GatewayError {
    fn from(e: std::io::Error) -> (r: Self) {
        GatewayError::Network(e)
    }
}

impl vstd::std_specs::convert::FromSpecImpl<std::io::Error> for GatewayError {
    open spec fn obeys_from_spec() -> bool {
        true
    }

    open spec fn from_spec(e: std::io::Error) -> Self {
        GatewayError::Network(e)
    }
}

pub type GatewayResult<T> = Result<T, GatewayError>;

/// A [`GatewayError`] with its text as a sequence of characters.
pub enum ErrorView {
    Network(std::io::Error),
    Tls(Seq<char>),
    CertRejected(Seq<char>),
    Protocol(Seq<char>),
    Invalid(Seq<char>),
}

impl View for GatewayError {
    type V = ErrorView;

    open spec fn view(&self) -> ErrorView {
        match *self {
            GatewayError::Network(e) => ErrorView::Network(e),
            GatewayError::Tls(m) => ErrorView::Tls(m@),
            GatewayError::CertRejected(m) => ErrorView::CertRejected(m@),
            GatewayError::Protocol(m) => ErrorView::Protocol(m@),
            GatewayError::Invalid(m) => ErrorView::Invalid(m@),
        }
    }
}

/// What a call gave back, the error by its text.
pub open spec fn outcome<T>(r: Result<T, GatewayError>) -> Result<T, ErrorView> {
    match r {
        Ok(v) => Ok(v),
        Err(e) => Err(e@),
    }
}

/// What a call gave back, the value by its view and the error by its text.
pub open spec fn outcome_view<T: View>(r: Result<T, GatewayError>) -> Result<T::V, ErrorView> {
    match r {
        Ok(v) => Ok(v@),
        Err(e) => Err(e@),
    }
}

pub fn protocol_error(message: &str) -> (e: GatewayError)
    ensures
        e@ == ErrorView::Protocol(message@),
{
    GatewayError::Protocol(message.to_owned())
}

/// Whether `text` is the text `e` displays as, behind `prefix`.
pub open spec fn io_text(e: std::io::Error, prefix: Seq<char>, text: Seq<char>) -> bool {
    exists|s: String| #[trigger] to_string_from_display_ensures(&e, s) && text == prefix + s@
}

/// The text of an error: its kind, then its cause.
pub open spec fn error_text(e: ErrorView, text: Seq<char>) -> bool {
    match e {
        ErrorView::Network(io) => io_text(io, "network: "@, text),
        ErrorView::Tls(m) => text == "tls: "@ + m,
        ErrorView::CertRejected(m) => text == "gateway certificate rejected: "@ + m,
        ErrorView::Protocol(m) => text == "gateway: "@ + m,
        ErrorView::Invalid(m) => text == m,
    }
}

impl GatewayError {
    /// The error as a line of text.
    pub fn message(&self) -> (text: String)
        ensures
            error_text(self@, text@),
    {
        match self {
            GatewayError::Network(e) => {
                let cause = e.to_string();
                let text = "network: ".to_owned().concat(cause.as_str());
                assert(io_text(*e, "network: "@, text@));
                text
            },
            GatewayError::Tls(m) => "tls: ".to_owned().concat(m.as_str()),
            GatewayError::CertRejected(m) => "gateway certificate rejected: ".to_owned().concat(
                m.as_str(),
            ),
            GatewayError::Protocol(m) => "gateway: ".to_owned().concat(m.as_str()),
            GatewayError::Invalid(m) => m.clone(),
        }
    }
}

/// The text of an error says what kind it is, and ends with its cause.
pub proof fn texts_end_with_their_cause(m: Seq<char>, text: Seq<char>)
    ensures
        error_text(ErrorView::Tls(m), text) <==> text == "tls: "@ + m,
        error_text(ErrorView::CertRejected(m), text) <==> text == "gateway certificate rejected: "@
            + m,
        error_text(ErrorView::Protocol(m), text) <==> text == "gateway: "@ + m,
        error_text(ErrorView::Invalid(m), text) <==> text == m,
{
}

} // verus!
