//! Where to connect to.

use crate::text;
use url::Url;
use vstd::prelude::*;

verus! {

/// The type `url::ParseError`.
#[verifier::external_type_specification]
#[verifier::external_body]
pub struct ExParseError(url::ParseError);

/// The parts of a URL that say where to connect to.
#[derive(Debug)]
pub struct UrlParts {
    pub scheme: String,
    pub host: Option<String>,
    pub port: Option<u16>,
    /// The URL as a whole
    pub text: String,
}

/// What the parts of a URL say.
pub struct UrlView {
    pub scheme: Seq<char>,
    pub host: Option<Seq<char>>,
    pub port: Option<u16>,
    pub text: Seq<char>,
}

impl View for UrlParts {
    type V = UrlView;

    open spec fn view(&self) -> UrlView {
        UrlView {
            scheme: self.scheme@,
            host: match self.host {
                Some(host) => Some(host@),
                None => None,
            },
            port: self.port,
            text: self.text@,
        }
    }
}

/// Why a connection cannot be made.
#[derive(Debug)]
pub enum ConnectError {
    /// The text is not a URL
    InvalidUrl(url::ParseError),
    /// The URL is meant for something else; the message says so
    WrongScheme(String),
}

/// The parts that `url::Url` finds in a text, or why it is not a URL.
pub uninterp spec fn url_parts(text: Seq<char>) -> Result<UrlView, url::ParseError>;

/// Calls `Url::parse`, and takes the scheme, the host, the port and the text of the
/// URL from its result. The result depends on the text alone, and so does the error.
#[verifier::external_body]
fn parse_url(url: &str) -> (r: Result<UrlParts, url::ParseError>)
    ensures
        match r {
            Ok(parts) => url_parts(url@) == Ok::<UrlView, url::ParseError>(parts@),
            Err(error) => url_parts(url@) == Err::<UrlView, url::ParseError>(error),
        },
{
    let url = Url::parse(url)?;
    Ok(
        UrlParts {
            scheme: url.scheme().to_string(),
            host: match url.host() {
                Some(host) => Some(host.to_string()),
                None => None,
            },
            port: url.port(),
            text: url.to_string(),
        },
    )
}

/// The endpoint at the host and the port of a URL, if it has a host.
pub open spec fn endpoint_at(url: UrlView) -> Option<Seq<char>> {
    match (url.host, url.port) {
        (Some(host), Some(port)) => Some("http://"@ + host + ":"@ + text::decimal(port as nat)),
        (Some(host), None) => Some("http://"@ + host),
        (None, _) => None,
    }
}

/// What is said of a URL with another scheme.
pub open spec fn wrong_scheme(url: UrlView) -> Seq<char> {
    "connection URL does not have a `dynamodb` scheme; url="@ + url.text
}

/// Whether an optional text is the given one.
pub open spec fn is_text(text: Option<String>, view: Option<Seq<char>>) -> bool {
    match (text, view) {
        (Some(text), Some(view)) => text@ == view,
        (None, None) => true,
        _ => false,
    }
}

/// The endpoint that a URL stands for, if it names one.
///
/// Without one, the connection goes where the configuration says.
pub fn endpoint_of(url: &UrlParts) -> (r: Result<Option<String>, ConnectError>)
    ensures
        if url@.scheme == "dynamodb"@ {
            r matches Ok(endpoint) && is_text(endpoint, endpoint_at(url@))
        } else {
            r matches Err(ConnectError::WrongScheme(message)) && message@ == wrong_scheme(url@)
        },
{
    if url.scheme != "dynamodb".to_string() {
        let mut message = "connection URL does not have a `dynamodb` scheme; url=".to_string();
        message.append(url.text.as_str());
        return Err(ConnectError::WrongScheme(message));
    }
    match &url.host {
        Some(host) => {
            let mut endpoint = "http://".to_string();
            endpoint.append(host.as_str());
            match url.port {
                Some(port) => {
                    endpoint.append(":");
                    text::append_decimal(&mut endpoint, port as u64);
                },
                None => {},
            }
            Ok(Some(endpoint))
        },
        None => Ok(None),
    }
}

/// The endpoint that the text of a URL stands for, if it names one.
pub fn endpoint(url: &str) -> (r: Result<Option<String>, ConnectError>)
    ensures
        match url_parts(url@) {
            Ok(parts) => if parts.scheme == "dynamodb"@ {
                r matches Ok(endpoint) && is_text(endpoint, endpoint_at(parts))
            } else {
                r matches Err(ConnectError::WrongScheme(message)) && message@ == wrong_scheme(
                    parts,
                )
            },
            Err(error) => r == Err::<Option<String>, ConnectError>(ConnectError::InvalidUrl(error)),
        },
{
    match parse_url(url) {
        Ok(parts) => endpoint_of(&parts),
        Err(error) => Err(ConnectError::InvalidUrl(error)),
    }
}

} // verus!
