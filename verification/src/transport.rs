//! The address of the settlement-layer node, with the credentials that
//! the configuration gives.

use vstd::prelude::*;
use vstd::utf8::encode_utf8;

verus! {

/// The longest address, in bytes, that is handed to the URL parser.
pub const MAX_URL_BYTES: usize = 0x1000_0000;

/// The longest password, in bytes, that is put into an address.
pub const MAX_PASSWORD_BYTES: usize = 0x1000_0000;

/// How to reach the settlement-layer node, as configured.
#[derive(Debug)]
pub struct EthereumConfig {
    /// The address of the node.
    pub url: String,
    /// The user agent to announce, if any.
    pub user: Option<String>,
    /// The password to put into the address, if any.
    pub password: Option<String>,
}

/// How to reach the settlement-layer node, ready for the HTTP client.
#[derive(Debug)]
pub struct Endpoint {
    /// The address, with the password in it.
    pub url: String,
    /// The user agent to announce, if any.
    pub user_agent: Option<String>,
}

/// Why no endpoint could be made of a configuration.
#[derive(Clone, Copy, Debug, PartialEq, Eq, Structural)]
pub enum TransportError {
    /// The address is no URL.
    InvalidUrl,
    /// The address is a URL that cannot carry a password.
    SettingPassword,
}

/// Whether `url` parses as a URL.
pub uninterp spec fn url_parses(url: Seq<char>) -> bool;

/// The text of the URL that `url` parses to, once its password is set to
/// `password` (or removed, for `None`); `None` where `url` does not parse
/// or the URL cannot carry a password.
pub uninterp spec fn url_with_password(url: Seq<char>, password: Option<Seq<char>>) -> Option<
    Seq<char>,
>;

/// The characters of an optional string.
pub open spec fn chars_of(s: Option<String>) -> Option<Seq<char>> {
    match s {
        Some(t) => Some(t@),
        None => None,
    }
}

/// The number of bytes that a text takes.
pub open spec fn byte_len(text: Seq<char>) -> nat {
    encode_utf8(text).len()
}

/// Whether the address and the password are short enough for the URL
/// library: the text of a URL must stay below 4 GiB, and a quarter of a
/// GiB for each of the two keeps it there, however much of them has to
/// be escaped.
pub open spec fn within_limits(url: Seq<char>, password: Option<Seq<char>>) -> bool {
    &&& byte_len(url) <= MAX_URL_BYTES
    &&& password matches Some(p) ==> byte_len(p) <= MAX_PASSWORD_BYTES
}

/// Calls `reqwest::Url::parse` (the `url` crate's parser) and says
/// whether it succeeded. Claimed of it: no more than that the outcome
/// depends on the text alone.
#[verifier::external_body]
fn parses_as_url(url: &str) -> (r: bool)
    ensures
        r == url_parses(url@),
{
    reqwest::Url::parse(url).is_ok()
}

/// Calls `reqwest::Url::parse` (the `url` crate's parser), then
/// `Url::set_password` on the result, and gives the URL's text back.
/// Claimed of them: no more than that the outcome depends on the two
/// arguments alone. The bounds keep the text below the 4 GiB at which
/// `set_password` would panic.
#[verifier::external_body]
fn set_url_password(url: &str, password: Option<&str>) -> (r: Option<String>)
    requires
        within_limits(
            url@,
            match password {
                Some(p) => Some(p@),
                None => None,
            },
        ),
    ensures
        chars_of(r) == url_with_password(
            url@,
            match password {
                Some(p) => Some(p@),
                None => None,
            },
        ),
{
    let mut parsed = reqwest::Url::parse(url).ok()?;
    parsed.set_password(password).ok()?;
    Some(String::from(parsed))
}

/// The endpoint for an address that the URL library has dealt with:
/// `authenticated` is the address with the password in it, or `None`
/// where the library refused, and `parses` says whether the address is a
/// URL at all.
pub fn endpoint_from(authenticated: Option<String>, parses: bool, user: Option<String>) -> (r:
    Result<Endpoint, TransportError>)
    ensures
        match authenticated {
            Some(url) => r matches Ok(e) && e.url == url && e.user_agent == user,
            None => r matches Err(e) && e == if parses {
                TransportError::SettingPassword
            } else {
                TransportError::InvalidUrl
            },
        },
{
    match authenticated {
        Some(url) => Ok(Endpoint { url, user_agent: user }),
        None => if parses {
            Err(TransportError::SettingPassword)
        } else {
            Err(TransportError::InvalidUrl)
        },
    }
}

/// The endpoint that a configuration describes: its address with the
/// configured password set (or without any, where none is configured),
/// and its user agent. Every address that can carry the password gives an
/// endpoint.
pub fn ethereum_endpoint(config: EthereumConfig) -> (r: Result<Endpoint, TransportError>)
    requires
        within_limits(config.url@, chars_of(config.password)),
    ensures
        match url_with_password(config.url@, chars_of(config.password)) {
            Some(url) => r matches Ok(e) && e.url@ == url && e.user_agent == config.user,
            None => r matches Err(e) && e == if url_parses(config.url@) {
                TransportError::SettingPassword
            } else {
                TransportError::InvalidUrl
            },
        },
{
    let authenticated = match &config.password {
        Some(p) => set_url_password(config.url.as_str(), Some(p.as_str())),
        None => set_url_password(config.url.as_str(), None),
    };
    let parses = match &authenticated {
        Some(_) => true,
        None => parses_as_url(config.url.as_str()),
    };
    endpoint_from(authenticated, parses, config.user)
}

/// The endpoint that a configuration describes, as `ethereum_endpoint`
/// gives it, for a caller that has not measured the configuration: `None`
/// where the address or the password is too long for the URL library.
pub fn checked_ethereum_endpoint(config: EthereumConfig) -> (r: Option<
    Result<Endpoint, TransportError>,
>)
    ensures
        r is Some <==> within_limits(config.url@, chars_of(config.password)),
        r matches Some(made) ==> match url_with_password(
            config.url@,
            chars_of(config.password),
        ) {
            Some(url) => made matches Ok(e) && e.url@ == url && e.user_agent == config.user,
            None => made matches Err(e) && e == if url_parses(config.url@) {
                TransportError::SettingPassword
            } else {
                TransportError::InvalidUrl
            },
        },
{
    if config.url.as_str().as_bytes().len() > MAX_URL_BYTES {
        return None;
    }
    match &config.password {
        Some(p) => {
            if p.as_str().as_bytes().len() > MAX_PASSWORD_BYTES {
                return None;
            }
        },
        None => {},
    }
    Some(ethereum_endpoint(config))
}

} // verus!
