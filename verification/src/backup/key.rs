//! Where the recipient that a backup is encrypted to comes from: the user's API, or a
//! fixed one.

use vstd::prelude::*;
use vstd::string::*;

use crate::backup::crypto::{recipient_of, Recipient};
use crate::credentials::Credentials;
use crate::text::{self, decimal, is_char_or_space, lemma_trim_end_at, trimmed, trimmed_to};

verus! {

/// `User-Agent` sent with key requests.
pub const USER_AGENT: &'static str = "bukagu/0.1.0";

/// Path of the recipient endpoint, where nothing else is configured.
pub const DEFAULT_RECIPIENT_PATH: &'static str = "/recipient";

/// The form in which a configured endpoint path is used.
pub open spec fn endpoint_path(raw: Seq<char>) -> Seq<char> {
    let bare = trimmed_to(raw, '/');
    if bare.len() == 0 {
        DEFAULT_RECIPIENT_PATH@
    } else if bare[0] == '/' {
        bare
    } else {
        "/"@ + bare
    }
}

/// Bring a configured endpoint path into form: without surrounding white space and
/// trailing slashes, with a leading slash, and the default where nothing is left.
pub fn normalize_recipient_path(raw: &str) -> (res: String)
    ensures
        res@ == endpoint_path(raw@),
{
    let bare = text::trim_to(raw, '/');
    if bare.as_str().unicode_len() == 0 {
        DEFAULT_RECIPIENT_PATH.to_owned()
    } else if bare.as_str().get_char(0) == '/' {
        bare
    } else {
        text::concat("/", bare.as_str())
    }
}

/// Why there is no recipient.
#[derive(Debug, PartialEq, Eq)]
pub enum KeyError {
    /// The reply is blank.
    EmptyBody,
    /// The reply is no recipient; why not.
    NotARecipient(String),
    /// The API answered with an HTTP error.
    Status(u16),
    /// The API at `url` could not be reached; why not.
    Unreachable { url: String, detail: String },
    /// The reply could not be read; why not.
    Unreadable(String),
}

/// What may help with an HTTP error.
pub open spec fn status_hint(code: u16) -> Seq<char> {
    if code == 401 || code == 403 {
        " — is your API token valid? re-run `bukagu auth login`"@
    } else if 300 <= code <= 399 {
        " — the API redirected; point BUKAGU_API_URL at the final https URL"@
    } else {
        ""@
    }
}

/// The sentence in which an error is reported.
pub open spec fn key_error_text(e: KeyError) -> Seq<char> {
    match e {
        KeyError::EmptyBody => "the backup key API returned an empty body"@,
        KeyError::NotARecipient(detail) =>
            "the backup key API did not return a valid age recipient: "@ + detail@,
        KeyError::Status(code) => "the backup key API returned HTTP "@ + decimal(code as nat)
            + status_hint(code),
        KeyError::Unreachable { url, detail } => "could not reach the backup key API at "@ + url@
            + ": "@ + detail@,
        KeyError::Unreadable(detail) => "reading the key API response: "@ + detail@,
    }
}

impl KeyError {
    /// A one-line description.
    pub fn message(&self) -> (res: String)
        ensures
            res@ == key_error_text(*self),
    {
        match self {
            KeyError::EmptyBody => "the backup key API returned an empty body".to_owned(),
            KeyError::NotARecipient(detail) => text::concat(
                "the backup key API did not return a valid age recipient: ",
                detail.as_str(),
            ),
            KeyError::Status(code) => {
                let hint = if *code == 401 || *code == 403 {
                    " — is your API token valid? re-run `bukagu auth login`"
                } else if 300 <= *code && *code <= 399 {
                    " — the API redirected; point BUKAGU_API_URL at the final https URL"
                } else {
                    ""
                };
                text::concat3(
                    "the backup key API returned HTTP ",
                    text::decimal_of(*code as u64).as_str(),
                    hint,
                )
            },
            KeyError::Unreachable { url, detail } => {
                let mut s = "could not reach the backup key API at ".to_owned();
                s.append(url.as_str());
                s.append(": ");
                s.append(detail.as_str());
                s
            },
            KeyError::Unreadable(detail) => text::concat(
                "reading the key API response: ",
                detail.as_str(),
            ),
        }
    }
}

/// What is read from a reply: its trimmed text as a recipient.
pub open spec fn recipient_outcome(body: Seq<char>, res: Result<Recipient, KeyError>) -> bool {
    if trimmed(body).len() == 0 {
        res matches Err(KeyError::EmptyBody)
    } else {
        match res {
            Ok(r) => recipient_of(trimmed(body)) == Ok::<_, Seq<char>>(r@),
            Err(e) => e matches KeyError::NotARecipient(detail) && recipient_of(trimmed(body))
                == Err::<Seq<char>, _>(detail@),
        }
    }
}

/// Read an `age1…` recipient from a reply. Anything else is refused, so that a faulty
/// reply cannot lead to a backup encrypted to the wrong key or to none.
pub fn parse_recipient(body: &str) -> (res: Result<Recipient, KeyError>)
    ensures
        recipient_outcome(body@, res),
{
    let t = text::trim(body);
    if t.as_str().unicode_len() == 0 {
        return Err(KeyError::EmptyBody);
    }
    match Recipient::parse(t.as_str()) {
        Ok(r) => Ok(r),
        Err(e) => Err(KeyError::NotARecipient(e)),
    }
}

/// Supplies the recipient that a backup is encrypted to.
pub trait KeyProvider {
    /// The recipient. May ask over the network.
    fn recipient(&self) -> Result<Recipient, KeyError>;
}

/// A fixed recipient. Never touches the network.
pub struct StaticKeyProvider {
    pub recipient: Recipient,
}

impl StaticKeyProvider {
    /// A provider of `recipient`.
    pub fn new(recipient: Recipient) -> (res: StaticKeyProvider)
        ensures
            res.recipient == recipient,
    {
        StaticKeyProvider { recipient }
    }
}

impl KeyProvider for StaticKeyProvider {
    fn recipient(&self) -> (res: Result<Recipient, KeyError>)
        ensures
            res matches Ok(r) && r@ == self.recipient@,
    {
        Ok(self.recipient.clone())
    }
}

/// What came of a request to the API.
#[derive(Debug)]
pub enum KeyReply {
    /// A reply with this text.
    Body(String),
    /// A reply that could not be read.
    Unreadable(String),
    /// An HTTP error or a redirect.
    Status(u16),
    /// No reply.
    Unreachable(String),
}

/// The request for a recipient: where to, and the authorization that goes with it.
#[derive(Debug)]
pub struct KeyRequest {
    pub url: String,
    pub authorization: String,
}

/// Asks the user's API for the recipient, with a bearer token.
pub struct HttpKeyProvider {
    pub creds: Credentials,
}

impl HttpKeyProvider {
    /// A provider that uses these credentials.
    pub fn new(creds: Credentials) -> (res: HttpKeyProvider)
        ensures
            res.creds == creds,
    {
        HttpKeyProvider { creds }
    }

    /// Where the recipient is served: the base URL and the configured path, which is
    /// the default one where the setting is blank.
    pub fn endpoint(&self, path_setting: &str) -> (res: String)
        ensures
            res@ == self.creds.api_url@ + endpoint_path(path_setting@),
    {
        text::concat(
            self.creds.api_url.as_str(),
            normalize_recipient_path(path_setting).as_str(),
        )
    }

    /// The request to send.
    pub fn request(&self, path_setting: &str) -> (res: KeyRequest)
        ensures
            res.url@ == self.creds.api_url@ + endpoint_path(path_setting@),
            res.authorization@ == "Bearer "@ + self.creds.api_token@,
    {
        KeyRequest {
            url: self.endpoint(path_setting),
            authorization: text::concat("Bearer ", self.creds.api_token.as_str()),
        }
    }

    /// The recipient that a reply to the request gives. The text of an error reply is
    /// never looked at.
    pub fn answer(&self, request: &KeyRequest, reply: KeyReply) -> (res: Result<Recipient, KeyError>)
        ensures
            match reply {
                KeyReply::Body(body) => recipient_outcome(body@, res),
                KeyReply::Unreadable(detail) => res matches Err(e) && e == KeyError::Unreadable(
                    detail,
                ),
                KeyReply::Status(code) => res matches Err(e) && e == KeyError::Status(code),
                KeyReply::Unreachable(why) => res matches Err(
                    KeyError::Unreachable { url, detail },
                ) && url@ == request.url@ && detail == why,
            },
    {
        match reply {
            KeyReply::Body(body) => parse_recipient(body.as_str()),
            KeyReply::Unreadable(detail) => Err(KeyError::Unreadable(detail)),
            KeyReply::Status(code) => Err(KeyError::Status(code)),
            KeyReply::Unreachable(detail) => Err(
                KeyError::Unreachable { url: request.url.clone(), detail },
            ),
        }
    }
}

// --- Laws ------------------------------------------------------------------

/// A reply gives a recipient exactly where its text, trimmed, is one: then that one. A
/// blank reply, and one that is no recipient, are refused as such.
pub proof fn law_only_recipients_are_taken(body: Seq<char>, res: Result<Recipient, KeyError>)
    requires
        recipient_outcome(body, res),
    ensures
        res is Ok <==> trimmed(body).len() > 0 && recipient_of(trimmed(body)) is Ok,
        res matches Ok(r) ==> recipient_of(trimmed(body)) == Ok::<_, Seq<char>>(r@),
        trimmed(body).len() == 0 <==> (res matches Err(e) && e is EmptyBody),
        trimmed(body).len() > 0 && recipient_of(trimmed(body)) is Err <==> (res matches Err(e)
            && e is NotARecipient),
{
}

/// An endpoint path begins with a slash and ends in neither a slash nor white space; a
/// setting in that form is used as it is, and a blank one stands for `/recipient`.
pub proof fn law_endpoint_paths_are_in_form(raw: Seq<char>)
    ensures
        endpoint_path(raw).len() > 1,
        endpoint_path(raw)[0] == '/',
        endpoint_path(raw).last() != '/',
        trimmed_to(raw, '/').len() == 0 ==> endpoint_path(raw) == "/recipient"@,
        trimmed_to(raw, '/').len() > 0 && trimmed_to(raw, '/')[0] == '/' ==> endpoint_path(raw)
            == trimmed_to(raw, '/'),
        trimmed_to(raw, '/').len() > 0 && trimmed_to(raw, '/')[0] != '/' ==> endpoint_path(raw)
            == "/"@ + trimmed_to(raw, '/'),
{
    reveal_strlit("/recipient");
    reveal_strlit("/");
    let bare = trimmed_to(raw, '/');
    lemma_trim_end_at(trimmed(raw), is_char_or_space('/'));
    if bare.len() > 0 {
        assert(!is_char_or_space('/')(bare.last()));
        if bare[0] != '/' {
            assert(("/"@ + bare).last() == bare.last());
        }
    }
}

} // verus!
