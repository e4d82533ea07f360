//! API credentials for fetching the backup recipient key: a token and a base URL,
//! from the environment or from a file.

use vstd::prelude::*;
use vstd::string::*;
use vstd::utf8::*;

use crate::path::{joined, PathBuf};
use crate::store::{chars_in, copy_text};
use crate::text::{
    self, debug_text, is_char_or_space, is_white_space, trim_end, trim_start, trimmed, trimmed_to,
};

verus! {

/// Environment variable that overrides the stored API token.
pub const TOKEN_ENV: &'static str = "BUKAGU_API_TOKEN";

/// Environment variable that overrides the stored API base URL.
pub const URL_ENV: &'static str = "BUKAGU_API_URL";

/// Environment variable that overrides the path of the recipient endpoint.
pub const RECIPIENT_PATH_ENV: &'static str = "BUKAGU_API_RECIPIENT_PATH";

/// Ready-to-use credentials: a token and a valid https base URL without a trailing
/// slash.
#[derive(Debug)]
pub struct Credentials {
    pub api_token: String,
    pub api_url: String,
}

impl Clone for Credentials {
    fn clone(&self) -> (res: Credentials)
        ensures
            res.api_token@ == self.api_token@,
            res.api_url@ == self.api_url@,
    {
        Credentials { api_token: self.api_token.clone(), api_url: self.api_url.clone() }
    }
}

/// What the credentials file holds. Both fields are optional, so that a partly filled
/// file is one too.
#[derive(Debug)]
pub struct StoredCredentials {
    pub api_token: Option<String>,
    pub api_url: Option<String>,
}

impl Default for StoredCredentials {
    fn default() -> (res: StoredCredentials)
        ensures
            res.api_token is None,
            res.api_url is None,
    {
        StoredCredentials { api_token: None, api_url: None }
    }
}

/// Why there are no usable credentials.
#[derive(Debug, PartialEq, Eq)]
pub enum CredentialsError {
    /// Neither the environment nor the file has a token.
    NoToken,
    /// Neither the environment nor the file has a URL.
    NoUrl,
    /// The token to save is empty.
    EmptyToken,
    /// The URL has no host.
    NoHost(String),
    /// The URL would send the token unencrypted.
    PlainHttp(String),
    /// The URL is no https URL.
    NotHttps(String),
}

/// The sentence in which an error is reported.
pub open spec fn error_text(e: CredentialsError) -> Seq<char> {
    match e {
        CredentialsError::NoToken =>
            "no API token found — set BUKAGU_API_TOKEN, or run `bukagu auth login` after copying your token from the website"@,
        CredentialsError::NoUrl =>
            "no API URL found — set BUKAGU_API_URL, or run `bukagu auth login`"@,
        CredentialsError::EmptyToken => "the API token is empty"@,
        CredentialsError::NoHost(raw) => "the API URL has no host: "@ + debug_text(raw@),
        CredentialsError::PlainHttp(raw) => "refusing a plain-HTTP API URL ("@ + debug_text(raw@)
            + ") — use https:// so the token is encrypted in transit"@,
        CredentialsError::NotHttps(raw) => "the API URL must start with https:// (got "@
            + debug_text(raw@) + ")"@,
    }
}

impl CredentialsError {
    /// A one-line description.
    pub fn message(&self) -> (res: String)
        ensures
            res@ == error_text(*self),
    {
        match self {
            CredentialsError::NoToken =>
                "no API token found — set BUKAGU_API_TOKEN, or run `bukagu auth login` after copying your token from the website".to_owned(),
            CredentialsError::NoUrl =>
                "no API URL found — set BUKAGU_API_URL, or run `bukagu auth login`".to_owned(),
            CredentialsError::EmptyToken => "the API token is empty".to_owned(),
            CredentialsError::NoHost(raw) => text::concat(
                "the API URL has no host: ",
                text::debug(raw.as_str()).as_str(),
            ),
            CredentialsError::PlainHttp(raw) => text::concat3(
                "refusing a plain-HTTP API URL (",
                text::debug(raw.as_str()).as_str(),
                ") — use https:// so the token is encrypted in transit",
            ),
            CredentialsError::NotHttps(raw) => text::concat3(
                "the API URL must start with https:// (got ",
                text::debug(raw.as_str()).as_str(),
                ")",
            ),
        }
    }
}

// --- URLs ------------------------------------------------------------------

/// A URL without surrounding white space and trailing slashes.
pub open spec fn bare_url(raw: Seq<char>) -> Seq<char> {
    trimmed_to(raw, '/')
}

/// What becomes of a URL: its bare form, or the error it gives.
pub open spec fn url_outcome(raw: Seq<char>, res: Result<Seq<char>, CredentialsError>) -> bool {
    let url = bare_url(raw);
    if "https://"@.is_prefix_of(url) {
        if url.len() == "https://"@.len() {
            res matches Err(CredentialsError::NoHost(r)) && r@ == raw
        } else {
            res == Ok::<_, CredentialsError>(url)
        }
    } else if "http://"@.is_prefix_of(url) {
        res matches Err(CredentialsError::PlainHttp(r)) && r@ == raw
    } else {
        res matches Err(CredentialsError::NotHttps(r)) && r@ == raw
    }
}

/// A result with its text as characters.
pub open spec fn chars_of_result(res: Result<String, CredentialsError>) -> Result<
    Seq<char>,
    CredentialsError,
> {
    match res {
        Ok(s) => Ok(s@),
        Err(e) => Err(e),
    }
}

/// Check that a base URL is HTTPS and has a host, and give it without surrounding
/// white space and trailing slashes.
pub fn validate_url(raw: &str) -> (res: Result<String, CredentialsError>)
    ensures
        url_outcome(raw@, chars_of_result(res)),
{
    let url = text::trim_to(raw, '/');
    if text::starts_with(url.as_str(), "https://") {
        if url.as_str().unicode_len() == "https://".unicode_len() {
            return Err(CredentialsError::NoHost(raw.to_owned()));
        }
        Ok(url)
    } else if text::starts_with(url.as_str(), "http://") {
        Err(CredentialsError::PlainHttp(raw.to_owned()))
    } else {
        Err(CredentialsError::NotHttps(raw.to_owned()))
    }
}

// --- Precedence ------------------------------------------------------------

/// The value of an environment variable that counts: trimmed, and not empty.
pub open spec fn env_value(raw: Option<Seq<char>>) -> Option<Seq<char>> {
    match raw {
        Some(s) => if trimmed(s).len() == 0 {
            None
        } else {
            Some(trimmed(s))
        },
        None => None,
    }
}

/// The non-empty, trimmed value of an environment variable, if it is set.
pub fn env_var(raw: &Option<String>) -> (res: Option<String>)
    ensures
        chars_in(res) == env_value(chars_in(*raw)),
{
    match raw {
        Some(s) => {
            let t = text::trim(s.as_str());
            if t.as_str().unicode_len() == 0 {
                None
            } else {
                Some(t)
            }
        },
        None => None,
    }
}

/// The value of the environment, or else a value of the file that is not blank.
pub open spec fn preferred(env: Option<Seq<char>>, stored: Option<Seq<char>>) -> Option<Seq<char>> {
    match env {
        Some(s) => Some(s),
        None => match stored {
            Some(s) => if trimmed(s).len() == 0 {
                None
            } else {
                Some(s)
            },
            None => None,
        },
    }
}

fn prefer(env: &Option<String>, stored: &Option<String>) -> (res: Option<String>)
    ensures
        chars_in(res) == preferred(chars_in(*env), chars_in(*stored)),
{
    if env.is_some() {
        return copy_text(env);
    }
    match stored {
        Some(s) => {
            if text::trim(s.as_str()).as_str().unicode_len() == 0 {
                None
            } else {
                Some(s.clone())
            }
        },
        None => None,
    }
}

/// Which credentials, or which error, come of given values.
pub open spec fn resolution(
    token: Option<Seq<char>>,
    url: Option<Seq<char>>,
    res: Result<Credentials, CredentialsError>,
) -> bool {
    match token {
        None => res matches Err(CredentialsError::NoToken),
        Some(t) => match url {
            None => res matches Err(CredentialsError::NoUrl),
            Some(u) => match res {
                Ok(c) => c.api_token@ == trimmed(t) && url_outcome(u, Ok(c.api_url@)),
                Err(e) => url_outcome(u, Err(e)),
            },
        },
    }
}

/// Ready credentials from the file and the environment; the environment wins.
pub fn resolve(stored: &StoredCredentials, env_token: Option<String>, env_url: Option<String>)
    -> (res: Result<Credentials, CredentialsError>)
    ensures
        resolution(
            preferred(chars_in(env_token), chars_in(stored.api_token)),
            preferred(chars_in(env_url), chars_in(stored.api_url)),
            res,
        ),
{
    let api_token = match prefer(&env_token, &stored.api_token) {
        Some(t) => text::trim(t.as_str()),
        None => {
            return Err(CredentialsError::NoToken);
        },
    };
    let raw_url = match prefer(&env_url, &stored.api_url) {
        Some(u) => u,
        None => {
            return Err(CredentialsError::NoUrl);
        },
    };
    match validate_url(raw_url.as_str()) {
        Ok(api_url) => Ok(Credentials { api_token, api_url }),
        Err(e) => Err(e),
    }
}

/// Whether this is what is saved for a token and a URL: the trimmed token, which is not
/// empty, and the valid URL.
pub open spec fn saved_as(token: Seq<char>, url: Seq<char>, stored: StoredCredentials) -> bool {
    &&& stored.api_url matches Some(u) && url_outcome(url, Ok(u@))
    &&& stored.api_token matches Some(t) && t@ == trimmed(token) && t@.len() > 0
}

impl Credentials {
    /// Credentials from the values of the two environment variables, as they are set,
    /// and from the file.
    pub fn load(stored: &StoredCredentials, token_var: &Option<String>, url_var: &Option<String>)
        -> (res: Result<Credentials, CredentialsError>)
        ensures
            resolution(
                preferred(env_value(chars_in(*token_var)), chars_in(stored.api_token)),
                preferred(env_value(chars_in(*url_var)), chars_in(stored.api_url)),
                res,
            ),
    {
        resolve(stored, env_var(token_var), env_var(url_var))
    }

    /// What to write into the credentials file for a token and a URL: the trimmed token
    /// and the valid URL.
    pub fn save(api_token: &str, api_url: &str) -> (res: Result<StoredCredentials, CredentialsError>)
        ensures
            match res {
                Ok(s) => saved_as(api_token@, api_url@, s),
                Err(e) => if e is EmptyToken {
                    &&& trimmed(api_token@).len() == 0
                    &&& url_outcome(api_url@, Ok(bare_url(api_url@)))
                } else {
                    url_outcome(api_url@, Err(e))
                },
            },
    {
        let api_url = match validate_url(api_url) {
            Ok(u) => u,
            Err(e) => {
                return Err(e);
            },
        };
        let api_token = text::trim(api_token);
        if api_token.as_str().unicode_len() == 0 {
            return Err(CredentialsError::EmptyToken);
        }
        Ok(StoredCredentials { api_token: Some(api_token), api_url: Some(api_url) })
    }
}

/// The credentials file below the user's configuration folder.
pub fn config_path(config_dir: &PathBuf) -> (res: PathBuf)
    ensures
        res@ == joined(
            joined(config_dir@, encode_utf8("bukagu"@)),
            encode_utf8("credentials.json"@),
        ),
{
    config_dir.join(&PathBuf::of("bukagu")).join(&PathBuf::of("credentials.json"))
}

// --- Laws ------------------------------------------------------------------

proof fn lemma_trim_end_stops(s: Seq<char>, drop: spec_fn(char) -> bool)
    ensures
        trim_end(s, drop).len() > 0 ==> !drop(trim_end(s, drop).last()),
        trim_end(s, drop).is_prefix_of(s),
    decreases s.len(),
{
    if s.len() > 0 && drop(s.last()) {
        lemma_trim_end_stops(s.drop_last(), drop);
        let t = trim_end(s, drop);
        assert(s.subrange(0, t.len() as int) =~= s.drop_last().subrange(0, t.len() as int));
    } else {
        assert(s.subrange(0, s.len() as int) =~= s);
    }
}

/// A URL that passes is HTTPS, names a host and ends in neither a slash nor white space;
/// so the token never travels unencrypted.
pub proof fn law_valid_urls_are_https(raw: Seq<char>, url: Seq<char>)
    requires
        url_outcome(raw, Ok(url)),
    ensures
        "https://"@.is_prefix_of(url),
        url.len() > 8,
        url.last() != '/',
        !is_white_space(url.last()),
{
    reveal_strlit("https://");
    lemma_trim_end_stops(trimmed(raw), is_char_or_space('/'));
}

/// Checking a URL that has passed changes nothing.
pub proof fn law_valid_urls_stay(raw: Seq<char>, url: Seq<char>)
    requires
        url_outcome(raw, Ok(url)),
    ensures
        url_outcome(url, Ok(url)),
{
    law_valid_urls_are_https(raw, url);
    reveal_strlit("https://");
    assert(url.subrange(0, 8)[0] == url[0]);
    let ws = |c: char| is_white_space(c);
    assert(!ws(url[0]));
    assert(trim_start(url, ws) == url);
    assert(!ws(url.last()));
    assert(trim_end(url, ws) == url);
    assert(trimmed(url) == url);
    assert(!is_char_or_space('/')(url.last()));
    assert(bare_url(url) == url);
}

proof fn lemma_trim_start_stops(s: Seq<char>, drop: spec_fn(char) -> bool)
    ensures
        trim_start(s, drop).len() > 0 ==> !drop(trim_start(s, drop)[0]),
    decreases s.len(),
{
    if s.len() > 0 && drop(s[0]) {
        lemma_trim_start_stops(s.drop_first(), drop);
    }
}

proof fn lemma_trimmed_stays(s: Seq<char>)
    ensures
        trimmed(trimmed(s)) == trimmed(s),
{
    let ws = |c: char| is_white_space(c);
    let a = trim_start(s, ws);
    let t = trimmed(s);
    lemma_trim_start_stops(s, ws);
    lemma_trim_end_stops(a, ws);
    if t.len() > 0 {
        assert(a.subrange(0, t.len() as int)[0] == a[0]);
        assert(trim_start(t, ws) == t);
        assert(trim_end(t, ws) == t);
    } else {
        assert(trim_start(t, ws) == t);
        assert(trim_end(t, ws) == t);
    }
}

/// What is saved is what is loaded again where the environment sets nothing: the trimmed
/// token and the valid URL.
pub proof fn law_saved_credentials_load(
    token: Seq<char>,
    url: Seq<char>,
    stored: StoredCredentials,
    res: Result<Credentials, CredentialsError>,
)
    requires
        saved_as(token, url, stored),
        resolution(
            preferred(None, chars_in(stored.api_token)),
            preferred(None, chars_in(stored.api_url)),
            res,
        ),
    ensures
        res matches Ok(c) && c.api_token@ == trimmed(token) && url_outcome(url, Ok(c.api_url@)),
{
    lemma_trimmed_stays(token);
    let u = stored.api_url->0@;
    law_valid_urls_stay(url, u);
    law_valid_urls_are_https(url, u);
    lemma_trim_end_stops(trimmed(u), is_char_or_space('/'));
    assert(trimmed(u).len() > 0);
}

/// The environment wins: a variable that is not blank is used, trimmed, whatever the file
/// says; one that is blank or not set leaves the choice to the file, whose blank values
/// count for nothing.
pub proof fn law_the_environment_wins(env: Option<Seq<char>>, stored: Option<Seq<char>>)
    ensures
        ({
            let used = preferred(env_value(env), stored);
            &&& env is Some && trimmed(env->0).len() > 0 ==> used == Some(trimmed(env->0))
            &&& (env is None || trimmed(env->0).len() == 0) && stored is Some && trimmed(
                stored->0,
            ).len() > 0 ==> used == stored
            &&& used is None <==> (env is None || trimmed(env->0).len() == 0) && (stored is None
                || trimmed(stored->0).len() == 0)
        }),
{
}

/// Which URLs pass: those that begin with `https://` and have something behind it, once
/// white space and trailing slashes are gone. Plain HTTP is refused as such.
pub proof fn law_https_urls_pass(raw: Seq<char>, res: Result<Seq<char>, CredentialsError>)
    requires
        url_outcome(raw, res),
    ensures
        ({
            let url = trimmed_to(raw, '/');
            &&& res is Ok <==> "https://"@.is_prefix_of(url) && url.len() > 8
            &&& res is Ok ==> res == Ok::<_, CredentialsError>(url)
            &&& (res matches Err(e) && e is PlainHttp) <==> "http://"@.is_prefix_of(url)
            &&& (res matches Err(e) && e is NoHost) <==> url == "https://"@
        }),
{
    reveal_strlit("https://");
    reveal_strlit("http://");
    let url = bare_url(raw);
    if "https://"@.is_prefix_of(url) {
        assert(url.subrange(0, 8)[4] == url[4]);
        if "http://"@.is_prefix_of(url) {
            assert(url.subrange(0, 7)[4] == url[4]);
        }
        if url.len() == 8 {
            assert(url =~= url.subrange(0, 8));
        }
    }
    if url == "https://"@ {
        assert(url.subrange(0, 8) =~= url);
    }
}

/// Loading gives the token, trimmed, and the valid URL that are used, and fails where one
/// of them is missing or the URL does not pass.
pub proof fn law_credentials_need_both(
    token: Option<Seq<char>>,
    url: Option<Seq<char>>,
    res: Result<Credentials, CredentialsError>,
)
    requires
        resolution(token, url, res),
    ensures
        token is None <==> (res matches Err(e) && e is NoToken),
        token is Some && url is None ==> (res matches Err(e) && e is NoUrl),
        res is Ok <==> token is Some && (url matches Some(u) && "https://"@.is_prefix_of(
            trimmed_to(u, '/'),
        ) && trimmed_to(u, '/').len() > 8),
        res matches Ok(c) ==> c.api_token@ == trimmed(token->0) && c.api_url@ == trimmed_to(
            url->0,
            '/',
        ),
{
    if token is Some && url is Some {
        let r = match res {
            Ok(c) => Ok(c.api_url@),
            Err(e) => Err(e),
        };
        law_https_urls_pass(url->0, r);
    }
}

/// What is saved is the token without surrounding white space and the URL in its bare form,
/// and only where there is a token.
pub proof fn law_credentials_are_saved_bare(
    token: Seq<char>,
    url: Seq<char>,
    stored: StoredCredentials,
)
    requires
        saved_as(token, url, stored),
    ensures
        chars_in(stored.api_token) == Some(trimmed(token)),
        chars_in(stored.api_url) == Some(trimmed_to(url, '/')),
        trimmed(token).len() > 0,
{
    law_https_urls_pass(url, Ok(stored.api_url->0@));
}

} // verus!
