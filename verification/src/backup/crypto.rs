//! age (X25519) encryption and gzip compression of whole archives in memory.
//!
//! A backup is encrypted to a *recipient*, a public key; only the matching
//! *identity*, which the user keeps elsewhere, opens it again.

use age::secrecy::ExposeSecret;
use std::io::{Read, Write};
use vstd::prelude::*;
use vstd::string::*;

use crate::path::PathBuf;
use crate::text::{self, lossy_text};

verus! {

// --- age -------------------------------------------------------------------

/// What `age::x25519::Recipient` reads from a text: the recipient in its usual written
/// form, or what is wrong with the text.
pub uninterp spec fn recipient_of(text: Seq<char>) -> Result<Seq<char>, Seq<char>>;

/// What `age::x25519::Identity` reads from a text: the identity in its usual written
/// form and that of the recipient that belongs to it, or what is wrong with the text.
pub uninterp spec fn identity_of(text: Seq<char>) -> Result<(Seq<char>, Seq<char>), Seq<char>>;

/// What comes of decrypting an age file with an identity.
pub uninterp spec fn decrypted(secret: Seq<char>, sealed: Seq<u8>) -> Result<Seq<u8>, Stage>;

/// How far opening an age file came before it failed.
#[derive(Debug, Clone, Copy, PartialEq, Eq, Structural)]
pub enum Stage {
    /// There is no readable age header.
    Header,
    /// The identity does not open the header.
    Key,
    /// The contents are cut short or were tampered with.
    Payload,
}

/// The recipients whose key is a point of low order. A secret shared with one of them
/// is zero whatever the other key is, and age refuses to go on with such a secret.
pub open spec fn is_low_order(recipient: Seq<char>) -> bool {
    ||| recipient == "age1qqqqqqqqqqqqqqqqqqqqqqqqqqqqqqqqqqqqqqqqqqqqqqqqqqqq5cu47z"@
    ||| recipient == "age1qqqqqqqqqqqqqqqqqqqqqqqqqqqqqqqqqqqqqqqqqqqqqqqqqzqqsuwj9m"@
    ||| recipient == "age1qyqqqqqqqqqqqqqqqqqqqqqqqqqqqqqqqqqqqqqqqqqqqqqqqqqqj7vrya"@
    ||| recipient == "age1qyqqqqqqqqqqqqqqqqqqqqqqqqqqqqqqqqqqqqqqqqqqqqqqqzqqk67yly"@
    ||| recipient == "age1ur4h5lpmgxu2u9jku0a0r87ydtdqnr0tnsetrlvxvgz3vh6fhqqqzyt4v9"@
    ||| recipient == "age1ur4h5lpmgxu2u9jku0a0r87ydtdqnr0tnsetrlvxvgz3vh6fhzqqxqejhu"@
    ||| recipient == "age1t7wft09r2zxzfvwsk92eeql0tvzyghxytqwgapkcyf8dm5ylz9ts6wm9s8"@
    ||| recipient == "age1t7wft09r2zxzfvwsk92eeql0tvzyghxytqwgapkcyf8dm5ylz8ts72fzt7"@
    ||| recipient == "age1anlllllllllllllllllllllllllllllllllllllllllllllllals4n2t7m"@
    ||| recipient == "age1anllllllllllllllllllllllllllllllllllllllllllllllllls3hcv9z"@
    ||| recipient == "age1ahlllllllllllllllllllllllllllllllllllllllllllllllalsn46ayy"@
    ||| recipient == "age1ahlllllllllllllllllllllllllllllllllllllllllllllllllsh3g6la"@
    ||| recipient == "age1amlllllllllllllllllllllllllllllllllllllllllllllllalselrwrv"@
    ||| recipient == "age1amlllllllllllllllllllllllllllllllllllllllllllllllllsam3fc4"@
}

/// `age::x25519::Recipient` parses a public key, and prints one in a form that it
/// parses to the same again. Which texts are keys is left to the name [`recipient_of`].
#[verifier::external_body]
pub(crate) fn read_recipient(text: &str) -> (res: Result<String, String>)
    ensures
        match res {
            Ok(t) => recipient_of(text@) == Ok::<_, Seq<char>>(t@) && recipient_of(t@) == Ok::<
                _,
                Seq<char>,
            >(t@),
            Err(e) => recipient_of(text@) == Err::<Seq<char>, _>(e@),
        },
{
    match text.parse::<age::x25519::Recipient>() {
        Ok(r) => Ok(r.to_string()),
        Err(e) => Err(e.to_string()),
    }
}

/// `age::x25519::Identity` parses a secret key, prints one in a form that it parses to
/// the same again, and derives the recipient that belongs to it. Which texts are keys
/// is left to the name [`identity_of`].
#[verifier::external_body]
pub(crate) fn read_identity(text: &str) -> (res: Result<(String, String), String>)
    ensures
        match res {
            Ok((s, p)) => {
                &&& identity_of(text@) == Ok::<_, Seq<char>>((s@, p@))
                &&& identity_of(s@) == Ok::<_, Seq<char>>((s@, p@))
                &&& recipient_of(p@) == Ok::<_, Seq<char>>(p@)
            },
            Err(e) => identity_of(text@) == Err::<(Seq<char>, Seq<char>), _>(e@),
        },
{
    match text.parse::<age::x25519::Identity>() {
        Ok(id) => Ok((id.to_string().expose_secret().to_string(), id.to_public().to_string())),
        Err(e) => Err(e.to_string()),
    }
}

/// `age::encrypt` encrypts bytes to a recipient. It draws fresh random keys, so the
/// bytes that come out are not known; decrypting them with the identity that belongs
/// to the recipient gives the plaintext back. Another identity
/// fails on them but for a negligible chance, so that it fails is left unsaid. Writing to
/// memory, and to one recipient, it does not fail; on a recipient of low order it panics.
#[verifier::external_body]
fn encrypt(recipient: &str, plaintext: &[u8]) -> (res: Option<Vec<u8>>)
    requires
        recipient_of(recipient@) == Ok::<_, Seq<char>>(recipient@),
        !is_low_order(recipient@),
    ensures
        res is Some,
        opens_to(res->0@, recipient@, plaintext@),
{
    let key: age::x25519::Recipient = recipient.parse().ok()?;
    age::encrypt(&key, plaintext).ok()
}

/// `age::Decryptor` reads the header of an age file, unwraps its key with an identity
/// and decrypts what follows. What comes out, or how far it came, is left to the name
/// [`decrypted`]; the wording of a failure depends on the user's language and is left
/// unsaid.
#[verifier::external_body]
fn decrypt(secret: &str, sealed: &[u8]) -> (res: Result<Vec<u8>, (Stage, String)>)
    requires
        identity_of(secret@) is Ok,
    ensures
        match res {
            Ok(plain) => decrypted(secret@, sealed@) == Ok::<_, Stage>(plain@),
            Err((stage, _)) => decrypted(secret@, sealed@) == Err::<Seq<u8>, _>(stage),
        },
{
    let key: age::x25519::Identity = secret.parse().map_err(
        |e: &'static str| (Stage::Key, e.to_string()),
    )?;
    let file = age::Decryptor::new(sealed).map_err(|e| (Stage::Header, e.to_string()))?;
    let mut reader = file.decrypt(std::iter::once(&key as &dyn age::Identity)).map_err(
        |e| (Stage::Key, e.to_string()),
    )?;
    let mut plain = Vec::new();
    reader.read_to_end(&mut plain).map_err(|e| (Stage::Payload, e.to_string()))?;
    Ok(plain)
}

// --- gzip ------------------------------------------------------------------

/// What decompressing a gzip file gives, where it is one.
pub uninterp spec fn gunzipped(packed: Seq<u8>) -> Option<Seq<u8>>;

/// `flate2::write::GzEncoder` compresses bytes into a gzip file, from which they come
/// back. How it packs them is left unsaid. Writing to memory, it does not fail.
#[verifier::external_body]
fn gzip(bytes: &[u8]) -> (res: Option<Vec<u8>>)
    ensures
        res is Some,
        gunzipped(res->0@) == Some(bytes@),
{
    let mut encoder = flate2::write::GzEncoder::new(Vec::new(), flate2::Compression::default());
    encoder.write_all(bytes).ok()?;
    encoder.finish().ok()
}

/// `flate2::read::GzDecoder` decompresses a gzip file. What it gives is left to the
/// name [`gunzipped`], the wording of a failure is left unsaid.
#[verifier::external_body]
fn gunzip(packed: &[u8]) -> (res: Result<Vec<u8>, String>)
    ensures
        match res {
            Ok(bytes) => gunzipped(packed@) == Some(bytes@),
            Err(_) => gunzipped(packed@) is None,
        },
{
    let mut bytes = Vec::new();
    flate2::read::GzDecoder::new(packed).read_to_end(&mut bytes).map_err(|e| e.to_string())?;
    Ok(bytes)
}

// --- Keys ------------------------------------------------------------------

/// A public key that backups are encrypted to.
#[derive(Debug)]
pub struct Recipient {
    text: String,
}

impl View for Recipient {
    type V = Seq<char>;

    closed spec fn view(&self) -> Seq<char> {
        self.text@
    }
}

impl Clone for Recipient {
    fn clone(&self) -> (res: Recipient)
        ensures
            res@ == self@,
    {
        proof {
            use_type_invariant(self);
        }
        Recipient { text: self.text.clone() }
    }
}

impl Recipient {
    #[verifier::type_invariant]
    spec fn inv(&self) -> bool {
        recipient_of(self.text@) == Ok::<_, Seq<char>>(self.text@)
    }

    /// The recipient that a text stands for, or what is wrong with the text.
    pub fn parse(text: &str) -> (res: Result<Recipient, String>)
        ensures
            match res {
                Ok(r) => {
                    &&& recipient_of(text@) == Ok::<_, Seq<char>>(r@)
                    &&& recipient_of(r@) == Ok::<_, Seq<char>>(r@)
                },
                Err(e) => recipient_of(text@) == Err::<Seq<char>, _>(e@),
            },
    {
        match read_recipient(text) {
            Ok(t) => Ok(Recipient { text: t }),
            Err(e) => Err(e),
        }
    }

    /// The recipient in its usual written form.
    pub fn to_string(&self) -> (res: String)
        ensures
            res@ == self@,
    {
        self.text.clone()
    }

    /// Whether nothing can be encrypted to this recipient.
    pub fn is_unusable(&self) -> (res: bool)
        ensures
            res == is_low_order(self@),
    {
        let t = self.text.as_str();
        text::same_text(t, "age1qqqqqqqqqqqqqqqqqqqqqqqqqqqqqqqqqqqqqqqqqqqqqqqqqqqq5cu47z")
            || text::same_text(t, "age1qqqqqqqqqqqqqqqqqqqqqqqqqqqqqqqqqqqqqqqqqqqqqqqqqzqqsuwj9m")
            || text::same_text(t, "age1qyqqqqqqqqqqqqqqqqqqqqqqqqqqqqqqqqqqqqqqqqqqqqqqqqqqj7vrya")
            || text::same_text(t, "age1qyqqqqqqqqqqqqqqqqqqqqqqqqqqqqqqqqqqqqqqqqqqqqqqqzqqk67yly")
            || text::same_text(t, "age1ur4h5lpmgxu2u9jku0a0r87ydtdqnr0tnsetrlvxvgz3vh6fhqqqzyt4v9")
            || text::same_text(t, "age1ur4h5lpmgxu2u9jku0a0r87ydtdqnr0tnsetrlvxvgz3vh6fhzqqxqejhu")
            || text::same_text(t, "age1t7wft09r2zxzfvwsk92eeql0tvzyghxytqwgapkcyf8dm5ylz9ts6wm9s8")
            || text::same_text(t, "age1t7wft09r2zxzfvwsk92eeql0tvzyghxytqwgapkcyf8dm5ylz8ts72fzt7")
            || text::same_text(t, "age1anlllllllllllllllllllllllllllllllllllllllllllllllals4n2t7m")
            || text::same_text(t, "age1anllllllllllllllllllllllllllllllllllllllllllllllllls3hcv9z")
            || text::same_text(t, "age1ahlllllllllllllllllllllllllllllllllllllllllllllllalsn46ayy")
            || text::same_text(t, "age1ahlllllllllllllllllllllllllllllllllllllllllllllllllsh3g6la")
            || text::same_text(t, "age1amlllllllllllllllllllllllllllllllllllllllllllllllalselrwrv")
            || text::same_text(t, "age1amlllllllllllllllllllllllllllllllllllllllllllllllllsam3fc4")
    }
}

/// A private key that opens backups, and the recipient that belongs to it.
pub struct Identity {
    secret: String,
    public: String,
}

impl View for Identity {
    type V = (Seq<char>, Seq<char>);

    /// The identity and its recipient, in their usual written forms.
    closed spec fn view(&self) -> (Seq<char>, Seq<char>) {
        (self.secret@, self.public@)
    }
}

impl Identity {
    #[verifier::type_invariant]
    spec fn inv(&self) -> bool {
        &&& identity_of(self.secret@) == Ok::<_, Seq<char>>((self.secret@, self.public@))
        &&& recipient_of(self.public@) == Ok::<_, Seq<char>>(self.public@)
    }

    /// The identity that a text stands for, or what is wrong with the text.
    pub fn parse(text: &str) -> (res: Result<Identity, String>)
        ensures
            match res {
                Ok(id) => {
                    &&& identity_of(text@) == Ok::<_, Seq<char>>(id@)
                    &&& identity_of(id@.0) == Ok::<_, Seq<char>>(id@)
                },
                Err(e) => identity_of(text@) == Err::<(Seq<char>, Seq<char>), _>(e@),
            },
    {
        match read_identity(text) {
            Ok((secret, public)) => Ok(Identity { secret, public }),
            Err(e) => Err(e),
        }
    }

    /// The recipient that belongs to this identity.
    pub fn to_public(&self) -> (res: Recipient)
        ensures
            res@ == self@.1,
    {
        proof {
            use_type_invariant(self);
        }
        Recipient { text: self.public.clone() }
    }
}

// --- Sealing ---------------------------------------------------------------

/// Why something could not be opened.
#[derive(Debug)]
pub struct OpenError {
    /// Where it failed; nothing where what was opened holds no gzip file.
    pub stage: Option<Stage>,
    /// What the underlying failure was.
    pub detail: String,
}

/// The step of restoring into `target` that failed, in words.
pub open spec fn failed_step(stage: Option<Stage>, target: Seq<u8>) -> Seq<char> {
    match stage {
        Some(Stage::Header) => "reading the age header"@,
        Some(Stage::Key) => "decrypting the backup (wrong key or corrupt file?)"@,
        Some(Stage::Payload) | None => "unpacking into "@ + lossy_text(target),
    }
}

impl OpenError {
    /// The step of restoring into `target` that failed, and why.
    pub fn message(&self, target: &PathBuf) -> (res: String)
        ensures
            res@ == failed_step(self.stage, target@) + ": "@ + self.detail@,
    {
        let step = match self.stage {
            Some(Stage::Header) => "reading the age header".to_owned(),
            Some(Stage::Key) => "decrypting the backup (wrong key or corrupt file?)".to_owned(),
            Some(Stage::Payload) | None => text::concat(
                "unpacking into ",
                target.display().as_str(),
            ),
        };
        text::concat3(step.as_str(), ": ", self.detail.as_str())
    }
}

/// Whether what was sealed to a recipient opens, with the identity that belongs to it,
/// to the given bytes.
pub open spec fn opens_to(sealed: Seq<u8>, recipient: Seq<char>, plain: Seq<u8>) -> bool {
    forall|secret: Seq<char>|
        #![trigger decrypted(secret, sealed)]
        identity_of(secret) == Ok::<_, Seq<char>>((secret, recipient)) ==> decrypted(secret, sealed)
            == Ok::<_, Stage>(plain)
}

/// Encrypt `plaintext` to `recipient`.
pub fn encrypt_to(recipient: &Recipient, plaintext: &Vec<u8>) -> (res: Vec<u8>)
    requires
        !is_low_order(recipient@),
    ensures
        opens_to(res@, recipient@, plaintext@),
{
    proof {
        use_type_invariant(recipient);
    }
    match encrypt(recipient.text.as_str(), plaintext.as_slice()) {
        Some(sealed) => sealed,
        None => {
            assert(false);
            Vec::new()
        },
    }
}

/// Decrypt what was encrypted to the recipient that belongs to `identity`.
pub fn decrypt_with(identity: &Identity, sealed: &Vec<u8>) -> (res: Result<Vec<u8>, OpenError>)
    ensures
        match res {
            Ok(plain) => decrypted(identity@.0, sealed@) == Ok::<_, Stage>(plain@),
            Err(e) => e.stage matches Some(stage) && decrypted(identity@.0, sealed@) == Err::<
                Seq<u8>,
                _,
            >(stage),
        },
{
    proof {
        use_type_invariant(identity);
    }
    match decrypt(identity.secret.as_str(), sealed.as_slice()) {
        Ok(plain) => Ok(plain),
        Err((stage, detail)) => Err(OpenError { stage: Some(stage), detail }),
    }
}

/// Whether sealed bytes are an archive, compressed and encrypted to a recipient.
pub open spec fn seals(sealed: Seq<u8>, recipient: Seq<char>, archive: Seq<u8>) -> bool {
    exists|packed: Seq<u8>| #[trigger]
        gunzipped(packed) == Some(archive) && opens_to(sealed, recipient, packed)
}

/// Compress an archive and encrypt it to `recipient`.
pub fn seal_archive(recipient: &Recipient, archive: &Vec<u8>) -> (res: Vec<u8>)
    requires
        !is_low_order(recipient@),
    ensures
        seals(res@, recipient@, archive@),
{
    match gzip(archive.as_slice()) {
        Some(packed) => {
            assert(gunzipped(packed@) == Some(archive@));
            encrypt_to(recipient, &packed)
        },
        None => {
            assert(false);
            Vec::new()
        },
    }
}

/// What opening a sealed archive gives: decrypted, then decompressed.
pub open spec fn opened(secret: Seq<char>, sealed: Seq<u8>) -> Result<Seq<u8>, Option<Stage>> {
    match decrypted(secret, sealed) {
        Ok(packed) => match gunzipped(packed) {
            Some(archive) => Ok(archive),
            None => Err(None),
        },
        Err(stage) => Err(Some(stage)),
    }
}

/// Decrypt a sealed archive and decompress it.
pub fn open_archive(identity: &Identity, sealed: &Vec<u8>) -> (res: Result<Vec<u8>, OpenError>)
    ensures
        match res {
            Ok(archive) => opened(identity@.0, sealed@) == Ok::<_, Option<Stage>>(archive@),
            Err(e) => opened(identity@.0, sealed@) == Err::<Seq<u8>, _>(e.stage),
        },
{
    match decrypt_with(identity, sealed) {
        Ok(packed) => match gunzip(packed.as_slice()) {
            Ok(archive) => Ok(archive),
            Err(detail) => Err(OpenError { stage: None, detail }),
        },
        Err(e) => Err(e),
    }
}

/// What was sealed to the recipient of an identity, that identity opens to what went
/// in.
pub proof fn law_sealed_archives_open(
    secret: Seq<char>,
    recipient: Seq<char>,
    archive: Seq<u8>,
    sealed: Seq<u8>,
)
    requires
        identity_of(secret) == Ok::<_, Seq<char>>((secret, recipient)),
        seals(sealed, recipient, archive),
    ensures
        opened(secret, sealed) == Ok::<_, Option<Stage>>(archive),
{
    let packed = choose|packed: Seq<u8>| #[trigger]
        gunzipped(packed) == Some(archive) && opens_to(sealed, recipient, packed);
    assert(decrypted(secret, sealed) == Ok::<_, Stage>(packed));
}

/// A sealed archive opens exactly where it can be decrypted with the identity and what
/// comes out can be decompressed, and to what comes of that; a failure tells which of the
/// two it was.
pub proof fn law_archives_open_in_two_steps(secret: Seq<char>, sealed: Seq<u8>)
    ensures
        opened(secret, sealed) is Ok <==> (decrypted(secret, sealed) matches Ok(packed)
            && gunzipped(packed) is Some),
        opened(secret, sealed) matches Ok(archive) ==> decrypted(secret, sealed) matches Ok(packed)
            && gunzipped(packed) == Some(archive),
        opened(secret, sealed) == Err::<Seq<u8>, Option<Stage>>(None) <==> (decrypted(
            secret,
            sealed,
        ) matches Ok(packed) && gunzipped(packed) is None),
        decrypted(secret, sealed) matches Err(stage) ==> opened(secret, sealed) == Err::<
            Seq<u8>,
            _,
        >(Some(stage)),
{
}

} // verus!
