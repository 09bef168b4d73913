//! SSH: what a provider can do, host keys, keys and certificates for logging
//! in, and the decisions of authentication and of running a command.
use crate::outside::{
    certificate_facts, held_facts, held_public, key_fingerprint, read_certificate,
    read_secret_key, secret_public_key, MAX_KEY_TEXT_BYTES, MAX_SECRET_TEXT_BYTES,
};
use crate::bytes::same_bytes;
use crate::text::{byte_len, same_text, string_views, utf8};
use vstd::prelude::*;

verus! {

pub const MAX_KEYBOARD_INTERACTIVE_ROUNDS: usize = 16;

pub const MAX_KEYBOARD_INTERACTIVE_PROMPTS: usize = 32;

pub const MAX_KEYBOARD_INTERACTIVE_METADATA_BYTES: usize = 16384;

pub const MAX_AGENT_IDENTITIES: usize = 256;

#[derive(Clone, Copy, Debug, PartialEq, Eq, Structural)]
pub enum AgentBackend {
    Auto,
    OpenSsh,
    Pageant,
}

impl Default for AgentBackend {
    fn default() -> (backend: Self)
        ensures
            backend == AgentBackend::Auto,
    {
        AgentBackend::Auto
    }
}

#[derive(Clone, Copy, Debug, PartialEq, Eq, Structural)]
pub enum AlgorithmPolicy {
    Modern,
    Compatible,
    Legacy,
}

impl Default for AlgorithmPolicy {
    fn default() -> (policy: Self)
        ensures
            policy == AlgorithmPolicy::Modern,
    {
        AlgorithmPolicy::Modern
    }
}

#[derive(Clone, Copy, Debug, PartialEq, Eq, Structural)]
pub enum HostKeyDecision {
    Trusted,
    TrustOnce,
    TrustAndPersist,
    Reject,
    ChangedAndBlocked,
    RevokedAndBlocked,
}

#[derive(Clone, Copy, Debug, PartialEq, Eq, Structural)]
pub struct SshCapabilities {
    pub password: bool,
    pub public_key: bool,
    pub keyboard_interactive: bool,
    pub agent: bool,
    pub certificates: bool,
    pub jump_host: bool,
    pub local_forward: bool,
    pub remote_forward: bool,
    pub dynamic_forward: bool,
    pub sftp: bool,
    pub x11_forwarding: bool,
}

impl Default for SshCapabilities {
    fn default() -> (capabilities: Self)
        ensures
            capabilities == (SshCapabilities {
                password: false,
                public_key: false,
                keyboard_interactive: false,
                agent: false,
                certificates: false,
                jump_host: false,
                local_forward: false,
                remote_forward: false,
                dynamic_forward: false,
                sftp: false,
                x11_forwarding: false,
            }),
    {
        SshCapabilities {
            password: false,
            public_key: false,
            keyboard_interactive: false,
            agent: false,
            certificates: false,
            jump_host: false,
            local_forward: false,
            remote_forward: false,
            dynamic_forward: false,
            sftp: false,
            x11_forwarding: false,
        }
    }
}

/// Something that speaks SSH.
pub trait SshProvider {
    fn name(&self) -> &'static str;

    fn capabilities(&self) -> SshCapabilities;

    fn algorithm_policy(&self) -> AlgorithmPolicy;
}

#[derive(Debug)]
pub struct RusshProvider {
    algorithm_policy: AlgorithmPolicy,
}

impl Default for RusshProvider {
    fn default() -> (provider: Self)
        ensures
            provider.policy() == AlgorithmPolicy::Modern,
    {
        RusshProvider { algorithm_policy: AlgorithmPolicy::Modern }
    }
}

impl RusshProvider {
    pub closed spec fn policy(self) -> AlgorithmPolicy {
        self.algorithm_policy
    }

    pub fn new(algorithm_policy: AlgorithmPolicy) -> (provider: Self)
        ensures
            provider.policy() == algorithm_policy,
    {
        RusshProvider { algorithm_policy }
    }

    /// `Config::default` makes the settings that a connection starts from. What
    /// they are is left to the crate.
    #[verifier::external_body]
    pub fn client_config(&self) -> russh::client::Config {
        russh::client::Config::default()
    }
}

impl SshProvider for RusshProvider {
    fn name(&self) -> (name: &'static str)
        ensures
            name@ == "russh"@,
    {
        "russh"
    }

    fn capabilities(&self) -> (capabilities: SshCapabilities)
        ensures
            capabilities == (SshCapabilities {
                password: true,
                public_key: true,
                keyboard_interactive: true,
                agent: true,
                certificates: true,
                jump_host: true,
                local_forward: true,
                remote_forward: true,
                dynamic_forward: true,
                sftp: true,
                x11_forwarding: false,
            }),
    {
        SshCapabilities {
            password: true,
            public_key: true,
            keyboard_interactive: true,
            agent: true,
            certificates: true,
            jump_host: true,
            local_forward: true,
            remote_forward: true,
            dynamic_forward: true,
            sftp: true,
            x11_forwarding: false,
        }
    }

    fn algorithm_policy(&self) -> (policy: AlgorithmPolicy)
        ensures
            policy == self.policy(),
    {
        self.algorithm_policy
    }
}

#[derive(Debug, PartialEq, Eq)]
pub enum SshError {
    AuthenticationRejected,
    PrivateKey(String),
    Certificate(String),
    HostCertificateForUserAuthentication,
    CertificateKeyMismatch,
    AgentIdentityLimit { actual: usize, maximum: usize },
    AgentBackendUnsupported { backend: AgentBackend },
    LegacyRsaSignatureRejected,
    KeyboardInteractiveLimitExceeded,
    KeyboardInteractiveResponseCount { expected: usize, actual: usize },
    MissingExitStatus,
    InvalidForwardConfig(String),
    Socks5(String),
    ProxyRejected(String),
}

/// The error says that the forwarding is not set up right, in these words.
pub open spec fn is_bad_forward(error: SshError, words: Seq<char>) -> bool {
    error matches SshError::InvalidForwardConfig(text) && text@ == words
}

pub fn bad_forward(words: &str) -> (error: SshError)
    ensures
        is_bad_forward(error, words@),
{
    SshError::InvalidForwardConfig(words.to_owned())
}

// ---------------------------------------------------------------------------
// Host keys.

/// The only host key that a connection accepts, by its fingerprint.
#[derive(Clone, Debug, PartialEq, Eq)]
pub struct PinnedHostKey {
    sha256_fingerprint: String,
}

impl PinnedHostKey {
    pub closed spec fn fingerprint(self) -> Seq<char> {
        self.sha256_fingerprint@
    }

    pub fn sha256(fingerprint: &str) -> (key: Self)
        ensures
            key.fingerprint() == fingerprint@,
    {
        PinnedHostKey { sha256_fingerprint: fingerprint.to_owned() }
    }

    /// Whether a server's key is the one.
    pub fn accepts(&self, fingerprint: &str) -> (yes: bool)
        ensures
            yes == (fingerprint@ == self.fingerprint()),
    {
        same_text(fingerprint, self.sha256_fingerprint.as_str())
    }
}

// ---------------------------------------------------------------------------
// Keys and certificates.

/// A private key, with its public part.
pub struct SshPrivateKey {
    key: russh::keys::PrivateKey,
    public: Vec<u8>,
    fingerprint: String,
}

impl SshPrivateKey {
    /// The public key that belongs to it.
    pub closed spec fn public(self) -> Seq<u8> {
        self.public@
    }

    /// The public key and the fingerprint are those of the key itself.
    pub closed spec fn wf(self) -> bool {
        self.public@ == held_public(self.key) && self.fingerprint@ == key_fingerprint(self.public@)
    }

    /// Reads a private key. A text that is too long is read as none.
    pub fn decode_openssh(encoded: &str, passphrase: Option<&str>) -> (key: Result<Self, SshError>)
        ensures
            ({
                let words = match passphrase {
                    Some(words) => Some(words@),
                    None => None,
                };
                match secret_public_key(encoded@, words) {
                    Some(public) if utf8(encoded@).len() <= MAX_SECRET_TEXT_BYTES => {
                        &&& key matches Ok(key)
                        &&& key.wf()
                        &&& key.public() == public
                        &&& held_public(key.private()) == public
                    },
                    _ => key matches Err(error) && error is PrivateKey,
                }
            }),
    {
        if byte_len(encoded) > MAX_SECRET_TEXT_BYTES {
            return Err(SshError::PrivateKey("private key is too long".to_owned()));
        }
        match read_secret_key(encoded, passphrase) {
            Ok((key, public, fingerprint)) => Ok(SshPrivateKey { key, public, fingerprint }),
            Err(error) => Err(SshError::PrivateKey(error)),
        }
    }

    pub fn sha256_fingerprint(&self) -> (fingerprint: String)
        requires
            self.wf(),
        ensures
            fingerprint@ == key_fingerprint(self.public()),
    {
        self.fingerprint.clone()
    }

    /// The key itself.
    pub closed spec fn private(self) -> russh::keys::PrivateKey {
        self.key
    }

    /// The key itself, for signing with.
    pub fn key(&self) -> (key: &russh::keys::PrivateKey)
        ensures
            *key == self.private(),
    {
        &self.key
    }
}

/// A certificate for logging in.
pub struct SshCertificate {
    certificate: russh::keys::Certificate,
    public: Vec<u8>,
    key_id: String,
    principals: Vec<String>,
}

impl SshCertificate {
    /// The key that it is about.
    pub closed spec fn public(self) -> Seq<u8> {
        self.public@
    }

    /// Its name.
    pub closed spec fn id(self) -> Seq<char> {
        self.key_id@
    }

    /// Those whom it is good for.
    pub closed spec fn principals(self) -> Seq<Seq<char>> {
        string_views(self.principals@)
    }

    /// The key, the name and those whom it is good for are those of the
    /// certificate itself.
    pub closed spec fn wf(self) -> bool {
        let facts = held_facts(self.certificate);
        self.public@ == facts.public && self.key_id@ == facts.key_id && string_views(
            self.principals@,
        ) == facts.principals
    }

    /// Reads a certificate; one for a host is refused. A text that is too long
    /// is read as none.
    pub fn decode_openssh(encoded: &str) -> (certificate: Result<Self, SshError>)
        ensures
            match certificate_facts(encoded@) {
                Some(facts) if utf8(encoded@).len() <= MAX_KEY_TEXT_BYTES => if facts.for_user {
                    &&& certificate matches Ok(certificate)
                    &&& certificate.wf()
                    &&& certificate.public() == facts.public
                    &&& certificate.id() == facts.key_id
                    &&& certificate.principals() == facts.principals
                    &&& held_facts(certificate.whole()) == facts
                } else {
                    certificate matches Err(error) && error is HostCertificateForUserAuthentication
                },
                _ => certificate matches Err(error) && error is Certificate,
            },
    {
        if byte_len(encoded) > MAX_KEY_TEXT_BYTES {
            return Err(SshError::Certificate("certificate is too long".to_owned()));
        }
        match read_certificate(encoded) {
            Err(error) => Err(SshError::Certificate(error)),
            Ok((certificate, facts)) => {
                if !facts.for_user {
                    return Err(SshError::HostCertificateForUserAuthentication);
                }
                Ok(
                    SshCertificate {
                        certificate,
                        public: facts.public,
                        key_id: facts.key_id,
                        principals: facts.principals,
                    },
                )
            },
        }
    }

    pub fn key_id(&self) -> (id: &str)
        ensures
            id@ == self.id(),
    {
        self.key_id.as_str()
    }

    pub fn valid_principals(&self) -> (principals: &Vec<String>)
        ensures
            string_views(principals@) == self.principals(),
    {
        &self.principals
    }

    /// Whether the certificate is about the key.
    pub fn validate_private_key(&self, private_key: &SshPrivateKey) -> (checked: Result<
        (),
        SshError,
    >)
        ensures
            checked is Ok <==> private_key.public() == self.public(),
            checked matches Err(error) ==> error is CertificateKeyMismatch,
            self.wf() && private_key.wf() ==> (checked is Ok <==> held_public(private_key.private())
                == held_facts(self.whole()).public),
    {
        if same_bytes(private_key.public.as_slice(), self.public.as_slice()) {
            Ok(())
        } else {
            Err(SshError::CertificateKeyMismatch)
        }
    }

    /// The certificate itself.
    pub closed spec fn whole(self) -> russh::keys::Certificate {
        self.certificate
    }

    /// The certificate itself, for handing to a server.
    pub fn certificate(&self) -> (certificate: &russh::keys::Certificate)
        ensures
            *certificate == self.whole(),
    {
        &self.certificate
    }
}

// ---------------------------------------------------------------------------
// Authentication.

pub fn ensure_authenticated(success: bool) -> (checked: Result<(), SshError>)
    ensures
        checked is Ok <==> success,
        checked matches Err(error) ==> error is AuthenticationRejected,
{
    if success {
        Ok(())
    } else {
        Err(SshError::AuthenticationRejected)
    }
}

/// The hashes that an RSA key signs with.
#[derive(Clone, Copy, Debug, PartialEq, Eq, Structural)]
pub enum RsaHash {
    Sha256,
    Sha512,
}

/// The hash that a key signs with: none for a key that needs none, the best
/// that the server takes or where it says nothing the strongest for any other
/// one, and no answer where the server takes nothing but the hash of old.
pub open spec fn hash_chosen(is_rsa: bool, offered: Option<Option<RsaHash>>) -> Option<
    Option<RsaHash>,
> {
    if !is_rsa {
        Some(None)
    } else {
        match offered {
            Some(Some(hash)) => Some(Some(hash)),
            None => Some(Some(RsaHash::Sha512)),
            Some(None) => None,
        }
    }
}

/// The hash for signing with a key. Only RSA keys need one; a server that does
/// not say what it takes is given the strongest, and one that takes only the
/// old one is refused. `offered` is what the server says: nothing, only the
/// old hash, or the best that it takes.
pub fn modern_rsa_hash(is_rsa: bool, offered: Option<Option<RsaHash>>) -> (hash: Result<
    Option<RsaHash>,
    SshError,
>)
    ensures
        match hash {
            Ok(hash) => hash == if !is_rsa {
                None
            } else {
                match offered {
                    None => Some(RsaHash::Sha512),
                    Some(best) => best,
                }
            } && (is_rsa ==> hash is Some),
            Err(error) => error is LegacyRsaSignatureRejected && is_rsa && offered == Some(
                None::<RsaHash>,
            ),
        },
        match hash {
            Ok(hash) => hash_chosen(is_rsa, offered) == Some(hash),
            Err(_) => hash_chosen(is_rsa, offered) is None,
        },
{
    if !is_rsa {
        return Ok(None);
    }
    match offered {
        Some(Some(hash)) => Ok(Some(hash)),
        None => Ok(Some(RsaHash::Sha512)),
        Some(None) => Err(SshError::LegacyRsaSignatureRejected),
    }
}

/// The hash that a key of an agent signs with, where the server has offered
/// some: none where the key is no RSA key, and no answer where the key has to
/// be passed over, as the server takes nothing but the hash of old.
pub fn agent_rsa_hash(is_rsa: bool, offered: Option<Option<RsaHash>>) -> (hash: Option<
    Option<RsaHash>,
>)
    ensures
        hash == (if !is_rsa {
            Some(None)
        } else {
            match offered {
                Some(Some(hash)) => Some(Some(hash)),
                None => Some(Some(RsaHash::Sha512)),
                Some(None) => None,
            }
        }),
        hash == hash_chosen(is_rsa, offered),
{
    if !is_rsa {
        return Some(None);
    }
    match offered {
        Some(Some(hash)) => Some(Some(hash)),
        None => Some(Some(RsaHash::Sha512)),
        Some(None) => None,
    }
}

/// What became of a key of an agent.
#[derive(Clone, Copy, Debug, PartialEq, Eq, Structural)]
pub enum IdentityOutcome {
    /// It was passed over.
    Skipped,
    Refused,
    Accepted,
}

/// How a login with the keys of an agent goes on.
#[derive(Clone, Copy, Debug, PartialEq, Eq, Structural)]
pub enum AgentLoginStep {
    /// The key at this place is tried.
    Try(usize),
    LoggedIn,
    Rejected,
}

/// What comes next in a login with `count` keys of which `tried` have been
/// tried or passed over.
pub open spec fn login_step(count: int, tried: int, accepted: bool) -> AgentLoginStep {
    if accepted {
        AgentLoginStep::LoggedIn
    } else if tried < count {
        AgentLoginStep::Try(tried as usize)
    } else {
        AgentLoginStep::Rejected
    }
}

/// How many keys have been tried or passed over and whether the last one was
/// accepted, after one more.
pub open spec fn login_next(tried: int, outcome: IdentityOutcome) -> (int, bool) {
    (tried + 1, outcome == IdentityOutcome::Accepted)
}

/// A login with the keys of an agent, which are tried one after the other.
#[derive(Clone, Copy, Debug)]
pub struct AgentLogin {
    count: usize,
    next: usize,
    accepted: bool,
}

impl AgentLogin {
    /// How many keys the agent has.
    pub closed spec fn count(self) -> int {
        self.count as int
    }

    /// How many of them have been tried or passed over.
    pub closed spec fn tried(self) -> int {
        self.next as int
    }

    /// The last one was accepted.
    pub closed spec fn accepted(self) -> bool {
        self.accepted
    }

    pub closed spec fn wf(self) -> bool {
        self.next <= self.count <= MAX_AGENT_IDENTITIES
    }

    /// Starts with so many keys; an agent with too many is refused.
    pub fn new(count: usize) -> (login: Result<Self, SshError>)
        ensures
            match login {
                Ok(login) => count <= MAX_AGENT_IDENTITIES && login.wf() && login.count() == count
                    && login.tried() == 0 && !login.accepted(),
                Err(error) => count > MAX_AGENT_IDENTITIES && error == (
                SshError::AgentIdentityLimit { actual: count, maximum: MAX_AGENT_IDENTITIES }),
            },
    {
        match check_identity_count(count) {
            Err(error) => Err(error),
            Ok(()) => Ok(AgentLogin { count, next: 0, accepted: false }),
        }
    }

    /// What to do next: a key is tried until one is accepted or none is left.
    pub fn step(&self) -> (step: AgentLoginStep)
        requires
            self.wf(),
        ensures
            step == (if self.accepted() {
                AgentLoginStep::LoggedIn
            } else if self.tried() < self.count() {
                AgentLoginStep::Try(self.tried() as usize)
            } else {
                AgentLoginStep::Rejected
            }),
            step == login_step(self.count(), self.tried(), self.accepted()),
    {
        if self.accepted {
            AgentLoginStep::LoggedIn
        } else if self.next < self.count {
            AgentLoginStep::Try(self.next)
        } else {
            AgentLoginStep::Rejected
        }
    }

    /// Takes note of what became of the key that was to be tried.
    pub fn take(&mut self, outcome: IdentityOutcome)
        requires
            old(self).wf(),
            !old(self).accepted(),
            old(self).tried() < old(self).count(),
        ensures
            final(self).wf(),
            final(self).count() == old(self).count(),
            final(self).tried() == old(self).tried() + 1,
            final(self).accepted() == (outcome == IdentityOutcome::Accepted),
            (final(self).tried(), final(self).accepted()) == login_next(
                old(self).tried(),
                outcome,
            ),
    {
        self.next = self.next + 1;
        self.accepted = match outcome {
            IdentityOutcome::Accepted => true,
            _ => false,
        };
    }
}

pub fn check_identity_count(count: usize) -> (checked: Result<(), SshError>)
    ensures
        checked is Ok <==> count <= MAX_AGENT_IDENTITIES,
        checked matches Err(error) ==> error == (SshError::AgentIdentityLimit {
            actual: count,
            maximum: MAX_AGENT_IDENTITIES,
        }),
{
    if count > MAX_AGENT_IDENTITIES {
        return Err(
            SshError::AgentIdentityLimit { actual: count, maximum: MAX_AGENT_IDENTITIES },
        );
    }
    Ok(())
}

/// The kinds of systems that agents are found on in different ways.
#[derive(Clone, Copy, Debug, PartialEq, Eq, Structural)]
pub enum Platform {
    Unix,
    Windows,
    Other,
}

/// Where an agent is looked for.
#[derive(Clone, Copy, Debug, PartialEq, Eq, Structural)]
pub enum AgentRoute {
    /// Where the environment says.
    Environment,
    /// At the pipe of the OpenSSH agent.
    Pipe,
    Pageant,
    /// At the pipe, and if there is none at Pageant.
    PipeOrPageant,
}

/// The way to an agent; none where the platform does not have it.
pub open spec fn route_of(backend: AgentBackend, platform: Platform) -> Option<AgentRoute> {
    match (platform, backend) {
        (Platform::Unix, AgentBackend::Auto | AgentBackend::OpenSsh) => Some(
            AgentRoute::Environment,
        ),
        (Platform::Windows, AgentBackend::OpenSsh) => Some(AgentRoute::Pipe),
        (Platform::Windows, AgentBackend::Pageant) => Some(AgentRoute::Pageant),
        (Platform::Windows, AgentBackend::Auto) => Some(AgentRoute::PipeOrPageant),
        (_, _) => None,
    }
}

pub fn agent_route(backend: AgentBackend, platform: Platform) -> (route: Result<
    AgentRoute,
    SshError,
>)
    ensures
        match (platform, backend) {
            (Platform::Unix, AgentBackend::Auto | AgentBackend::OpenSsh) => route == Ok::<
                _,
                SshError,
            >(AgentRoute::Environment),
            (Platform::Windows, AgentBackend::OpenSsh) => route == Ok::<_, SshError>(
                AgentRoute::Pipe,
            ),
            (Platform::Windows, AgentBackend::Pageant) => route == Ok::<_, SshError>(
                AgentRoute::Pageant,
            ),
            (Platform::Windows, AgentBackend::Auto) => route == Ok::<_, SshError>(
                AgentRoute::PipeOrPageant,
            ),
            (_, _) => route == Err::<AgentRoute, _>(SshError::AgentBackendUnsupported { backend }),
        },
        match route {
            Ok(route) => route_of(backend, platform) == Some(route),
            Err(_) => route_of(backend, platform) is None,
        },
{
    match (platform, backend) {
        (Platform::Unix, AgentBackend::Auto | AgentBackend::OpenSsh) => Ok(
            AgentRoute::Environment,
        ),
        (Platform::Windows, AgentBackend::OpenSsh) => Ok(AgentRoute::Pipe),
        (Platform::Windows, AgentBackend::Pageant) => Ok(AgentRoute::Pageant),
        (Platform::Windows, AgentBackend::Auto) => Ok(AgentRoute::PipeOrPageant),
        (_, _) => Err(SshError::AgentBackendUnsupported { backend }),
    }
}

#[derive(Clone, Debug, PartialEq, Eq)]
pub struct KeyboardInteractivePrompt {
    pub text: String,
    pub echo: bool,
}

#[derive(Clone, Debug, PartialEq, Eq)]
pub struct KeyboardInteractiveChallenge {
    pub name: String,
    pub instructions: String,
    pub prompts: Vec<KeyboardInteractivePrompt>,
}

/// The bytes of the prompts.
pub open spec fn prompt_bytes(prompts: Seq<KeyboardInteractivePrompt>) -> int
    decreases prompts.len(),
{
    if prompts.len() == 0 {
        0
    } else {
        prompt_bytes(prompts.drop_last()) + utf8(prompts.last().text@).len()
    }
}

/// The bytes that a challenge shows.
pub open spec fn challenge_bytes(challenge: KeyboardInteractiveChallenge) -> int {
    utf8(challenge.name@).len() + utf8(challenge.instructions@).len() + prompt_bytes(
        challenge.prompts@,
    )
}

/// A challenge keeps to the limits.
pub open spec fn challenge_fits(challenge: KeyboardInteractiveChallenge) -> bool {
    &&& challenge.prompts@.len() <= MAX_KEYBOARD_INTERACTIVE_PROMPTS
    &&& challenge_bytes(challenge) <= MAX_KEYBOARD_INTERACTIVE_METADATA_BYTES
}

proof fn lemma_prompt_bytes(prompts: Seq<KeyboardInteractivePrompt>, count: int)
    requires
        0 <= count <= prompts.len(),
    ensures
        0 <= prompt_bytes(prompts.take(count)) <= prompt_bytes(prompts),
    decreases prompts.len() - count, prompts.len(),
{
    if count == prompts.len() {
        assert(prompts.take(count) =~= prompts);
        if prompts.len() > 0 {
            lemma_prompt_bytes(prompts.drop_last(), count - 1);
            assert(prompts.drop_last().take(count - 1) =~= prompts.drop_last());
        }
    } else {
        lemma_prompt_bytes(prompts, count + 1);
        assert(prompts.take(count + 1).drop_last() =~= prompts.take(count));
        lemma_prompt_bytes(prompts.take(count), count);
        assert(prompts.take(count).take(count) =~= prompts.take(count));
    }
}

/// A conversation in which a server asks and the user answers.
#[derive(Clone, Copy, Debug)]
pub struct KeyboardInteractive {
    rounds: usize,
}

impl KeyboardInteractive {
    /// The challenges so far.
    pub closed spec fn rounds(self) -> int {
        self.rounds as int
    }

    pub fn new() -> (conversation: Self)
        ensures
            conversation.rounds() == 0,
    {
        KeyboardInteractive { rounds: 0 }
    }

    /// Takes a challenge. One too many, or one that is too large, ends the
    /// conversation.
    pub fn challenge(&mut self, challenge: &KeyboardInteractiveChallenge) -> (checked: Result<
        (),
        SshError,
    >)
        ensures
            final(self).rounds() == if old(self).rounds() < usize::MAX {
                old(self).rounds() + 1
            } else {
                old(self).rounds()
            },
            checked is Ok <==> final(self).rounds() <= MAX_KEYBOARD_INTERACTIVE_ROUNDS
                && challenge_fits(*challenge),
            checked matches Err(error) ==> error is KeyboardInteractiveLimitExceeded,
    {
        if self.rounds < usize::MAX {
            self.rounds = self.rounds + 1;
        }
        let ghost counted = *self;
        if self.rounds > MAX_KEYBOARD_INTERACTIVE_ROUNDS || challenge.prompts.len()
            > MAX_KEYBOARD_INTERACTIVE_PROMPTS {
            return Err(SshError::KeyboardInteractiveLimitExceeded);
        }
        let limit: usize = MAX_KEYBOARD_INTERACTIVE_METADATA_BYTES;
        let name: usize = byte_len(challenge.name.as_str());
        let instructions: usize = byte_len(challenge.instructions.as_str());
        proof {
            lemma_prompt_bytes(challenge.prompts@, 0);
        }
        if name > limit || instructions > limit - name {
            return Err(SshError::KeyboardInteractiveLimitExceeded);
        }
        let mut total: usize = name + instructions;
        let mut index: usize = 0;
        assert(challenge.prompts@.take(0) =~= Seq::empty());
        while index < challenge.prompts.len()
            invariant
                index <= challenge.prompts@.len(),
                *self == counted,
                counted.rounds() == if old(self).rounds() < usize::MAX {
                    old(self).rounds() + 1
                } else {
                    old(self).rounds()
                },
                limit == MAX_KEYBOARD_INTERACTIVE_METADATA_BYTES,
                total <= limit,
                total == utf8(challenge.name@).len() + utf8(challenge.instructions@).len()
                    + prompt_bytes(challenge.prompts@.take(index as int)),
            decreases challenge.prompts@.len() - index,
        {
            proof {
                assert(challenge.prompts@.take(index + 1).drop_last() =~= challenge.prompts@.take(
                    index as int,
                ));
                lemma_prompt_bytes(challenge.prompts@, index + 1);
            }
            let length: usize = byte_len(challenge.prompts[index].text.as_str());
            if length > limit - total {
                return Err(SshError::KeyboardInteractiveLimitExceeded);
            }
            total = total + length;
            index += 1;
        }
        assert(challenge.prompts@.take(index as int) =~= challenge.prompts@);
        Ok(())
    }
}

/// Each prompt needs an answer.
pub fn check_answers(expected: usize, actual: usize) -> (checked: Result<(), SshError>)
    ensures
        checked is Ok <==> actual == expected,
        checked matches Err(error) ==> error == (SshError::KeyboardInteractiveResponseCount {
            expected,
            actual,
        }),
{
    if actual != expected {
        return Err(SshError::KeyboardInteractiveResponseCount { expected, actual });
    }
    Ok(())
}

/// Whether a connection can go on from a jump host to a target.
pub fn check_jump_target(host: &str, port: u16) -> (checked: Result<(), SshError>)
    ensures
        checked is Ok <==> host@.len() > 0 && port != 0,
        checked matches Err(error) ==> is_bad_forward(
            error,
            "jump target host and port must be non-empty and non-zero"@,
        ),
{
    if host.is_empty() || port == 0 {
        return Err(bad_forward("jump target host and port must be non-empty and non-zero"));
    }
    Ok(())
}

// ---------------------------------------------------------------------------
// Running a command.

#[derive(Clone, Debug, PartialEq, Eq)]
pub struct ExecResult {
    pub stdout: Vec<u8>,
    pub stderr: Vec<u8>,
    pub exit_status: u32,
}

/// What a channel brings.
#[derive(Debug)]
pub enum ChannelEvent {
    Output(Vec<u8>),
    ErrorOutput(Vec<u8>),
    ExitStatus(u32),
    Eof,
    Close,
    Other,
}

/// What a command has given so far.
#[verifier::ext_equal]
pub struct ExecModel {
    pub stdout: Seq<u8>,
    pub stderr: Seq<u8>,
    pub status: Option<u32>,
    pub eof: bool,
    /// Nothing more is waited for.
    pub over: bool,
}

/// A command is over when its status and the end of its output are both there,
/// or when the channel is closed.
pub open spec fn exec_next(model: ExecModel, event: ChannelEvent) -> ExecModel {
    if model.over {
        model
    } else {
        match event {
            ChannelEvent::Output(data) => ExecModel { stdout: model.stdout + data@, ..model },
            ChannelEvent::ErrorOutput(data) => ExecModel { stderr: model.stderr + data@, ..model },
            ChannelEvent::ExitStatus(status) => ExecModel {
                status: Some(status),
                over: model.eof,
                ..model
            },
            ChannelEvent::Eof => ExecModel { eof: true, over: model.status is Some, ..model },
            ChannelEvent::Close => ExecModel { over: true, ..model },
            ChannelEvent::Other => model,
        }
    }
}

pub open spec fn exec_start() -> ExecModel {
    ExecModel {
        stdout: Seq::empty(),
        stderr: Seq::empty(),
        status: None,
        eof: false,
        over: false,
    }
}

/// What a command that is over has given.
pub open spec fn exec_gives(model: ExecModel, result: Result<ExecResult, SshError>) -> bool {
    match model.status {
        Some(status) => result matches Ok(result) && result.stdout@ == model.stdout
            && result.stderr@ == model.stderr && result.exit_status == status,
        None => result matches Err(error) && error is MissingExitStatus,
    }
}

/// A command that is running.
#[derive(Debug)]
pub struct ExecCollector {
    stdout: Vec<u8>,
    stderr: Vec<u8>,
    status: Option<u32>,
    eof: bool,
    over: bool,
}

impl View for ExecCollector {
    type V = ExecModel;

    closed spec fn view(&self) -> ExecModel {
        ExecModel {
            stdout: self.stdout@,
            stderr: self.stderr@,
            status: self.status,
            eof: self.eof,
            over: self.over,
        }
    }
}

fn extend(bytes: &mut Vec<u8>, more: &Vec<u8>)
    ensures
        final(bytes)@ == old(bytes)@ + more@,
{
    let ghost start = bytes@;
    let mut index: usize = 0;
    assert(start + more@.take(0) =~= start);
    while index < more.len()
        invariant
            index <= more@.len(),
            start == old(bytes)@,
            bytes@ == start + more@.take(index as int),
        decreases more@.len() - index,
    {
        bytes.push(more[index]);
        index += 1;
        assert(bytes@ =~= start + more@.take(index as int));
    }
    assert(more@.take(index as int) =~= more@);
}

impl ExecCollector {
    pub fn new() -> (collector: Self)
        ensures
            collector@ == exec_start(),
    {
        ExecCollector {
            stdout: Vec::new(),
            stderr: Vec::new(),
            status: None,
            eof: false,
            over: false,
        }
    }

    /// Takes what the channel brought and says whether the command is over.
    pub fn take(&mut self, event: &ChannelEvent) -> (over: bool)
        ensures
            final(self)@ == exec_next(old(self)@, *event),
            over == final(self)@.over,
    {
        if self.over {
            return true;
        }
        match event {
            ChannelEvent::Output(data) => {
                extend(&mut self.stdout, data);
            },
            ChannelEvent::ErrorOutput(data) => {
                extend(&mut self.stderr, data);
            },
            ChannelEvent::ExitStatus(status) => {
                self.status = Some(*status);
                self.over = self.eof;
            },
            ChannelEvent::Eof => {
                self.eof = true;
                self.over = self.status.is_some();
            },
            ChannelEvent::Close => {
                self.over = true;
            },
            ChannelEvent::Other => {},
        }
        self.over
    }

    /// What the command gave; an error where it ended without a status.
    pub fn finish(self) -> (result: Result<ExecResult, SshError>)
        ensures
            match self@.status {
                Some(status) => result matches Ok(result) && result.stdout@ == self@.stdout
                    && result.stderr@ == self@.stderr && result.exit_status == status,
                None => result matches Err(error) && error is MissingExitStatus,
            },
            exec_gives(self@, result),
    {
        match self.status {
            Some(exit_status) => Ok(
                ExecResult { stdout: self.stdout, stderr: self.stderr, exit_status },
            ),
            None => Err(SshError::MissingExitStatus),
        }
    }
}

/// What a command has given after some events.
pub open spec fn exec_run(events: Seq<ChannelEvent>) -> ExecModel
    decreases events.len(),
{
    if events.len() == 0 {
        exec_start()
    } else {
        exec_next(exec_run(events.drop_last()), events.last())
    }
}

/// A command whose status and end have both come is over, in whichever order
/// they came.
pub proof fn law_command_ends_with_status_and_eof(events: Seq<ChannelEvent>)
    ensures
        ({
            let model = exec_run(events);
            model.status is Some && model.eof ==> model.over
        }),
    decreases events.len(),
{
    if events.len() > 0 {
        law_command_ends_with_status_and_eof(events.drop_last());
    }
}

} // verus!
