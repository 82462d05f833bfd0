//! NTLM: the authentication of each HTTP channel, and the context that signs RPC
//! requests.
//!
//! The client sends its Type-1 token in `Authorization: NTLM ...`, the server
//! replies `401` with the Type-2 challenge in `WWW-Authenticate: NTLM ...`, and the
//! client answers with the Type-3 token on the same connection.
use base64::Engine as _;
use sspi::BufferType::Token;
use sspi::{
    ClientRequestFlags, DataRepresentation, SecurityBuffer, SecurityBufferFlags,
    SecurityBufferRef, Sspi as _, SspiImpl as _,
};
use vstd::prelude::*;
use vstd::slice::slice_to_vec;
use vstd::string::*;

use crate::error;
use crate::error::{ErrorView, GatewayError};
use crate::http;
use crate::http::Response;
use crate::text;
use crate::wire;

verus! {

/// The NTLM security context.
#[verifier::external_type_specification]
#[verifier::external_body]
pub struct ExNtlm(sspi::Ntlm);

/// Credentials as the NTLM context takes them.
#[verifier::external_type_specification]
#[verifier::external_body]
pub struct ExCredentials(sspi::AuthIdentityBuffers);

/// A user name in one of the forms that Windows knows.
#[verifier::external_type_specification]
#[verifier::external_body]
pub struct ExUsername(sspi::Username);

/// An error of the security package.
#[verifier::external_type_specification]
#[verifier::external_body]
pub struct ExSspiError(sspi::Error);

/// What is requested of the context that authenticates an HTTP channel:
/// confidentiality (`0x10`) and allocated buffers (`0x100`).
pub const HTTP_REQUIREMENTS: u32 = 0x110;

/// What is requested of the context of the secure bind: delegation (`0x1`), replay
/// (`0x4`) and sequence (`0x8`) detection, allocated buffers (`0x100`) and DCE
/// style (`0x200`).
pub const DCE_REQUIREMENTS: u32 = 0x30d;

/// The status of a handshake that is done.
pub const STATUS_OK: u32 = 0;

/// The status of a handshake that needs the reply of the peer.
pub const STATUS_CONTINUE_NEEDED: u32 = 0x0009_0312;

/// The status of a handshake that is done but for its completion.
pub const STATUS_COMPLETE_NEEDED: u32 = 0x0009_0313;

/// Length of an NTLM message signature (version, checksum, sequence number).
pub const RPC_SIGNATURE_SIZE: usize = 16;

/// The user name of an account and a domain, or why there is none.
pub uninterp spec fn username_of(account: Seq<char>, domain: Option<Seq<char>>) -> Result<
    sspi::Username,
    Seq<char>,
>;

/// `Username::new` of the `sspi` crate, whose result (the error by its text) is
/// named [`username_of`]: it depends on the account and the domain alone.
#[verifier::external_body]
fn new_username(account: &str, domain: Option<&str>) -> (r: Result<sspi::Username, String>)
    ensures
        username_of(account@, optional(domain)) == error_by_text(r),
{
    match sspi::Username::new(account, domain) {
        Ok(username) => Ok(username),
        Err(e) => Err(e.to_string()),
    }
}

/// The characters of a text, where there is one.
pub open spec fn optional(text: Option<&str>) -> Option<Seq<char>> {
    match text {
        Some(t) => Some(t@),
        None => None,
    }
}

/// A result with its error as characters.
pub open spec fn error_by_text<T>(r: Result<T, String>) -> Result<T, Seq<char>> {
    match r {
        Ok(v) => Ok(v),
        Err(e) => Err(e@),
    }
}

/// The credentials of a user name and a password.
pub uninterp spec fn credentials_of(username: sspi::Username, password: Seq<char>) ->
    sspi::AuthIdentityBuffers;

/// The text in front of a password that is an NT hash in hexadecimal.
pub open spec fn hash_prefix() -> Seq<char> {
    "$NTLM$:"@
}

/// The number of bytes of a character in UTF-8.
pub open spec fn utf8_width(c: char) -> nat {
    let n = c as u32;
    if n < 0x80 {
        1
    } else if n < 0x800 {
        2
    } else if n < 0x1_0000 {
        3
    } else {
        4
    }
}

/// The number of bytes of a text in UTF-8.
pub open spec fn utf8_length(s: Seq<char>) -> nat
    decreases s.len(),
{
    if s.len() == 0 {
        0
    } else {
        utf8_length(s.drop_last()) + utf8_width(s.last())
    }
}

pub open spec fn is_hex_digit(c: char) -> bool {
    '0' <= c <= '9' || 'a' <= c <= 'f' || 'A' <= c <= 'F'
}

/// Whether two characters are read as a hexadecimal number: two digits, or one behind a
/// plus sign.
pub open spec fn is_hex_pair(a: char, b: char) -> bool {
    (is_hex_digit(a) || a == '+') && is_hex_digit(b)
}

/// Whether a text that is read two bytes at a time, up to the first pair that is no
/// hexadecimal number, is cut inside a character.
pub open spec fn is_cut(s: Seq<char>) -> bool
    decreases s.len(),
{
    if s.len() == 0 {
        false
    } else if utf8_width(s[0]) > 1 {
        utf8_width(s[0]) > 2
    } else if s.len() == 1 {
        false
    } else if utf8_width(s[1]) > 1 {
        true
    } else {
        is_hex_pair(s[0], s[1]) && is_cut(s.skip(2))
    }
}

/// Whether a password can answer a challenge. The security package reads the text behind
/// the prefix of an NT hash two bytes at a time, if it has the length of a hash, and
/// cannot go on inside a character.
pub open spec fn sendable(password: Seq<char>) -> bool {
    let rest = password.skip(hash_prefix().len() as int);
    !(hash_prefix().is_prefix_of(password) && utf8_length(rest) == 32 && is_cut(rest))
}

/// Whether credentials are those of a password that can answer a challenge.
pub open spec fn usable(credentials: sspi::AuthIdentityBuffers) -> bool {
    exists|username: sspi::Username, password: Seq<char>|
        credentials == #[trigger] credentials_of(username, password) && sendable(password)
}

proof fn lemma_length_in_bytes(s: Seq<char>)
    ensures
        s.len() <= utf8_length(s) <= 4 * s.len(),
    decreases s.len(),
{
    if s.len() > 0 {
        lemma_length_in_bytes(s.drop_last());
    }
}

fn width_of(c: char) -> (n: usize)
    ensures
        n == utf8_width(c),
{
    let n: u32 = c as u32;
    if n < 0x80 {
        1
    } else if n < 0x800 {
        2
    } else if n < 0x1_0000 {
        3
    } else {
        4
    }
}

/// Whether a text has that many bytes in UTF-8.
fn has_length(s: &[char], length: usize) -> (b: bool)
    requires
        length <= 1000,
    ensures
        b == (utf8_length(s@) == length),
{
    proof {
        lemma_length_in_bytes(s@);
    }
    if s.len() > length {
        return false;
    }
    let total: usize = s.len();
    let mut n: usize = 0;
    let mut i: usize = 0;
    assert(s@.take(0) =~= Seq::empty());
    while i < total
        invariant
            i <= total == s@.len(),
            total <= 1000,
            n == utf8_length(s@.take(i as int)),
            n <= 4 * i,
        decreases total - i,
    {
        assert(s@.take(i + 1).drop_last() =~= s@.take(i as int));
        n = n + width_of(s[i]);
        i = i + 1;
    }
    assert(s@.take(i as int) =~= s@);
    n == length
}

fn hex_digit(c: char) -> (b: bool)
    ensures
        b == is_hex_digit(c),
{
    let n: u32 = c as u32;
    (48 <= n && n <= 57) || (97 <= n && n <= 102) || (65 <= n && n <= 70)
}

fn hex_pair(a: char, b: char) -> (r: bool)
    ensures
        r == is_hex_pair(a, b),
{
    (hex_digit(a) || a == '+') && hex_digit(b)
}

fn cut(s: &[char]) -> (b: bool)
    ensures
        b == is_cut(s@),
{
    let total: usize = s.len();
    let mut i: usize = 0;
    assert(s@.skip(0) =~= s@);
    while i < total
        invariant
            i <= total == s@.len(),
            is_cut(s@) == is_cut(s@.skip(i as int)),
        decreases total - i,
    {
        let ghost rest = s@.skip(i as int);
        assert(rest[0] == s@[i as int]);
        let width: usize = width_of(s[i]);
        if width > 1 {
            return width > 2;
        }
        if total - i == 1 {
            return false;
        }
        assert(rest[1] == s@[i + 1]);
        if width_of(s[i + 1]) > 1 {
            return true;
        }
        if !hex_pair(s[i], s[i + 1]) {
            return false;
        }
        assert(rest.skip(2) =~= s@.skip(i + 2));
        i = i + 2;
    }
    false
}

/// Whether a password can answer a challenge.
pub fn can_send(password: &str) -> (b: bool)
    ensures
        b == sendable(password@),
{
    match text::strip_prefix(password, "$NTLM$:") {
        Some(rest) => {
            let chars = text::chars_of(rest);
            !(has_length(chars.as_slice(), 32) && cut(chars.as_slice()))
        },
        None => true,
    }
}

/// How far the handshake of a context has come.
pub enum NtlmStage {
    /// No handshake has begun, and the computer name of the client, if one is
    /// configured, fits into a message.
    Initial,
    /// The Type-1 message is out, and the challenge of the server comes next.
    Challenge,
    /// The challenge has been answered: messages can be signed.
    Final,
    /// The context of a server that holds the answer of a client and has yet to check it.
    Server,
    /// Anything else: a failed handshake, or a server that waits for its client.
    Other,
}

/// How far the handshake of a context has come.
pub uninterp spec fn stage_of(ntlm: sspi::Ntlm) -> NtlmStage;

/// `Ntlm::new`: a context in which no handshake has begun.
pub assume_specification[ sspi::Ntlm::new ]() -> (r: sspi::Ntlm)
    ensures
        stage_of(r) == NtlmStage::Initial,
;

/// `Ntlm::acquire_credentials_handle` for outbound use with a user name and a
/// password. It refuses only where these are missing, so it gives a handle; the
/// credentials in it are named [`credentials_of`] and depend on the two alone. The
/// handshake stays where it was.
#[verifier::external_body]
fn acquire_credentials(
    ntlm: &mut sspi::Ntlm,
    username: sspi::Username,
    password: &str,
) -> (r: Result<Option<sspi::AuthIdentityBuffers>, sspi::Error>)
    ensures
        r is Ok,
        r->Ok_0 == Some(credentials_of(username, password@)),
        stage_of(*final(ntlm)) == stage_of(*old(ntlm)),
{
    let identity = sspi::AuthIdentity { username, password: password.to_owned().into() };
    let acquired = ntlm
        .acquire_credentials_handle()
        .with_credential_use(sspi::CredentialUse::Outbound)
        .with_auth_data(&identity)
        .execute(ntlm)?;
    Ok(acquired.credentials_handle)
}

/// What one step of the NTLM handshake gave.
#[derive(Debug)]
pub enum StepResult {
    /// A token to send, and the status of the handshake.
    Token(Vec<u8>, u32),
    /// The step was refused.
    Refused(String),
    /// The step was begun and came to nothing.
    Unresolved(String),
}

/// A [`StepResult`] with its contents as sequences.
pub enum StepView {
    Token(Seq<u8>, u32),
    Refused(Seq<char>),
    Unresolved(Seq<char>),
}

impl View for StepResult {
    type V = StepView;

    open spec fn view(&self) -> StepView {
        match *self {
            StepResult::Token(token, status) => StepView::Token(token@, status),
            StepResult::Refused(reason) => StepView::Refused(reason@),
            StepResult::Unresolved(reason) => StepView::Unresolved(reason@),
        }
    }
}

/// Whether a step of the context `before` with these credentials, requirements and
/// input can give `result` and leave the context as `after`. The answer to a
/// challenge holds random bytes, so one step can have many results.
pub uninterp spec fn can_step(
    before: sspi::Ntlm,
    credentials: sspi::AuthIdentityBuffers,
    requirements: u32,
    input: Option<Seq<u8>>,
    result: StepView,
    after: sspi::Ntlm,
) -> bool;

/// Whether `token` is an NTLM message of that type: the signature `NTLMSSP` with a
/// zero byte, then the type.
pub open spec fn is_ntlm_message(token: Seq<u8>, message_type: u32) -> bool {
    (seq![0x4eu8, 0x54, 0x4c, 0x4d, 0x53, 0x53, 0x50, 0x00] + wire::le32(
        message_type,
    )).is_prefix_of(token)
}

/// Whether a step with that input can give `result` and take a handshake from `before`
/// to `after`: the first step gives the Type-1 message; then nothing but a challenge
/// brings the Type-3 message, which ends the handshake, and a challenge can fail; after
/// that there are no more steps.
pub open spec fn step_fits(
    before: NtlmStage,
    input: Option<Seq<u8>>,
    result: StepView,
    after: NtlmStage,
) -> bool {
    match (before, result) {
        (NtlmStage::Initial, StepView::Token(token, status)) => status == STATUS_CONTINUE_NEEDED
            && is_ntlm_message(token, 1) && after == NtlmStage::Challenge,
        (NtlmStage::Initial, _) => false,
        (NtlmStage::Challenge, StepView::Token(token, status)) => input is Some && status
            == STATUS_OK && is_ntlm_message(token, 3) && after == NtlmStage::Final,
        (NtlmStage::Challenge, StepView::Unresolved(_)) => after == NtlmStage::Challenge || (input
            is Some && after == NtlmStage::Other),
        (_, StepView::Unresolved(_)) => after == before,
        _ => false,
    }
}

/// `Ntlm::initialize_security_context_impl` and the `resolve_to_result` of what it
/// returns, with a copy of the credentials and the input as the one token buffer. To a
/// challenge it panics on some passwords, which are left out (see [`sendable`]).
/// What comes out of it rests on random bytes: the contract claims that it is one of
/// the outcomes [`can_step`], and that it fits the stage of the handshake. Which
/// challenges fail, and what a Type-3 message holds, is not stated.
#[verifier::external_body]
fn initialize_security_context(
    ntlm: &mut sspi::Ntlm,
    credentials: &sspi::AuthIdentityBuffers,
    requirements: u32,
    input: Option<Vec<u8>>,
) -> (r: StepResult)
    requires
        stage_of(*old(ntlm)) == NtlmStage::Challenge && input is Some ==> usable(*credentials),
    ensures
        can_step(*old(ntlm), *credentials, requirements, held_bytes(input), r@, *final(ntlm)),
        step_fits(stage_of(*old(ntlm)), held_bytes(input), r@, stage_of(*final(ntlm))),
{
    let mut input = input.map(|token| vec![SecurityBuffer::new(token, Token)]);
    let mut output = vec![SecurityBuffer::new(Vec::new(), Token)];
    let mut credentials = Some(credentials.clone());
    let mut builder = ntlm.initialize_security_context().with_credentials_handle(&mut credentials)
        .with_context_requirements(ClientRequestFlags::from_bits_retain(requirements))
        .with_target_data_representation(DataRepresentation::Native).with_output(&mut output);
    builder.input = input.as_deref_mut();
    match ntlm.initialize_security_context_impl(&mut builder).map(|mut step| step.resolve_to_result()) {
        Ok(Ok(done)) => StepResult::Token(output.remove(0).buffer, done.status as u32),
        Ok(Err(e)) => StepResult::Unresolved(e.to_string()),
        Err(e) => StepResult::Refused(e.to_string()),
    }
}

/// The bytes of a vector, where there is one.
pub open spec fn held_bytes(input: Option<Vec<u8>>) -> Option<Seq<u8>> {
    match input {
        Some(b) => Some(b@),
        None => None,
    }
}

/// The bytes of an input, where there is one.
pub open spec fn bytes_of(input: Option<&[u8]>) -> Option<Seq<u8>> {
    match input {
        Some(b) => Some(b@),
        None => None,
    }
}

/// The signature that a context puts under some data, into a buffer of that length
/// (or why it does not), and the context afterwards.
pub uninterp spec fn signature_of(ntlm: sspi::Ntlm, data: Seq<u8>, length: nat) -> (
    Result<Seq<u8>, Seq<char>>,
    sspi::Ntlm,
);

/// `Ntlm::encrypt_message` with the data marked read-only, so that it is signed and
/// not sealed. Signature (or the text of the error) and context afterwards are named
/// [`signature_of`]; the buffer of the token keeps its length, and a signature begins
/// with its version, one. A context signs into a buffer that is long enough once it has
/// answered the challenge, and not before or otherwise; its handshake stays where it was.
/// The context of a server that has yet to check the answer of a client does so first, and
/// can panic over it: it is left out.
#[verifier::external_body]
fn encrypt_message(ntlm: &mut sspi::Ntlm, data: &[u8], length: usize) -> (r: Result<
    Vec<u8>,
    String,
>)
    requires
        stage_of(*old(ntlm)) != NtlmStage::Server,
    ensures
        signature_of(*old(ntlm), data@, length as nat) == (
            match r {
                Ok(signature) => Ok(signature@),
                Err(reason) => Err(reason@),
            },
            *final(ntlm),
        ),
        r matches Ok(signature) ==> signature@.len() == length && wire::le32(1).is_prefix_of(
            signature@,
        ),
        stage_of(*old(ntlm)) == NtlmStage::Final && length >= RPC_SIGNATURE_SIZE ==> r is Ok,
        stage_of(*old(ntlm)) != NtlmStage::Final ==> r is Err,
        stage_of(*final(ntlm)) == stage_of(*old(ntlm)),
{
    let (mut data, mut token) = (data.to_vec(), vec![0u8; length]);
    let mut message = [
        SecurityBufferRef::data_buf(&mut data).with_flags(SecurityBufferFlags::SECBUFFER_READONLY),
        SecurityBufferRef::token_buf(&mut token),
    ];
    match ntlm.encrypt_message(sspi::EncryptionFlags::empty(), &mut message) {
        Ok(_) => Ok(token),
        Err(e) => Err(e.to_string()),
    }
}

/// Credentials, and whether their password can answer a challenge.
struct Credentials {
    buffers: sspi::AuthIdentityBuffers,
    sendable: bool,
}

impl Credentials {
    #[verifier::type_invariant]
    spec fn well_formed(self) -> bool {
        self.sendable ==> usable(self.buffers)
    }
}

/// A security context to which no challenge can come next.
struct QuietNtlm {
    ntlm: sspi::Ntlm,
}

impl QuietNtlm {
    #[verifier::type_invariant]
    spec fn well_formed(self) -> bool {
        stage_of(self.ntlm) != NtlmStage::Challenge
    }
}

/// A security context, told apart by whether a challenge can come next.
enum Context {
    Quiet(QuietNtlm),
    Awaiting(sspi::Ntlm),
}

impl Context {
    spec fn ntlm(self) -> sspi::Ntlm {
        match self {
            Context::Quiet(quiet) => quiet.ntlm,
            Context::Awaiting(ntlm) => ntlm,
        }
    }

    fn new(ntlm: sspi::Ntlm, awaiting: bool) -> (context: Self)
        requires
            stage_of(ntlm) == NtlmStage::Challenge ==> awaiting,
        ensures
            context.ntlm() == ntlm,
            context is Awaiting == awaiting,
    {
        if awaiting {
            Context::Awaiting(ntlm)
        } else {
            Context::Quiet(QuietNtlm { ntlm })
        }
    }

    fn is_awaiting(&self) -> (b: bool)
        ensures
            b == self is Awaiting,
    {
        match self {
            Context::Quiet(_) => false,
            Context::Awaiting(_) => true,
        }
    }

    /// Take the context out and leave one that has not begun.
    fn take(&mut self) -> (ntlm: sspi::Ntlm)
        ensures
            ntlm == old(self).ntlm(),
            stage_of(ntlm) == NtlmStage::Challenge ==> *old(self) is Awaiting,
    {
        let mut taken = Context::Awaiting(sspi::Ntlm::new());
        core::mem::swap(&mut taken, self);
        match taken {
            Context::Quiet(quiet) => {
                proof {
                    use_type_invariant(&quiet);
                }
                quiet.ntlm
            },
            Context::Awaiting(ntlm) => ntlm,
        }
    }

    /// Hand the context out. It can come back in any state.
    fn lend(&mut self) -> (ntlm: &mut sspi::Ntlm)
        ensures
            *ntlm == old(self).ntlm(),
            *final(self) == Context::Awaiting(*final(ntlm)),
    {
        *self = Context::Awaiting(self.take());
        match self {
            Context::Awaiting(ntlm) => ntlm,
            Context::Quiet(_) => vstd::pervasive::unreached(),
        }
    }
}

/// NTLM for one role of the transport: the authentication of an HTTP channel
/// ([`NtlmAuth::new`]) or the secure bind ([`NtlmAuth::new_dce`]).
pub struct NtlmAuth {
    context: Context,
    creds: Credentials,
    flags: u32,
    complete: bool,
}

/// What an [`NtlmAuth`] holds.
pub struct NtlmView {
    pub ntlm: sspi::Ntlm,
    pub credentials: sspi::AuthIdentityBuffers,
    /// Whether the password can answer a challenge.
    pub sendable: bool,
    pub requirements: u32,
    pub complete: bool,
    /// Whether a challenge can come next: the Type-1 message is out, or the context was in
    /// other hands.
    pub awaiting: bool,
}

impl NtlmView {
    /// How far the handshake has come.
    pub open spec fn stage(self) -> NtlmStage {
        stage_of(self.ntlm)
    }

    /// Whether a step with that input is refused, because it would answer a challenge with
    /// a password that cannot.
    pub open spec fn refuses(self, input: Option<Seq<u8>>) -> bool {
        self.awaiting && !self.sendable && input is Some
    }
}

impl View for NtlmAuth {
    type V = NtlmView;

    closed spec fn view(&self) -> NtlmView {
        NtlmView {
            ntlm: self.context.ntlm(),
            credentials: self.creds.buffers,
            sendable: self.creds.sendable,
            requirements: self.flags,
            complete: self.complete,
            awaiting: self.context is Awaiting,
        }
    }
}

/// Whether `r` is what building a context gives: the error of the account, or a context
/// that has not begun its handshake.
pub open spec fn built(
    account: Seq<char>,
    domain: Option<Seq<char>>,
    password: Seq<char>,
    requirements: u32,
    r: Result<NtlmAuth, GatewayError>,
) -> bool {
    if account.len() == 0 {
        r matches Err(e) && e@ == ErrorView::Invalid("username: empty"@)
    } else {
        match username_of(account, domain) {
            Err(reason) => r matches Err(e) && e@ == ErrorView::Invalid("username: "@ + reason),
            Ok(username) => r matches Ok(auth) && auth@.credentials == credentials_of(
                username,
                password,
            ) && auth@.sendable == sendable(password) && auth@.requirements == requirements
                && !auth@.complete && !auth@.awaiting && auth@.stage() == NtlmStage::Initial,
        }
    }
}

/// Whether `r` is what building the context of an HTTP channel gives.
pub open spec fn built_for_http(
    account: Seq<char>,
    domain: Option<Seq<char>>,
    password: Seq<char>,
    r: Result<NtlmAuth, GatewayError>,
) -> bool {
    built(account, domain, password, HTTP_REQUIREMENTS, r)
}

/// Whether `r` is what building the context of the secure bind gives.
pub open spec fn built_for_rpc(
    account: Seq<char>,
    domain: Option<Seq<char>>,
    password: Seq<char>,
    r: Result<NtlmAuth, GatewayError>,
) -> bool {
    built(account, domain, password, DCE_REQUIREMENTS, r)
}

/// What a step means to the caller: the token, or the error that is reported.
pub open spec fn step_outcome(result: StepView) -> Result<Seq<u8>, ErrorView> {
    match result {
        StepView::Token(token, _) => Ok(token),
        StepView::Refused(reason) => Err(
            ErrorView::Protocol("NTLM initialize_security_context: "@ + reason),
        ),
        StepView::Unresolved(reason) => Err(ErrorView::Protocol("NTLM resolve: "@ + reason)),
    }
}

/// Whether the handshake is complete after a step.
pub open spec fn complete_after(before: bool, result: StepView) -> bool {
    match result {
        StepView::Token(_, status) => status == STATUS_OK || status == STATUS_COMPLETE_NEEDED,
        _ => before,
    }
}

/// Whether a challenge can come next after a step.
pub open spec fn awaiting_after(before: bool, result: StepView) -> bool {
    match result {
        StepView::Token(_, status) => status == STATUS_CONTINUE_NEEDED,
        _ => before,
    }
}

/// Whether a step with that input can take `before` to `after` and give `outcome`.
pub open spec fn steps(
    before: NtlmView,
    input: Option<Seq<u8>>,
    after: NtlmView,
    outcome: Result<Seq<u8>, ErrorView>,
) -> bool {
    if before.refuses(input) {
        after == before && outcome == Err::<Seq<u8>, ErrorView>(
            ErrorView::Invalid("password: malformed NT hash"@),
        )
    } else {
        goes_on(before, input, after, outcome)
    }
}

/// Whether a step of the security package can take `before` to `after` and give
/// `outcome`.
pub open spec fn goes_on(
    before: NtlmView,
    input: Option<Seq<u8>>,
    after: NtlmView,
    outcome: Result<Seq<u8>, ErrorView>,
) -> bool {
    &&& after.credentials == before.credentials
    &&& after.sendable == before.sendable
    &&& after.requirements == before.requirements
    &&& exists|result: StepView|
        {
            &&& #[trigger] can_step(
                before.ntlm,
                before.credentials,
                before.requirements,
                input,
                result,
                after.ntlm,
            )
            &&& step_fits(before.stage(), input, result, after.stage())
            &&& outcome == step_outcome(result)
            &&& after.complete == complete_after(before.complete, result)
            &&& after.awaiting == awaiting_after(before.awaiting, result)
        }
}

/// Token or error of a step, and whether the handshake is complete after it.
pub fn conclude(before: bool, result: StepResult) -> (r: (Result<Vec<u8>, GatewayError>, bool))
    ensures
        error::outcome_view(r.0) == step_outcome(result@),
        r.1 == complete_after(before, result@),
{
    match result {
        StepResult::Token(token, status) => (
            Ok(token),
            status == STATUS_OK || status == STATUS_COMPLETE_NEEDED,
        ),
        StepResult::Refused(reason) => (
            Err(
                GatewayError::Protocol(
                    "NTLM initialize_security_context: ".to_owned().concat(reason.as_str()),
                ),
            ),
            before,
        ),
        StepResult::Unresolved(reason) => (
            Err(GatewayError::Protocol("NTLM resolve: ".to_owned().concat(reason.as_str()))),
            before,
        ),
    }
}

/// Whether a challenge can come next after a step.
pub fn awaits_challenge(before: bool, result: &StepResult) -> (b: bool)
    ensures
        b == awaiting_after(before, result@),
{
    match result {
        StepResult::Token(_, status) => *status == STATUS_CONTINUE_NEEDED,
        _ => before,
    }
}

/// A user name, or the error of an account that has none.
pub fn accepted_username(result: Result<sspi::Username, String>) -> (r: Result<
    sspi::Username,
    GatewayError,
>)
    ensures
        match result {
            Ok(username) => r == Ok::<sspi::Username, GatewayError>(username),
            Err(reason) => r is Err && r->Err_0@ == ErrorView::Invalid("username: "@ + reason@),
        },
{
    match result {
        Ok(username) => Ok(username),
        Err(reason) => Err(GatewayError::Invalid("username: ".to_owned().concat(reason.as_str()))),
    }
}

/// A signature, or the error of data that could not be signed.
pub fn signature_from(signed: Result<Vec<u8>, String>) -> (r: Result<Vec<u8>, GatewayError>)
    ensures
        error::outcome_view(r) == sign_outcome(
            match signed {
                Ok(signature) => Ok(signature@),
                Err(reason) => Err(reason@),
            },
        ),
{
    match signed {
        Ok(signature) => Ok(signature),
        Err(reason) => Err(
            GatewayError::Protocol("RPC request sign: ".to_owned().concat(reason.as_str())),
        ),
    }
}

impl NtlmAuth {
    /// Build an HTTP-layer context for `username`(`@domain`) and `password`. An empty user
    /// name is refused.
    pub fn new(username: &str, domain: Option<&str>, password: &str) -> (r: Result<
        Self,
        GatewayError,
    >)
        ensures
            built_for_http(username@, optional(domain), password@, r),
    {
        Self::build(username, domain, password, HTTP_REQUIREMENTS)
    }

    /// Build the context of the secure bind, which also signs the requests after it.
    pub fn new_dce(username: &str, domain: Option<&str>, password: &str) -> (r: Result<
        Self,
        GatewayError,
    >)
        ensures
            built_for_rpc(username@, optional(domain), password@, r),
    {
        Self::build(username, domain, password, DCE_REQUIREMENTS)
    }

    fn build(username: &str, domain: Option<&str>, password: &str, flags: u32) -> (r: Result<
        Self,
        GatewayError,
    >)
        ensures
            built(username@, optional(domain), password@, flags, r),
    {
        if username.is_empty() {
            return Err(GatewayError::Invalid("username: empty".to_owned()));
        }
        let mut ntlm = sspi::Ntlm::new();
        let username = accepted_username(new_username(username, domain))?;
        let sendable = can_send(password);
        match acquire_credentials(&mut ntlm, username, password) {
            Ok(Some(buffers)) => {
                assert(sendable ==> usable(buffers));
                let creds = Credentials { buffers, sendable };
                Ok(NtlmAuth { context: Context::new(ntlm, false), creds, flags, complete: false })
            },
            Ok(None) => Err(error::protocol_error("NTLM acquire_credentials: no credentials")),
            Err(e) => Err(
                GatewayError::Protocol(
                    "NTLM acquire_credentials: ".to_owned().concat(e.to_string().as_str()),
                ),
            ),
        }
    }

    /// One step of the handshake. `input` is the server's challenge (Type-2) on the
    /// second call, `None` on the first. Returns the token to send. What a step can
    /// give is up to the security package; [`conclude`] says what is made of it.
    pub fn step(&mut self, input: Option<&[u8]>) -> (r: Result<Vec<u8>, GatewayError>)
        ensures
            steps(old(self)@, bytes_of(input), final(self)@, error::outcome_view(r)),
    {
        proof {
            use_type_invariant(&self.creds);
        }
        let awaiting = self.context.is_awaiting();
        if awaiting && !self.creds.sendable && input.is_some() {
            return Err(GatewayError::Invalid("password: malformed NT hash".to_owned()));
        }
        let flags: u32 = self.flags;
        let token: Option<Vec<u8>> = match input {
            Some(b) => Some(slice_to_vec(b)),
            None => None,
        };
        let mut ntlm = self.context.take();
        let result = initialize_security_context(&mut ntlm, &self.creds.buffers, flags, token);
        let ghost seen = result@;
        self.context = Context::new(ntlm, awaits_challenge(awaiting, &result));
        let (r, complete) = conclude(self.complete, result);
        self.complete = complete;
        assert(can_step(
            old(self)@.ntlm,
            old(self)@.credentials,
            old(self)@.requirements,
            bytes_of(input),
            seen,
            self@.ntlm,
        ));
        r
    }

    /// The security context. It can come back in any state, so that a challenge can come
    /// next.
    pub fn context(&mut self) -> (ntlm: &mut sspi::Ntlm)
        ensures
            *ntlm == old(self)@.ntlm,
            final(self)@ == (NtlmView { ntlm: *final(ntlm), awaiting: true, ..old(self)@ }),
    {
        self.context.lend()
    }

    /// Whether the handshake has completed.
    pub fn is_complete(&self) -> (b: bool)
        ensures
            b == self@.complete,
    {
        self.complete
    }

    /// Produce the 16-byte signature over `to_sign` for an RPC request. The data stays
    /// in the clear; the context counts the messages it signs.
    pub fn sign(&mut self, to_sign: &[u8]) -> (r: Result<Vec<u8>, GatewayError>)
        requires
            old(self)@.stage() != NtlmStage::Server,
        ensures
            error::outcome_view(r) == sign_outcome(
                signature_of(old(self)@.ntlm, to_sign@, RPC_SIGNATURE_SIZE as nat).0,
            ),
            final(self)@ == (NtlmView {
                ntlm: signature_of(old(self)@.ntlm, to_sign@, RPC_SIGNATURE_SIZE as nat).1,
                ..old(self)@
            }),
            r matches Ok(signature) ==> signature@.len() == RPC_SIGNATURE_SIZE,
            signs(old(self)@.stage(), r is Ok, final(self)@.stage()),
    {
        let awaiting = self.context.is_awaiting();
        let mut ntlm = self.context.take();
        let signed = encrypt_message(&mut ntlm, to_sign, RPC_SIGNATURE_SIZE);
        self.context = Context::new(ntlm, awaiting);
        signature_from(signed)
    }
}

/// Whether signing can take a handshake from `before` to `after`, with success or
/// without: a context signs exactly once its handshake is done, and stays where it was.
pub open spec fn signs(before: NtlmStage, success: bool, after: NtlmStage) -> bool {
    success == (before == NtlmStage::Final) && after == before
}

/// What signing means to the caller.
pub open spec fn sign_outcome(signed: Result<Seq<u8>, Seq<char>>) -> Result<Seq<u8>, ErrorView> {
    match signed {
        Ok(signature) => Ok(signature),
        Err(reason) => Err(ErrorView::Protocol("RPC request sign: "@ + reason)),
    }
}

/// The character of six bits in the standard base64 alphabet.
pub open spec fn sextet(n: int) -> char {
    if n < 26 {
        (65 + n) as char
    } else if n < 52 {
        (97 + n - 26) as char
    } else if n < 62 {
        (48 + n - 52) as char
    } else if n == 62 {
        '+'
    } else {
        '/'
    }
}

/// Standard base64 with padding: four characters for every three bytes.
pub open spec fn base64(bytes: Seq<u8>) -> Seq<char>
    decreases bytes.len(),
{
    if bytes.len() == 0 {
        Seq::empty()
    } else {
        let n = 0x1_0000 * bytes[0] + (if bytes.len() > 1 {
            256 * bytes[1]
        } else {
            0
        }) + (if bytes.len() > 2 {
            bytes[2] as int
        } else {
            0
        });
        let group = seq![
            sextet(n / 0x4_0000),
            sextet(n / 0x1000 % 64),
            if bytes.len() > 1 {
                sextet(n / 64 % 64)
            } else {
                '='
            },
            if bytes.len() > 2 {
                sextet(n % 64)
            } else {
                '='
            },
        ];
        if bytes.len() <= 3 {
            group
        } else {
            group + base64(bytes.skip(3))
        }
    }
}

/// The bytes that a base64 text stands for, or why it stands for none.
pub uninterp spec fn base64_decoded(text: Seq<char>) -> Result<Seq<u8>, Seq<char>>;

/// `encode` of the standard engine of the `base64` crate. It gives the standard
/// alphabet with padding, and the same engine decodes it again.
#[verifier::external_body]
fn base64_encode(bytes: &[u8]) -> (r: String)
    ensures
        r@ == base64(bytes@),
        base64_decoded(r@) is Ok,
        base64_decoded(r@)->Ok_0 == bytes@,
{
    base64::engine::general_purpose::STANDARD.encode(bytes)
}

/// `decode` of the standard engine of the `base64` crate, whose result (the error by
/// its text) is named [`base64_decoded`].
#[verifier::external_body]
fn base64_decode(text: &str) -> (r: Result<Vec<u8>, String>)
    ensures
        base64_decoded(text@) == (match r {
            Ok(bytes) => Ok(bytes@),
            Err(reason) => Err(reason@),
        }),
{
    match base64::engine::general_purpose::STANDARD.decode(text) {
        Ok(bytes) => Ok(bytes),
        Err(e) => Err(e.to_string()),
    }
}

/// The headers of a request that carries an NTLM token.
pub open spec fn authorization(token: Seq<u8>, extra: Seq<(Seq<char>, Seq<char>)>) -> Seq<
    (Seq<char>, Seq<char>),
> {
    seq![("Authorization"@, "NTLM "@ + base64(token))] + extra
}

/// The headers of a request that carries `token`, with `extra` behind it.
pub fn authorization_headers(token: &[u8], extra: &[(String, String)]) -> (r: Vec<(String, String)>)
    ensures
        http::pairs(r@) == authorization(token@, http::pairs(extra@)),
{
    let value = "NTLM ".to_owned().concat(base64_encode(token).as_str());
    let mut headers: Vec<(String, String)> = Vec::new();
    headers.push(("Authorization".to_owned(), value));
    let ghost all = authorization(token@, http::pairs(extra@));
    let mut i: usize = 0;
    assert(http::pairs(headers@) =~= all.take(1));
    while i < extra.len()
        invariant
            i <= extra@.len(),
            all == authorization(token@, http::pairs(extra@)),
            http::pairs(headers@) == all.take(i + 1),
        decreases extra@.len() - i,
    {
        let ghost before = http::pairs(headers@);
        headers.push((extra[i].0.clone(), extra[i].1.clone()));
        assert(http::pairs(headers@) =~= before.push(all[i + 1]));
        assert(all.take(i + 2) =~= before.push(all[i + 1]));
        i = i + 1;
    }
    assert(all.take(i + 1) =~= all);
    headers
}

/// What a decoded challenge is to the caller.
pub open spec fn decoded_challenge(decoded: Result<Seq<u8>, Seq<char>>) -> Result<
    Seq<u8>,
    ErrorView,
> {
    match decoded {
        Ok(bytes) => Ok(bytes),
        Err(reason) => Err(ErrorView::Protocol("bad NTLM challenge base64: "@ + reason)),
    }
}

/// The challenge of a decoded token, or the error of one that is no base64.
pub fn challenge_from(decoded: Result<Vec<u8>, String>) -> (r: Result<Vec<u8>, GatewayError>)
    ensures
        error::outcome_view(r) == decoded_challenge(
            match decoded {
                Ok(bytes) => Ok(bytes@),
                Err(reason) => Err(reason@),
            },
        ),
{
    match decoded {
        Ok(bytes) => Ok(bytes),
        Err(reason) => Err(
            GatewayError::Protocol(
                "bad NTLM challenge base64: ".to_owned().concat(reason.as_str()),
            ),
        ),
    }
}

/// The challenge in the headers of a `401`.
pub open spec fn challenge_in(headers: Seq<(Seq<char>, Seq<char>)>) -> Result<Seq<u8>, ErrorView> {
    let missing = Err(ErrorView::Protocol("gateway 401 without an NTLM challenge"@));
    match http::ntlm_token(headers) {
        Some(token) => if token.len() > 0 {
            decoded_challenge(base64_decoded(token))
        } else {
            missing
        },
        None => missing,
    }
}

/// The challenge in a `401`: an offer of NTLM without a token is none.
pub fn challenge(response: &Response) -> (r: Result<Vec<u8>, GatewayError>)
    ensures
        error::outcome_view(r) == challenge_in(http::pairs(response.headers@)),
{
    match response.www_authenticate_ntlm() {
        Some(token) => {
            if !token.is_empty() {
                return challenge_from(base64_decode(token));
            }
        },
        None => {},
    }
    Err(error::protocol_error("gateway 401 without an NTLM challenge"))
}

/// The NTLM authentication of one HTTP channel: a request with the Type-1 token and no
/// body, then, on the same connection, one with the Type-3 token and the real length.
pub struct HttpAuth {
    pub method: String,
    pub uri: String,
    pub host: String,
    /// The length that the Type-3 request declares.
    pub final_content_length: u64,
    /// Headers that ride on both requests.
    pub extra: Vec<(String, String)>,
    /// Whether the channel will be streamed into, so that only a challenge will do.
    pub streaming: bool,
}

/// Where an authentication stands after the response to its Type-1 request.
pub enum AuthNext {
    /// There was no challenge: authorized already, or rejected outright. The response
    /// is the result.
    Settled(Response),
    /// The head of the Type-3 request, to be sent next.
    Send(String),
}

/// The error of a channel that was not challenged.
pub open spec fn not_challenged(method: Seq<char>, status: u16, reason: Seq<char>) -> ErrorView {
    ErrorView::Protocol(
        method + ": expected 401 NTLM challenge, got "@ + text::dec(status as nat) + " "@ + reason,
    )
}

impl HttpAuth {
    /// The head of the request that carries `token`.
    pub open spec fn head(self, token: Seq<u8>, content_length: u64) -> Seq<char> {
        http::request_text(
            self.method@,
            self.uri@,
            self.host@,
            content_length,
            authorization(token, http::pairs(self.extra@)),
        )
    }

    /// What a step means to the request that carries its token.
    pub open spec fn head_outcome(
        self,
        stepped: Result<Seq<u8>, ErrorView>,
        content_length: u64,
    ) -> Result<Seq<char>, ErrorView> {
        match stepped {
            Ok(token) => Ok(self.head(token, content_length)),
            Err(e) => Err(e),
        }
    }

    /// What the first step means to the Type-1 request, which has no body.
    pub open spec fn first_outcome(self, stepped: Result<Seq<u8>, ErrorView>) -> Result<
        Seq<char>,
        ErrorView,
    > {
        self.head_outcome(stepped, 0)
    }

    /// The head of the request that carries the token of a step, or the error of that
    /// step.
    pub fn head_from(&self, stepped: Result<Vec<u8>, GatewayError>, content_length: u64) -> (r:
        Result<String, GatewayError>)
        ensures
            error::outcome_view(r) == self.head_outcome(
                error::outcome_view(stepped),
                content_length,
            ),
    {
        let token = stepped?;
        let headers = authorization_headers(token.as_slice(), self.extra.as_slice());
        Ok(
            http::request_head(
                self.method.as_str(),
                self.uri.as_str(),
                self.host.as_str(),
                content_length,
                headers.as_slice(),
            ),
        )
    }

    /// The head of the Type-1 request. The token is what the security package gives;
    /// [`HttpAuth::head_from`] says what is made of it.
    pub fn begin(&self, auth: &mut NtlmAuth) -> (r: Result<String, GatewayError>)
        ensures
            exists|stepped: Result<Seq<u8>, ErrorView>|
                #[trigger] steps(old(auth)@, None, final(auth)@, stepped) && error::outcome_view(r)
                    == self.first_outcome(stepped),
    {
        let stepped = auth.step(None);
        let ghost outcome = error::outcome_view(stepped);
        assert(steps(old(auth)@, None, auth@, outcome));
        self.head_from(stepped, 0)
    }

    /// What to do about the response to the Type-1 request: answer the challenge of a
    /// `401`. The answer is what the security package gives; [`HttpAuth::head_from`] says
    /// what is made of it.
    pub fn answer(&self, auth: &mut NtlmAuth, response: Response) -> (r: Result<
        AuthNext,
        GatewayError,
    >)
        ensures
            response.status != 401 ==> final(auth)@ == old(auth)@,
            response.status != 401 && !self.streaming ==> r == Ok::<AuthNext, GatewayError>(
                AuthNext::Settled(response),
            ),
            response.status != 401 && self.streaming ==> r is Err && r->Err_0@ == not_challenged(
                self.method@,
                response.status,
                response.reason@,
            ),
            response.status == 401 ==> match challenge_in(http::pairs(response.headers@)) {
                Err(e) => r is Err && r->Err_0@ == e && final(auth)@ == old(auth)@,
                Ok(type2) => self.answers(old(auth)@, type2, final(auth)@, r),
            },
    {
        if response.status != 401 {
            if self.streaming {
                return Err(
                    GatewayError::Protocol(
                        self.method.clone().concat(": expected 401 NTLM challenge, got ").concat(
                            text::dec_string(response.status as u64).as_str(),
                        ).concat(" ").concat(response.reason.as_str()),
                    ),
                );
            }
            return Ok(AuthNext::Settled(response));
        }
        let type2 = challenge(&response)?;
        let stepped = auth.step(Some(type2.as_slice()));
        let ghost outcome = error::outcome_view(stepped);
        assert(steps(old(auth)@, Some(type2@), auth@, outcome));
        let r = match self.head_from(stepped, self.final_content_length) {
            Ok(head) => Ok(AuthNext::Send(head)),
            Err(e) => Err(e),
        };
        assert(self.sends(outcome, r));
        r
    }

    /// Whether `r` is what a context can make of a challenge.
    pub open spec fn answers(
        self,
        before: NtlmView,
        type2: Seq<u8>,
        after: NtlmView,
        r: Result<AuthNext, GatewayError>,
    ) -> bool {
        exists|stepped: Result<Seq<u8>, ErrorView>|
            #[trigger] steps(before, Some(type2), after, stepped) && self.sends(stepped, r)
    }

    /// Whether `r` sends the Type-3 request of a step.
    pub open spec fn sends(
        self,
        stepped: Result<Seq<u8>, ErrorView>,
        r: Result<AuthNext, GatewayError>,
    ) -> bool {
        match self.head_outcome(stepped, self.final_content_length) {
            Ok(head) => r matches Ok(AuthNext::Send(text)) && text@ == head,
            Err(e) => r is Err && r->Err_0@ == e,
        }
    }
}

/// The first step of a handshake gives the Type-1 message, whatever it is given, and
/// the handshake is not complete after it. A context that was never in other hands refuses
/// no first step, and a step without an input is never refused.
pub proof fn first_step_gives_type1(
    before: NtlmView,
    input: Option<Seq<u8>>,
    after: NtlmView,
    outcome: Result<Seq<u8>, ErrorView>,
)
    requires
        before.stage() == NtlmStage::Initial,
        before.awaiting ==> input is None || before.sendable,
        steps(before, input, after, outcome),
    ensures
        outcome matches Ok(token) && is_ntlm_message(token, 1),
        after.stage() == NtlmStage::Challenge,
        after.awaiting,
        !after.complete,
{
}

/// From the first step on only the answer to a challenge completes a handshake: it is a
/// Type-3 message, and the context signs from then on. Any other step fails, and leaves
/// the handshake as complete as it was.
pub proof fn handshake_completes_with_type3(
    before: NtlmView,
    input: Option<Seq<u8>>,
    after: NtlmView,
    outcome: Result<Seq<u8>, ErrorView>,
)
    requires
        before.stage() != NtlmStage::Initial,
        steps(before, input, after, outcome),
    ensures
        outcome matches Ok(token) ==> before.stage() == NtlmStage::Challenge && input is Some
            && is_ntlm_message(token, 3) && after.stage() == NtlmStage::Final && after.complete
            && !after.awaiting,
        outcome matches Err(e) ==> after.complete == before.complete && if before.refuses(input) {
            e is Invalid
        } else {
            e is Protocol
        },
        input is None ==> outcome is Err && after.stage() == before.stage(),
{
}

/// The steps of a client's handshake never make a server of it, so that a context that was
/// built for a client can be asked for a signature at any time.
pub proof fn clients_stay_clients(
    before: NtlmView,
    input: Option<Seq<u8>>,
    after: NtlmView,
    outcome: Result<Seq<u8>, ErrorView>,
)
    requires
        before.stage() != NtlmStage::Server,
        steps(before, input, after, outcome),
    ensures
        after.stage() != NtlmStage::Server,
{
}

proof fn lemma_sextet_is_no_space(n: int)
    requires
        0 <= n < 64,
    ensures
        !text::is_space(sextet(n)),
{
}

proof fn lemma_base64_has_no_space(bytes: Seq<u8>)
    requires
        bytes.len() > 0,
    ensures
        base64(bytes).len() > 0,
        forall|i: int| 0 <= i < base64(bytes).len() ==> !text::is_space(#[trigger] base64(bytes)[i]),
    decreases bytes.len(),
{
    let n = 0x1_0000 * bytes[0] + (if bytes.len() > 1 {
        256 * bytes[1]
    } else {
        0
    }) + (if bytes.len() > 2 {
        bytes[2] as int
    } else {
        0
    });
    lemma_sextet_is_no_space(n / 0x4_0000);
    lemma_sextet_is_no_space(n / 0x1000 % 64);
    lemma_sextet_is_no_space(n / 64 % 64);
    lemma_sextet_is_no_space(n % 64);
    if bytes.len() > 3 {
        lemma_base64_has_no_space(bytes.skip(3));
    }
}

/// A challenge comes out of the `WWW-Authenticate` header as it went in.
pub proof fn challenge_reads_back(
    name: Seq<char>,
    token: Seq<u8>,
    rest: Seq<(Seq<char>, Seq<char>)>,
)
    requires
        token.len() > 0,
        text::same_ignoring_case(name, "WWW-Authenticate"@),
        base64_decoded(base64(token)) == Ok::<Seq<u8>, Seq<char>>(token),
    ensures
        challenge_in(seq![(name, "NTLM "@ + base64(token))] + rest) == Ok::<Seq<u8>, ErrorView>(
            token,
        ),
{
    reveal_strlit("NTLM ");
    reveal_strlit("NTLM");
    let b = base64(token);
    let v = "NTLM "@ + b;
    let headers = seq![(name, v)] + rest;
    lemma_base64_has_no_space(token);
    assert(v.last() == b.last());
    assert(v[0] == 'N');
    assert(text::trimmed_end(v) == v);
    assert(text::trimmed(v) == v);
    assert("NTLM"@ =~= v.subrange(0, 4));
    assert("NTLM"@.is_prefix_of(v));
    let t = v.skip(4);
    assert(t =~= seq![' '] + b);
    assert(t.last() == b.last());
    assert(text::trimmed_end(t) == t);
    assert(t.skip(1) =~= b);
    assert(text::trimmed_start(t) == text::trimmed_start(b));
    assert(!text::is_space(b[0]));
    assert(text::trimmed(t) == b);
    assert(headers[0] == (name, v));
}

/// The requirements and the statuses have their bits and numbers, and a signature has its
/// length.
pub proof fn requirements_have_their_bits()
    ensures
        HTTP_REQUIREMENTS == 0x10 + 0x100,
        DCE_REQUIREMENTS == 0x1 + 0x4 + 0x8 + 0x100 + 0x200,
        STATUS_OK == 0,
        STATUS_CONTINUE_NEEDED == 0x90312,
        STATUS_COMPLETE_NEEDED == 0x90313,
        RPC_SIGNATURE_SIZE == 16,
{
}

/// A handshake is complete behind a token whose status says so; a challenge comes next where
/// the status asks for the reply of the peer; a step that failed changes neither.
pub proof fn statuses_decide(before: bool, token: Seq<u8>, status: u32, reason: Seq<char>)
    ensures
        complete_after(before, StepView::Token(token, status)) <==> status == 0 || status
            == 0x90313,
        awaiting_after(before, StepView::Token(token, status)) <==> status == 0x90312,
        complete_after(before, StepView::Refused(reason)) == before,
        complete_after(before, StepView::Unresolved(reason)) == before,
        awaiting_after(before, StepView::Refused(reason)) == before,
        awaiting_after(before, StepView::Unresolved(reason)) == before,
        step_outcome(StepView::Token(token, status)) == Ok::<Seq<u8>, ErrorView>(token),
        step_outcome(StepView::Refused(reason)) is Err,
        step_outcome(StepView::Unresolved(reason)) is Err,
{
}

/// An account without a name gets no context; one that the security package accepts gets a
/// fresh one, with what is asked of it.
pub proof fn accounts_get_fresh_contexts(
    account: Seq<char>,
    domain: Option<Seq<char>>,
    password: Seq<char>,
    requirements: u32,
    r: Result<NtlmAuth, GatewayError>,
)
    requires
        built(account, domain, password, requirements, r),
    ensures
        r is Ok <==> account.len() > 0 && username_of(account, domain) is Ok,
        r matches Err(e) ==> e@ is Invalid,
        r matches Ok(auth) ==> auth@.requirements == requirements && !auth@.complete
            && auth@.stage() == NtlmStage::Initial && auth@.credentials == credentials_of(
            username_of(account, domain)->Ok_0,
            password,
        ),
{
}

/// A token goes out in front of the other headers, in the form in which a challenge comes
/// in: read as one, it gives the same base64.
pub proof fn authorization_reads_back(token: Seq<u8>, extra: Seq<(Seq<char>, Seq<char>)>)
    requires
        token.len() > 0,
    ensures
        authorization(token, extra)[0].0 == "Authorization"@,
        http::ntlm_token(seq![("WWW-Authenticate"@, authorization(token, extra)[0].1)]) == Some(
            base64(token),
        ),
        authorization(token, extra).skip(1) == extra,
{
    reveal_strlit("NTLM ");
    let b = base64(token);
    let value = authorization(token, extra)[0].1;
    assert(authorization(token, extra).skip(1) =~= extra);
    lemma_base64_has_no_space(token);
    assert(text::trimmed_end(b) == b);
    assert(!text::is_space(b[0]));
    assert(text::trimmed(b) == b);
    assert(value =~= seq!['N', 'T', 'L', 'M', ' '] + b);
    let offer = ("WWW-Authenticate"@, value);
    let none = Seq::<(Seq<char>, Seq<char>)>::empty();
    http::ntlm_token_reads_back(none, "WWW-Authenticate"@, b, none);
    assert(none + seq![offer] + none =~= seq![offer]);
}

/// The Type-1 request declares no body, the Type-3 request the length that the channel is to
/// have; both name method, URI and host.
pub proof fn requests_declare_their_length(
    auth: HttpAuth,
    token: Seq<u8>,
    r: Result<AuthNext, GatewayError>,
)
    requires
        auth.sends(Ok(token), r),
    ensures
        auth.first_outcome(Ok(token)) matches Ok(head) && (auth.method@ + " "@ + auth.uri@
            + " HTTP/1.1\r\nHost: "@ + auth.host@ + seq!['\r', '\n']).is_prefix_of(head) && (
        "Content-Length: "@ + seq!['0'] + "\r\nConnection: keep-alive\r\n\r\n"@).is_suffix_of(head),
        r matches Ok(AuthNext::Send(head)) && (auth.method@ + " "@ + auth.uri@
            + " HTTP/1.1\r\nHost: "@ + auth.host@ + seq!['\r', '\n']).is_prefix_of(head@) && (
        "Content-Length: "@ + text::dec(auth.final_content_length as nat)
            + "\r\nConnection: keep-alive\r\n\r\n"@).is_suffix_of(head@),
{
    let headers = authorization(token, http::pairs(auth.extra@));
    http::request_head_names_its_arguments(auth.method@, auth.uri@, auth.host@, 0, headers);
    http::request_head_names_its_arguments(
        auth.method@,
        auth.uri@,
        auth.host@,
        auth.final_content_length,
        headers,
    );
    assert(text::dec(0) =~= seq!['0']);
}

/// A failed step sends nothing.
pub proof fn failed_steps_send_nothing(
    auth: HttpAuth,
    e: ErrorView,
    r: Result<AuthNext, GatewayError>,
)
    requires
        auth.sends(Err(e), r),
    ensures
        auth.first_outcome(Err(e)) == Err::<Seq<char>, ErrorView>(e),
        r matches Err(err) && err@ == e,
{
}

/// An offer of NTLM without a token is no challenge, and neither is a response without an
/// offer.
pub proof fn bare_offers_are_no_challenge(headers: Seq<(Seq<char>, Seq<char>)>)
    requires
        http::ntlm_token(headers) is None || http::ntlm_token(headers) == Some(
            Seq::<char>::empty(),
        ),
    ensures
        challenge_in(headers) is Err,
{
}

/// The number of bytes of a character grows behind the last of one, two and three bytes.
pub proof fn characters_have_their_width(c: char)
    ensures
        utf8_width(c) == 1 <==> c <= '\u{7f}',
        utf8_width(c) <= 2 <==> c <= '\u{7ff}',
        utf8_width(c) <= 3 <==> c <= '\u{ffff}',
        1 <= utf8_width(c) <= 4,
{
}

/// Only a password that looks like an NT hash and holds a character outside ASCII cannot
/// answer a challenge.
pub proof fn plain_passwords_can_answer(password: Seq<char>)
    requires
        !sendable(password),
    ensures
        seq!['$', 'N', 'T', 'L', 'M', '$', ':'].is_prefix_of(password),
        utf8_length(password.skip(7)) == 32,
        exists|i: int| 7 <= i < password.len() && #[trigger] utf8_width(password[i]) > 1,
{
    reveal_strlit("$NTLM$:");
    assert(hash_prefix() =~= seq!['$', 'N', 'T', 'L', 'M', '$', ':']);
    let rest = password.skip(7);
    let i = lemma_cut(rest);
    assert(rest[i] == password[i + 7]);
}

proof fn lemma_cut(s: Seq<char>) -> (i: int)
    requires
        is_cut(s),
    ensures
        0 <= i < s.len(),
        utf8_width(s[i]) > 1,
    decreases s.len(),
{
    if utf8_width(s[0]) > 1 {
        0
    } else if utf8_width(s[1]) > 1 {
        1
    } else {
        let i = lemma_cut(s.skip(2));
        assert(s.skip(2)[i] == s[i + 2]);
        i + 2
    }
}

/// Behind hexadecimal digits, a character is cut exactly where it does not end with a pair
/// of bytes: one of two bytes only in the middle of a pair, a longer one anywhere.
pub proof fn long_characters_are_cut(front: Seq<char>, c: char, rest: Seq<char>)
    requires
        forall|i: int| 0 <= i < front.len() ==> is_hex_digit(#[trigger] front[i]),
        utf8_width(c) > 1,
    ensures
        is_cut(front + seq![c] + rest) <==> front.len() % 2 == 1 || utf8_width(c) > 2,
    decreases front.len(),
{
    let s = front + seq![c] + rest;
    if front.len() == 0 {
        assert(s[0] == c);
    } else if front.len() == 1 {
        assert(is_hex_digit(front[0]));
        assert(s[0] == front[0]);
        assert(s[1] == c);
    } else {
        assert(is_hex_digit(front[0]));
        assert(is_hex_digit(front[1]));
        assert(s[0] == front[0]);
        assert(s[1] == front[1]);
        let later = front.skip(2);
        assert forall|i: int| 0 <= i < later.len() implies is_hex_digit(#[trigger] later[i]) by {
            assert(later[i] == front[i + 2]);
        }
        long_characters_are_cut(later, c, rest);
        assert(s.skip(2) =~= later + seq![c] + rest);
    }
}

/// A text is read on behind a pair that is a hexadecimal number, with a plus sign for its
/// first digit or without, and no further than any other pair of ASCII characters.
pub proof fn reading_stops_behind_other_pairs(a: char, b: char, rest: Seq<char>)
    requires
        a as u32 <= 127,
        b as u32 <= 127,
    ensures
        is_cut(seq![a, b] + rest) <==> (a == '+' || "0123456789abcdefABCDEF"@.contains(a))
            && "0123456789abcdefABCDEF"@.contains(b) && is_cut(rest),
{
    let s = seq![a, b] + rest;
    assert(s[0] == a && s[1] == b);
    assert(s.skip(2) =~= rest);
    lemma_hex_digits_listed(a);
    lemma_hex_digits_listed(b);
}

proof fn lemma_hex_digits_listed(c: char)
    ensures
        is_hex_digit(c) <==> "0123456789abcdefABCDEF"@.contains(c),
{
    let digits = "0123456789abcdefABCDEF"@;
    reveal_strlit("0123456789abcdefABCDEF");
    if '0' <= c <= '9' {
        assert(digits[c as u32 - 48] == c);
    } else if 'a' <= c <= 'f' {
        assert(digits[c as u32 - 87] == c);
    } else if 'A' <= c <= 'F' {
        assert(digits[c as u32 - 49] == c);
    }
}

/// The length of a text in UTF-8 is the sum of the widths of its characters.
pub proof fn widths_add_up(s: Seq<char>, c: char)
    ensures
        utf8_length(Seq::empty()) == 0,
        utf8_length(s.push(c)) == utf8_length(s) + utf8_width(c),
        utf8_length(s) >= s.len(),
{
    assert(s.push(c).drop_last() =~= s);
    lemma_length_in_bytes(s);
}

/// What fails in a handshake is reported with its reason, by the step that failed.
pub proof fn handshake_errors_name_their_cause(
    reason: Seq<char>,
    method: Seq<char>,
    status: u16,
    headers: Seq<(Seq<char>, Seq<char>)>,
)
    ensures
        step_outcome(StepView::Refused(reason)) == Err::<Seq<u8>, ErrorView>(
            ErrorView::Protocol("NTLM initialize_security_context: "@ + reason),
        ),
        step_outcome(StepView::Unresolved(reason)) == Err::<Seq<u8>, ErrorView>(
            ErrorView::Protocol("NTLM resolve: "@ + reason),
        ),
        sign_outcome(Err(reason)) == Err::<Seq<u8>, ErrorView>(
            ErrorView::Protocol("RPC request sign: "@ + reason),
        ),
        decoded_challenge(Err(reason)) == Err::<Seq<u8>, ErrorView>(
            ErrorView::Protocol("bad NTLM challenge base64: "@ + reason),
        ),
        not_challenged(method, status, reason) == ErrorView::Protocol(
            method + ": expected 401 NTLM challenge, got "@ + text::dec(status as nat) + " "@
                + reason,
        ),
        http::ntlm_token(headers) is None ==> challenge_in(headers) == Err::<Seq<u8>, ErrorView>(
            ErrorView::Protocol("gateway 401 without an NTLM challenge"@),
        ),
{
}

/// A signature is handed on as it is, and so is a decoded challenge.
pub proof fn good_results_are_handed_on(bytes: Seq<u8>)
    ensures
        sign_outcome(Ok(bytes)) == Ok::<Seq<u8>, ErrorView>(bytes),
        decoded_challenge(Ok(bytes)) == Ok::<Seq<u8>, ErrorView>(bytes),
{
}

/// A context for an HTTP channel asks for confidentiality and for buffers, one for the
/// secure bind for delegation, replay and sequence detection, buffers and DCE style; both
/// have the credentials of the account.
pub proof fn contexts_ask_for_their_role(
    account: Seq<char>,
    domain: Option<Seq<char>>,
    password: Seq<char>,
    http: Result<NtlmAuth, GatewayError>,
    rpc: Result<NtlmAuth, GatewayError>,
)
    requires
        built_for_http(account, domain, password, http),
        built_for_rpc(account, domain, password, rpc),
    ensures
        http is Ok <==> rpc is Ok,
        http is Ok ==> http->Ok_0@.requirements == 0x10 + 0x100 && rpc->Ok_0@.requirements == 0x1
            + 0x4 + 0x8 + 0x100 + 0x200 && http->Ok_0@.credentials == rpc->Ok_0@.credentials
            && http->Ok_0@.credentials == credentials_of(
            username_of(account, domain)->Ok_0,
            password,
        ),
{
}

} // verus!
