//! The agent's API: who is let in, what each command asks for, and what is
//! answered.

use crate::config::Config;
use crate::crypto::{
    ed25519_accepts, ed25519_key_is_valid, ed25519_verify_strict, hex_bytes, hex_decode, hex_encode,
    hex_reads_back, hex_text, is_ed25519_key, is_hex, random_bytes,
};
use crate::document::{
    first_member_counts, members_view, str_member, u64_member, Document, Member, Scalar, ScalarView,
};
use crate::storage::{
    file_name, is_answer, saved_snapshot_is_found, selects, SnapshotBounds,
};
use crate::text::{same, trim, trimmed, views};
use crate::update::UpdateOutcome;
use vstd::prelude::*;

verus! {

/// Maximum simultaneous client connections.
pub const MAX_CONNECTIONS: usize = 32;

/// How long a challenge nonce stays valid, in nanoseconds.
pub const AUTH_NONCE_TTL: u128 = 30_000_000_000;

/// Connections that send nothing for this many seconds are closed.
pub const READ_IDLE_TIMEOUT: u64 = 300;

/// One request of a client.
#[derive(Debug)]
pub struct AgentRequest {
    pub id: String,
    pub command: String,
    pub params: Document,
}

/// What a response carries: members that the agent writes itself, or a value
/// that was made elsewhere.
#[derive(Debug)]
pub enum Payload<V> {
    Members(Vec<Member>),
    Value(V),
}

/// One response to a client.
#[derive(Debug)]
pub struct AgentResponse<V> {
    pub id: String,
    pub status: String,
    pub data: Option<Payload<V>>,
    pub error: Option<String>,
}

pub enum PayloadView<V> {
    Members(Seq<(Seq<char>, ScalarView)>),
    Value(V),
}

pub struct ResponseView<V> {
    pub id: Seq<char>,
    pub status: Seq<char>,
    pub data: Option<PayloadView<V>>,
    pub error: Option<Seq<char>>,
}

impl<V> View for Payload<V> {
    type V = PayloadView<V>;

    open spec fn view(&self) -> PayloadView<V> {
        match self {
            Payload::Members(members) => PayloadView::Members(members_view(members@)),
            Payload::Value(value) => PayloadView::Value(*value),
        }
    }
}

impl<V> View for AgentResponse<V> {
    type V = ResponseView<V>;

    open spec fn view(&self) -> ResponseView<V> {
        ResponseView {
            id: self.id@,
            status: self.status@,
            data: match self.data {
                Some(data) => Some(data@),
                None => None,
            },
            error: match self.error {
                Some(error) => Some(error@),
                None => None,
            },
        }
    }
}

/// The answer to a request that was met.
pub open spec fn ok_reply<V>(id: Seq<char>, data: Option<PayloadView<V>>) -> ResponseView<V> {
    ResponseView { id, status: "ok"@, data, error: None }
}

/// The answer to a request that was refused or failed.
pub open spec fn error_reply<V>(id: Seq<char>, message: Seq<char>) -> ResponseView<V> {
    ResponseView { id, status: "error"@, data: None, error: Some(message) }
}

fn ok_response<V>(id: String, data: Option<Payload<V>>) -> (res: AgentResponse<V>)
    ensures
        res@ == ok_reply(
            id@,
            match data {
                Some(data) => Some(data@),
                None => None,
            },
        ),
{
    AgentResponse { id, status: "ok".to_string(), data, error: None }
}

fn error_response<V>(id: String, message: String) -> (res: AgentResponse<V>)
    ensures
        res@ == error_reply::<V>(id@, message@),
{
    AgentResponse { id, status: "error".to_string(), data: None, error: Some(message) }
}

/// What an object with one member looks like.
pub open spec fn one_member<V>(key: Seq<char>, value: ScalarView) -> Option<PayloadView<V>> {
    Some(PayloadView::Members(seq![(key, value)]))
}

fn with_one_member<V>(key: &str, value: Scalar) -> (res: Payload<V>)
    ensures
        one_member::<V>(key@, value@) == Some(res@),
{
    let mut members: Vec<Member> = Vec::new();
    members.push(Member { key: key.to_string(), value });
    assert(members_view(members@) =~= seq![(key@, value@)]);
    Payload::Members(members)
}

// ─── Authentication ──────────────────────────────────────────────────────────

/// A nonce that a client has been asked to sign.
pub struct Challenge {
    /// When it was issued, in nanoseconds on a clock that never goes back.
    pub issued_at: u128,
    pub nonce: [u8; 32],
}

/// What the agent knows of one connection.
pub struct Session {
    pub authenticated: bool,
    pub pending_nonce: Option<Challenge>,
    pub current_pubkey: Option<[u8; 32]>,
}

pub struct SessionView {
    pub authenticated: bool,
    /// When the pending nonce was issued, and the nonce.
    pub pending: Option<(u128, Seq<u8>)>,
    pub pubkey: Option<Seq<u8>>,
}

impl View for Session {
    type V = SessionView;

    open spec fn view(&self) -> SessionView {
        SessionView {
            authenticated: self.authenticated,
            pending: match self.pending_nonce {
                Some(challenge) => Some((challenge.issued_at, challenge.nonce@)),
                None => None,
            },
            pubkey: match self.current_pubkey {
                Some(key) => Some(key@),
                None => None,
            },
        }
    }
}

/// A connection on which nothing has been said yet.
pub open spec fn fresh_session() -> SessionView {
    SessionView { authenticated: false, pending: None, pubkey: None }
}

impl Session {
    /// A connection on which nothing has been said yet.
    pub fn new() -> (res: Session)
        ensures
            res@ == fresh_session(),
    {
        Session { authenticated: false, pending_nonce: None, current_pubkey: None }
    }
}

/// The key that a client asks to be known by: one of the allowed texts, which
/// spells 32 bytes that are a key. Otherwise, what is wrong with it.
pub open spec fn requested_key(
    params: Seq<(Seq<char>, ScalarView)>,
    allowed: Seq<Seq<char>>,
) -> Result<Seq<u8>, Seq<char>> {
    match str_member(params, "pubkey"@) {
        None => Err("Missing pubkey"@),
        Some(text) => if !allowed.contains(text) {
            Err("Public key not allowed"@)
        } else if !is_hex(text) {
            Err("Invalid pubkey hex"@)
        } else if hex_bytes(text).len() != 32 {
            Err("Public key must be 32 bytes"@)
        } else if !is_ed25519_key(hex_bytes(text)) {
            Err("Invalid pubkey format"@)
        } else {
            Ok(hex_bytes(text))
        },
    }
}

fn is_allowed(keys: &Vec<String>, text: &str) -> (res: bool)
    ensures
        res == views(keys@).contains(text@),
{
    let mut i: usize = 0;
    while i < keys.len()
        invariant
            i <= keys@.len(),
            forall|j: int| 0 <= j < i ==> views(keys@)[j] != text@,
        decreases keys@.len() - i,
    {
        if same(keys[i].as_str(), text) {
            assert(views(keys@)[i as int] == text@);
            return true;
        }
        i += 1;
    }
    false
}

/// The first 32 bytes of a list.
fn array_of_32(bytes: &Vec<u8>) -> (res: [u8; 32])
    requires
        bytes@.len() == 32,
    ensures
        res@ == bytes@,
{
    let mut res: [u8; 32] = [0u8; 32];
    let mut i: usize = 0;
    while i < 32
        invariant
            i <= 32,
            bytes@.len() == 32,
            forall|j: int| 0 <= j < i ==> res@[j] == bytes@[j],
        decreases 32 - i,
    {
        res[i] = bytes[i];
        i += 1;
    }
    assert(res@ =~= bytes@);
    res
}

/// The first 64 bytes of a list.
fn array_of_64(bytes: &Vec<u8>) -> (res: [u8; 64])
    requires
        bytes@.len() == 64,
    ensures
        res@ == bytes@,
{
    let mut res: [u8; 64] = [0u8; 64];
    let mut i: usize = 0;
    while i < 64
        invariant
            i <= 64,
            bytes@.len() == 64,
            forall|j: int| 0 <= j < i ==> res@[j] == bytes@[j],
        decreases 64 - i,
    {
        res[i] = bytes[i];
        i += 1;
    }
    assert(res@ =~= bytes@);
    res
}

/// Reads the key that a client asks to be known by.
pub fn read_requested_key(params: &Document, config: &Config) -> (res: Result<[u8; 32], String>)
    ensures
        match res {
            Ok(key) => requested_key(params@, views(config.agent.allowed_keys@)) == Ok::<
                _,
                Seq<char>,
            >(key@),
            Err(e) => requested_key(params@, views(config.agent.allowed_keys@)) == Err::<
                Seq<u8>,
                _,
            >(e@),
        },
{
    let text = match params.get_str("pubkey") {
        Some(text) => text,
        None => return Err("Missing pubkey".to_string()),
    };
    if !is_allowed(&config.agent.allowed_keys, text.as_str()) {
        return Err("Public key not allowed".to_string());
    }
    let bytes = match hex_decode(text.as_str()) {
        Ok(bytes) => bytes,
        Err(_) => return Err("Invalid pubkey hex".to_string()),
    };
    if bytes.len() != 32 {
        return Err("Public key must be 32 bytes".to_string());
    }
    let key = array_of_32(&bytes);
    if !ed25519_key_is_valid(&key) {
        return Err("Invalid pubkey format".to_string());
    }
    Ok(key)
}

/// A request to be let in: with a key that may ask, and random bytes to sign,
/// the bytes become the pending nonce and are sent; otherwise nothing changes.
pub open spec fn auth_request_step<V>(
    session: SessionView,
    id: Seq<char>,
    key: Result<Seq<u8>, Seq<char>>,
    nonce: Result<Seq<u8>, Seq<char>>,
    now: u128,
) -> (SessionView, ResponseView<V>) {
    match key {
        Err(message) => (session, error_reply(id, message)),
        Ok(key) => match nonce {
            Err(reason) => (session, error_reply(id, "Failed to generate nonce: "@ + reason)),
            Ok(nonce) => (
                SessionView { pending: Some((now, nonce)), pubkey: Some(key), ..session },
                ok_reply(id, one_member("nonce"@, ScalarView::Str(hex_text(nonce)))),
            ),
        },
    }
}

/// What came of drawing a nonce, as a value.
pub open spec fn nonce_view(nonce: Result<[u8; 32], String>) -> Result<Seq<u8>, Seq<char>> {
    match nonce {
        Ok(nonce) => Ok(nonce@),
        Err(reason) => Err(reason@),
    }
}

/// Sends the nonce to the client whose key was accepted.
pub fn issue_challenge<V>(
    session: &mut Session,
    id: String,
    key: [u8; 32],
    nonce: Result<[u8; 32], String>,
    now: u128,
) -> (res: AgentResponse<V>)
    ensures
        (final(session)@, res@) == auth_request_step::<V>(
            old(session)@,
            id@,
            Ok(key@),
            nonce_view(nonce),
            now,
        ),
{
    match nonce {
        Ok(nonce) => {
            let text = hex_encode(nonce.as_slice());
            session.pending_nonce = Some(Challenge { issued_at: now, nonce });
            session.current_pubkey = Some(key);
            ok_response(id, Some(with_one_member("nonce", Scalar::Str(text))))
        },
        Err(reason) => {
            let mut message = "Failed to generate nonce: ".to_string();
            message.append(reason.as_str());
            error_response(id, message)
        },
    }
}

/// Whether a drawn nonce has its 32 bytes, if there is one.
pub open spec fn is_nonce(nonce: Result<Seq<u8>, Seq<char>>) -> bool {
    nonce matches Ok(bytes) ==> bytes.len() == 32
}

/// Answers a request to be let in.
pub fn handle_auth_request<V>(
    session: &mut Session,
    req: AgentRequest,
    config: &Config,
    now: u128,
) -> (res: AgentResponse<V>)
    ensures
        exists|nonce: Result<Seq<u8>, Seq<char>>| #[trigger]
            is_nonce(nonce) && (final(session)@, res@) == auth_request_step::<V>(
                old(session)@,
                req.id@,
                requested_key(req.params@, views(config.agent.allowed_keys@)),
                nonce,
                now,
            ),
{
    match read_requested_key(&req.params, config) {
        Ok(key) => {
            let nonce = random_bytes();
            assert(is_nonce(nonce_view(nonce)));
            issue_challenge(session, req.id, key, nonce, now)
        },
        Err(message) => {
            assert(is_nonce(Err::<Seq<u8>, Seq<char>>(seq![])));
            error_response(req.id, message)
        },
    }
}

/// How long ago a nonce was issued.
pub open spec fn age(issued_at: u128, now: u128) -> nat {
    if now >= issued_at {
        (now - issued_at) as nat
    } else {
        0
    }
}

/// What is wrong with the signature that a client sends, if anything.
pub open spec fn signature_fault(
    params: Seq<(Seq<char>, ScalarView)>,
    key: Seq<u8>,
    nonce: Seq<u8>,
) -> Option<Seq<char>> {
    match str_member(params, "signature"@) {
        None => Some("Missing signature"@),
        Some(text) => if !is_hex(text) {
            Some("Invalid signature hex"@)
        } else if hex_bytes(text).len() != 64 {
            Some("Signature must be 64 bytes"@)
        } else if !ed25519_accepts(key, nonce, hex_bytes(text)) {
            Some("Invalid signature"@)
        } else {
            None
        },
    }
}

/// A signature on the pending nonce: the nonce is used up either way, and a
/// signature that the key accepts, made in time, lets the client in.
pub open spec fn auth_verify_step<V>(
    session: SessionView,
    id: Seq<char>,
    params: Seq<(Seq<char>, ScalarView)>,
    now: u128,
) -> (SessionView, ResponseView<V>) {
    let used_up = SessionView { pending: None, ..session };
    match (session.pending, session.pubkey) {
        (None, _) => (session, error_reply(id, "No pending authentication request"@)),
        (Some((issued_at, nonce)), pubkey) => if age(issued_at, now) > AUTH_NONCE_TTL {
            (used_up, error_reply(id, "Authentication challenge expired"@))
        } else {
            match pubkey {
                None => (used_up, error_reply(id, "No pending authentication request"@)),
                Some(key) => match signature_fault(params, key, nonce) {
                    Some(message) => (used_up, error_reply(id, message)),
                    None => (SessionView { authenticated: true, ..used_up }, ok_reply(id, None)),
                },
            }
        },
    }
}

/// Checks the signature that a client sends.
fn check_signature(params: &Document, key: &[u8; 32], nonce: &[u8; 32]) -> (res: Result<(), String>)
    ensures
        match res {
            Ok(_) => signature_fault(params@, key@, nonce@) is None,
            Err(e) => signature_fault(params@, key@, nonce@) == Some(e@),
        },
{
    let text = match params.get_str("signature") {
        Some(text) => text,
        None => return Err("Missing signature".to_string()),
    };
    let bytes = match hex_decode(text.as_str()) {
        Ok(bytes) => bytes,
        Err(_) => return Err("Invalid signature hex".to_string()),
    };
    if bytes.len() != 64 {
        return Err("Signature must be 64 bytes".to_string());
    }
    let signature = array_of_64(&bytes);
    if ed25519_verify_strict(key, nonce.as_slice(), &signature) {
        Ok(())
    } else {
        Err("Invalid signature".to_string())
    }
}

/// Answers a signature on the pending nonce.
pub fn handle_auth_verify<V>(session: &mut Session, req: AgentRequest, now: u128) -> (res:
    AgentResponse<V>)
    ensures
        (final(session)@, res@) == auth_verify_step::<V>(
            old(session)@,
            req.id@,
            req.params@,
            now,
        ),
{
    let challenge = match session.pending_nonce.take() {
        Some(challenge) => challenge,
        None => {
            return error_response(req.id, "No pending authentication request".to_string());
        },
    };
    let elapsed: u128 = if now >= challenge.issued_at {
        now - challenge.issued_at
    } else {
        0
    };
    if elapsed > AUTH_NONCE_TTL {
        return error_response(req.id, "Authentication challenge expired".to_string());
    }
    let checked = match &session.current_pubkey {
        Some(key) => check_signature(&req.params, key, &challenge.nonce),
        None => Err("No pending authentication request".to_string()),
    };
    match checked {
        Ok(()) => {
            session.authenticated = true;
            ok_response(req.id, None)
        },
        Err(message) => error_response(req.id, message),
    }
}

// ─── Commands ────────────────────────────────────────────────────────────────

/// What the agent does about a request.
pub enum Action<V> {
    /// It answers at once.
    Reply(AgentResponse<V>),
    /// It updates itself and streams what happens.
    Update { id: String },
    /// It reads the most recent snapshot.
    Latest { id: String },
    /// It reads the snapshots from `since` to `until`.
    Range { id: String, since: u64, until: u64, limit: Option<usize> },
    /// It looks which snapshots there are.
    Info { id: String },
    /// It reads the snapshots of the last `hours`.
    Bulk { id: String, hours: u64, limit: Option<usize> },
}

pub enum ActionView<V> {
    Reply(ResponseView<V>),
    Update(Seq<char>),
    Latest(Seq<char>),
    Range { id: Seq<char>, since: u64, until: u64, limit: Option<usize> },
    Info(Seq<char>),
    Bulk { id: Seq<char>, hours: u64, limit: Option<usize> },
}

impl<V> View for Action<V> {
    type V = ActionView<V>;

    open spec fn view(&self) -> ActionView<V> {
        match self {
            Action::Reply(response) => ActionView::Reply(response@),
            Action::Update { id } => ActionView::Update(id@),
            Action::Latest { id } => ActionView::Latest(id@),
            Action::Range { id, since, until, limit } => ActionView::Range {
                id: id@,
                since: *since,
                until: *until,
                limit: *limit,
            },
            Action::Info { id } => ActionView::Info(id@),
            Action::Bulk { id, hours, limit } => ActionView::Bulk {
                id: id@,
                hours: *hours,
                limit: *limit,
            },
        }
    }
}

/// The number that a parameter gives, or `default`.
pub open spec fn number_or(
    params: Seq<(Seq<char>, ScalarView)>,
    key: Seq<char>,
    default: u64,
) -> u64 {
    match u64_member(params, key) {
        Some(n) => n,
        None => default,
    }
}

/// How many snapshots a client wants at most, if it says so.
pub open spec fn limit_of(params: Seq<(Seq<char>, ScalarView)>) -> Option<usize> {
    match u64_member(params, "limit"@) {
        Some(n) => Some(n as usize),
        None => None,
    }
}

/// What a command of a client that was let in asks for.
pub open spec fn command_action<V>(
    id: Seq<char>,
    command: Seq<char>,
    params: Seq<(Seq<char>, ScalarView)>,
    version: Seq<char>,
) -> ActionView<V> {
    if command == "telemetry.get_latest"@ {
        ActionView::Latest(id)
    } else if command == "telemetry.get_range"@ {
        ActionView::Range {
            id,
            since: number_or(params, "since"@, 0),
            until: number_or(params, "until"@, u64::MAX),
            limit: limit_of(params),
        }
    } else if command == "telemetry.get_info"@ {
        ActionView::Info(id)
    } else if command == "telemetry.get_bulk"@ {
        ActionView::Bulk { id, hours: number_or(params, "hours"@, 1), limit: limit_of(params) }
    } else if command == "agent.version"@ {
        ActionView::Reply(ok_reply(id, one_member("version"@, ScalarView::Str(version))))
    } else {
        ActionView::Reply(error_reply(id, "Unknown command: "@ + command))
    }
}

fn read_limit(params: &Document) -> (res: Option<usize>)
    ensures
        res == limit_of(params@),
{
    match params.get_u64("limit") {
        Some(n) => Some(n as usize),
        None => None,
    }
}

/// Decides what a command of a client that was let in asks for.
pub fn handle_command<V>(req: AgentRequest, version: &str) -> (res: Action<V>)
    ensures
        res@ == command_action::<V>(req.id@, req.command@, req.params@, version@),
{
    let command = req.command.as_str();
    if same(command, "telemetry.get_latest") {
        Action::Latest { id: req.id }
    } else if same(command, "telemetry.get_range") {
        Action::Range {
            id: req.id,
            since: req.params.get_u64("since").unwrap_or(0),
            until: req.params.get_u64("until").unwrap_or(u64::MAX),
            limit: read_limit(&req.params),
        }
    } else if same(command, "telemetry.get_info") {
        Action::Info { id: req.id }
    } else if same(command, "telemetry.get_bulk") {
        Action::Bulk {
            id: req.id,
            hours: req.params.get_u64("hours").unwrap_or(1),
            limit: read_limit(&req.params),
        }
    } else if same(command, "agent.version") {
        let data = with_one_member("version", Scalar::Str(version.to_string()));
        Action::Reply(ok_response(req.id, Some(data)))
    } else {
        let mut message = "Unknown command: ".to_string();
        message.append(command);
        Action::Reply(error_response(req.id, message))
    }
}

/// One request, as a value.
pub struct RequestView {
    pub id: Seq<char>,
    pub command: Seq<char>,
    pub params: Seq<(Seq<char>, ScalarView)>,
}

impl View for AgentRequest {
    type V = RequestView;

    open spec fn view(&self) -> RequestView {
        RequestView { id: self.id@, command: self.command@, params: self.params@ }
    }
}

/// Where a request goes: the two commands that let a client in are open to
/// all, every other one is refused until then.
pub open spec fn route<V>(
    session: SessionView,
    request: RequestView,
    allowed: Seq<Seq<char>>,
    version: Seq<char>,
    nonce: Result<Seq<u8>, Seq<char>>,
    now: u128,
) -> (SessionView, ActionView<V>) {
    if request.command == "agent.auth.request"@ {
        let (next, reply) = auth_request_step(
            session,
            request.id,
            requested_key(request.params, allowed),
            nonce,
            now,
        );
        (next, ActionView::Reply(reply))
    } else if request.command == "agent.auth.verify"@ {
        let (next, reply) = auth_verify_step(session, request.id, request.params, now);
        (next, ActionView::Reply(reply))
    } else if !session.authenticated {
        (session, ActionView::Reply(error_reply(request.id, "Not authenticated"@)))
    } else if request.command == "agent.update"@ {
        (session, ActionView::Update(request.id))
    } else {
        (session, command_action(request.id, request.command, request.params, version))
    }
}

/// Decides what to do about a request. The nonce of an answer to
/// `agent.auth.request` is drawn at random; nothing else depends on chance.
pub fn route_request<V>(
    session: &mut Session,
    request: AgentRequest,
    config: &Config,
    version: &str,
    now: u128,
) -> (res: Action<V>)
    ensures
        exists|nonce: Result<Seq<u8>, Seq<char>>| #[trigger]
            is_nonce(nonce) && (final(session)@, res@) == route::<V>(
                old(session)@,
                request@,
                views(config.agent.allowed_keys@),
                version@,
                nonce,
                now,
            ),
{
    assert(is_nonce(Err::<Seq<u8>, Seq<char>>(seq![])));
    let command = request.command.as_str();
    if same(command, "agent.auth.request") {
        Action::Reply(handle_auth_request(session, request, config, now))
    } else if same(command, "agent.auth.verify") {
        Action::Reply(handle_auth_verify(session, request, now))
    } else if !session.authenticated {
        Action::Reply(error_response(request.id, "Not authenticated".to_string()))
    } else if same(command, "agent.update") {
        Action::Update { id: request.id }
    } else {
        handle_command(request, version)
    }
}

// ─── Connections ─────────────────────────────────────────────────────────────

/// What came of waiting for a line.
pub enum ReadEvent {
    /// The client has been silent for too long.
    TimedOut,
    /// The connection broke.
    Failed,
    /// The client has hung up.
    Closed,
    /// A line, with or without its end.
    Line(String),
}

/// How a connection goes on.
pub enum ReadDecision {
    /// It is closed.
    Close,
    /// The line is passed over, and the next one is awaited.
    Skip,
    /// The line is read as a request.
    Parse(String),
}

/// Decides what to do with what came in. Only a line that is not blank is
/// read as a request.
pub fn after_read(event: ReadEvent) -> (res: ReadDecision)
    ensures
        match event {
            ReadEvent::Line(line) => if trimmed(line@).len() == 0 {
                res is Skip
            } else {
                res == ReadDecision::Parse(line)
            },
            _ => res is Close,
        },
{
    match event {
        ReadEvent::TimedOut => ReadDecision::Close,
        ReadEvent::Failed => ReadDecision::Close,
        ReadEvent::Closed => ReadDecision::Close,
        ReadEvent::Line(line) => {
            if trim(line.as_str()).as_str().is_empty() {
                ReadDecision::Skip
            } else {
                ReadDecision::Parse(line)
            }
        },
    }
}

/// The answer to a line that is no request, for the reason given.
pub fn invalid_json_response<V>(reason: &str) -> (res: AgentResponse<V>)
    ensures
        res@ == error_reply::<V>(seq![], "Invalid JSON: "@ + reason@),
{
    let mut message = "Invalid JSON: ".to_string();
    message.append(reason);
    error_response(String::new(), message)
}

/// Whether the connection stays open after an answer: an answer to a request
/// has to get through, one to a line that is no request has not.
pub fn keeps_open(was_request: bool, written: bool) -> (res: bool)
    ensures
        res == (was_request ==> written),
{
    !was_request || written
}

// ─── Answers ─────────────────────────────────────────────────────────────────

/// The answer that carries a value, or says why there is none.
pub open spec fn value_reply<V>(
    id: Seq<char>,
    value: Result<Result<V, String>, String>,
) -> ResponseView<V> {
    match value {
        Ok(Ok(value)) => ok_reply(id, Some(PayloadView::Value(value))),
        Ok(Err(reason)) => error_reply(id, "Serialization error: "@ + reason@),
        Err(message) => error_reply(id, message@),
    }
}

/// Answers with snapshots. `snapshots` is what came of reading them, and of
/// turning what was read into a value.
pub fn range_response<V>(id: String, snapshots: Result<Result<V, String>, String>) -> (res:
    AgentResponse<V>)
    ensures
        res@ == value_reply(id@, snapshots),
{
    match snapshots {
        Ok(Ok(value)) => ok_response(id, Some(Payload::Value(value))),
        Ok(Err(reason)) => {
            let mut message = "Serialization error: ".to_string();
            message.append(reason.as_str());
            error_response(id, message)
        },
        Err(message) => error_response(id, message),
    }
}

/// Answers with the most recent snapshot, or with nothing where there is none.
pub fn latest_response<V>(id: String, snapshot: Result<Option<Result<V, String>>, String>) -> (res:
    AgentResponse<V>)
    ensures
        res@ == match snapshot {
            Ok(None) => ok_reply::<V>(id@, None),
            Ok(Some(value)) => value_reply(id@, Ok(value)),
            Err(message) => value_reply(id@, Err(message)),
        },
{
    match snapshot {
        Ok(None) => ok_response(id, None),
        Ok(Some(value)) => range_response(id, Ok(value)),
        Err(message) => range_response(id, Err(message)),
    }
}

/// A timestamp that may be missing, as a member's value.
pub open spec fn timestamp_value(timestamp: Option<u64>) -> ScalarView {
    match timestamp {
        Some(t) => ScalarView::UInt(t),
        None => ScalarView::Null,
    }
}

fn timestamp_scalar(timestamp: Option<u64>) -> (res: Scalar)
    ensures
        res@ == timestamp_value(timestamp),
{
    match timestamp {
        Some(t) => Scalar::UInt(t),
        None => Scalar::Null,
    }
}

/// Answers which snapshots there are, how long they are kept and how often
/// they are taken.
pub fn info_response<V>(id: String, bounds: SnapshotBounds, config: &Config) -> (res: AgentResponse<
    V,
>)
    ensures
        res@ == ok_reply::<V>(
            id@,
            Some(
                PayloadView::Members(
                    seq![
                        ("oldest_timestamp"@, timestamp_value(bounds.oldest)),
                        ("newest_timestamp"@, timestamp_value(bounds.newest)),
                        ("snapshot_count"@, ScalarView::UInt(bounds.count)),
                        ("retention_days"@, ScalarView::UInt(config.agent.retention_days)),
                        ("interval_seconds"@, ScalarView::UInt(config.telemetry.interval_seconds)),
                    ],
                ),
            ),
        ),
{
    let mut members: Vec<Member> = Vec::new();
    members.push(
        Member { key: "oldest_timestamp".to_string(), value: timestamp_scalar(bounds.oldest) },
    );
    members.push(
        Member { key: "newest_timestamp".to_string(), value: timestamp_scalar(bounds.newest) },
    );
    members.push(Member { key: "snapshot_count".to_string(), value: Scalar::UInt(bounds.count) });
    members.push(
        Member {
            key: "retention_days".to_string(),
            value: Scalar::UInt(config.agent.retention_days),
        },
    );
    members.push(
        Member {
            key: "interval_seconds".to_string(),
            value: Scalar::UInt(config.telemetry.interval_seconds),
        },
    );
    assert(members_view(members@) =~= seq![
        ("oldest_timestamp"@, timestamp_value(bounds.oldest)),
        ("newest_timestamp"@, timestamp_value(bounds.newest)),
        ("snapshot_count"@, ScalarView::UInt(bounds.count)),
        ("retention_days"@, ScalarView::UInt(config.agent.retention_days)),
        ("interval_seconds"@, ScalarView::UInt(config.telemetry.interval_seconds)),
    ]);
    ok_response(id, Some(Payload::Members(members)))
}

/// When the window of the last `hours` began.
pub open spec fn bulk_start(now: u64, hours: u64) -> int {
    if now >= hours * 3600 {
        now - hours * 3600
    } else {
        0
    }
}

/// When the window of the last `hours` began.
pub fn bulk_since(now: u64, hours: u64) -> (res: u64)
    ensures
        res == bulk_start(now, hours),
{
    match hours.checked_mul(3600) {
        Some(seconds) => now.saturating_sub(seconds),
        None => 0,
    }
}

/// A line of an update on its way.
pub fn streaming_response<V>(id: &str, line: String) -> (res: AgentResponse<V>)
    ensures
        res@ == (ResponseView::<V> {
            id: id@,
            status: "streaming"@,
            data: one_member("output"@, ScalarView::Str(line@)),
            error: None,
        }),
{
    AgentResponse {
        id: id.to_string(),
        status: "streaming".to_string(),
        data: Some(with_one_member("output", Scalar::Str(line))),
        error: None,
    }
}

/// The last line of an update that failed, which tells why; there is none if it
/// went well.
pub fn update_error_line(result: &Result<UpdateOutcome, String>) -> (res: Option<String>)
    ensures
        match result {
            Ok(_) => res is None,
            Err(reason) => res matches Some(line) && line@ == "ERROR: "@ + reason@,
        },
{
    match result {
        Ok(_) => None,
        Err(reason) => {
            let mut line = "ERROR: ".to_string();
            line.append(reason.as_str());
            Some(line)
        },
    }
}

/// How an update is answered in the end; `None` stands for one that failed.
pub open spec fn update_reply<V>(id: Seq<char>, outcome: Option<UpdateOutcome>) -> ResponseView<V> {
    match outcome {
        Some(UpdateOutcome::UpToDate) => ok_reply(
            id,
            one_member("up_to_date"@, ScalarView::Bool(true)),
        ),
        Some(UpdateOutcome::Installed { restart_scheduled }) => ok_reply(
            id,
            Some(
                PayloadView::Members(
                    seq![
                        ("updated"@, ScalarView::Bool(true)),
                        ("restarting"@, ScalarView::Bool(restart_scheduled)),
                    ],
                ),
            ),
        ),
        None => error_reply(id, "Agent update failed"@),
    }
}

/// Answers an update in the end; `ended` is what came of it, or nothing if it
/// broke off.
pub fn update_response<V>(id: String, ended: Option<Result<UpdateOutcome, String>>) -> (res:
    AgentResponse<V>)
    ensures
        res@ == update_reply::<V>(
            id@,
            match ended {
                Some(Ok(outcome)) => Some(outcome),
                _ => None,
            },
        ),
{
    match ended {
        Some(Ok(UpdateOutcome::UpToDate)) => ok_response(
            id,
            Some(with_one_member("up_to_date", Scalar::Bool(true))),
        ),
        Some(Ok(UpdateOutcome::Installed { restart_scheduled })) => {
            let mut members: Vec<Member> = Vec::new();
            members.push(Member { key: "updated".to_string(), value: Scalar::Bool(true) });
            members.push(
                Member { key: "restarting".to_string(), value: Scalar::Bool(restart_scheduled) },
            );
            assert(members_view(members@) =~= seq![
                ("updated"@, ScalarView::Bool(true)),
                ("restarting"@, ScalarView::Bool(restart_scheduled)),
            ]);
            ok_response(id, Some(Payload::Members(members)))
        },
        _ => error_response(id, "Agent update failed".to_string()),
    }
}

// ─── What holds of every connection ──────────────────────────────────────────

/// One request on a connection, with the nonce that was drawn for it.
pub struct Step {
    pub request: RequestView,
    pub nonce: Result<Seq<u8>, Seq<char>>,
    pub now: u128,
}

/// What is known of a connection after some requests.
pub open spec fn session_after<V>(
    steps: Seq<Step>,
    allowed: Seq<Seq<char>>,
    version: Seq<char>,
) -> SessionView
    decreases steps.len(),
{
    if steps.len() == 0 {
        fresh_session()
    } else {
        let before = session_after::<V>(steps.drop_last(), allowed, version);
        let step = steps.last();
        route::<V>(before, step.request, allowed, version, step.nonce, step.now).0
    }
}

/// `key` is spelled by one of the allowed texts and is an Ed25519 key.
pub open spec fn is_allowed_key(key: Seq<u8>, allowed: Seq<Seq<char>>) -> bool {
    is_ed25519_key(key) && exists|i: int|
        0 <= i < allowed.len() && is_hex(#[trigger] allowed[i]) && hex_bytes(allowed[i]) == key
}

/// A key is known on a connection only if it is allowed, and whenever a nonce
/// is pending there is a key to check its signature with.
pub open spec fn session_ok(session: SessionView, allowed: Seq<Seq<char>>) -> bool {
    &&& session.pubkey matches Some(key) ==> is_allowed_key(key, allowed)
    &&& session.pending is Some ==> session.pubkey is Some
}

/// Every request keeps the session in order: only allowed keys are known, and
/// a pending nonce has a key.
pub proof fn requests_keep_session_ok<V>(
    session: SessionView,
    request: RequestView,
    allowed: Seq<Seq<char>>,
    version: Seq<char>,
    nonce: Result<Seq<u8>, Seq<char>>,
    now: u128,
)
    requires
        session_ok(session, allowed),
    ensures
        session_ok(route::<V>(session, request, allowed, version, nonce, now).0, allowed),
{
    if let Some(text) = str_member(request.params, "pubkey"@) {
        if allowed.contains(text) {
            let i = choose|i: int| 0 <= i < allowed.len() && allowed[i] == text;
            assert(allowed[i] == text);
        }
    }
}

/// A client that has been let in stays let in.
pub proof fn authentication_lasts<V>(
    session: SessionView,
    request: RequestView,
    allowed: Seq<Seq<char>>,
    version: Seq<char>,
    nonce: Result<Seq<u8>, Seq<char>>,
    now: u128,
)
    requires
        session.authenticated,
    ensures
        route::<V>(session, request, allowed, version, nonce, now).0.authenticated,
{
}

/// Until a client has been let in, every command but the two that let it in
/// is answered "Not authenticated" and changes nothing.
pub proof fn commands_need_authentication<V>(
    session: SessionView,
    request: RequestView,
    allowed: Seq<Seq<char>>,
    version: Seq<char>,
    nonce: Result<Seq<u8>, Seq<char>>,
    now: u128,
)
    requires
        !session.authenticated,
        request.command != "agent.auth.request"@,
        request.command != "agent.auth.verify"@,
    ensures
        route::<V>(session, request, allowed, version, nonce, now) == (
            session,
            ActionView::<V>::Reply(error_reply(request.id, "Not authenticated"@)),
        ),
{
}

/// A request lets a client in only by a signature that the known key accepts
/// on the pending nonce, not more than thirty seconds after it was issued.
pub open spec fn lets_in(session: SessionView, step: Step) -> bool {
    &&& step.request.command == "agent.auth.verify"@
    &&& session.pending matches Some((issued_at, nonce))
    &&& age(issued_at, step.now) <= AUTH_NONCE_TTL
    &&& session.pubkey matches Some(key)
    &&& str_member(step.request.params, "signature"@) matches Some(text)
    &&& is_hex(text)
    &&& hex_bytes(text).len() == 64
    &&& ed25519_accepts(key, nonce, hex_bytes(text))
}

/// Whoever has been let in has, in some request, signed the nonce that was
/// then pending, in time, with an allowed key.
pub proof fn authentication_needs_a_signature<V>(
    steps: Seq<Step>,
    allowed: Seq<Seq<char>>,
    version: Seq<char>,
)
    ensures
        session_ok(session_after::<V>(steps, allowed, version), allowed),
        session_after::<V>(steps, allowed, version).authenticated ==> exists|i: int|
            0 <= i < steps.len() && lets_in(
                session_after::<V>(steps.take(i), allowed, version),
                #[trigger] steps[i],
            ) && is_allowed_key(
                session_after::<V>(steps.take(i), allowed, version).pubkey->0,
                allowed,
            ),
    decreases steps.len(),
{
    if steps.len() > 0 {
        let earlier = steps.drop_last();
        let before = session_after::<V>(earlier, allowed, version);
        let step = steps.last();
        let last = steps.len() - 1;
        authentication_needs_a_signature::<V>(earlier, allowed, version);
        requests_keep_session_ok::<V>(
            before,
            step.request,
            allowed,
            version,
            step.nonce,
            step.now,
        );
        assert(steps.take(last) =~= earlier);
        assert(steps[last] == step);
        if before.authenticated {
            let i = choose|i: int|
                0 <= i < earlier.len() && lets_in(
                    session_after::<V>(earlier.take(i), allowed, version),
                    #[trigger] earlier[i],
                ) && is_allowed_key(
                    session_after::<V>(earlier.take(i), allowed, version).pubkey->0,
                    allowed,
                );
            assert(steps.take(i) =~= earlier.take(i));
            assert(steps[i] == earlier[i]);
        }
    }
}

/// Without a trusted key, no client can authenticate.
pub proof fn no_key_no_entry<V>(steps: Seq<Step>, version: Seq<char>)
    ensures
        !session_after::<V>(steps, seq![], version).authenticated,
{
    authentication_needs_a_signature::<V>(steps, seq![], version);
}

/// A nonce is good for one try: whatever came of the first signature, a
/// second one is told that nothing is pending, and changes nothing.
pub proof fn nonce_is_used_once<V>(
    session: SessionView,
    first: RequestView,
    second: RequestView,
    first_now: u128,
    second_now: u128,
)
    ensures
        ({
            let after = auth_verify_step::<V>(session, first.id, first.params, first_now).0;
            auth_verify_step::<V>(after, second.id, second.params, second_now) == (
                after,
                error_reply::<V>(second.id, "No pending authentication request"@),
            )
        }),
{
}

/// A client with an allowed key that signs the nonce it is sent, in time, is
/// let in. What it is sent spells the nonce.
pub proof fn honest_client_is_let_in<V>(
    session: SessionView,
    ask: RequestView,
    answer: RequestView,
    allowed: Seq<Seq<char>>,
    version: Seq<char>,
    nonce: Seq<u8>,
    signature: Seq<u8>,
    other_nonce: Result<Seq<u8>, Seq<char>>,
    issued_at: u128,
    now: u128,
)
    requires
        ask.command == "agent.auth.request"@,
        answer.command == "agent.auth.verify"@,
        requested_key(ask.params, allowed) matches Ok(key) && ed25519_accepts(
            key,
            nonce,
            signature,
        ),
        signature.len() == 64,
        str_member(answer.params, "signature"@) == Some(hex_text(signature)),
        age(issued_at, now) <= AUTH_NONCE_TTL,
    ensures
        ({
            let asked = route::<V>(session, ask, allowed, version, Ok(nonce), issued_at);
            let answered = route::<V>(asked.0, answer, allowed, version, other_nonce, now);
            &&& asked.1 == ActionView::<V>::Reply(
                ok_reply(ask.id, one_member("nonce"@, ScalarView::Str(hex_text(nonce)))),
            )
            &&& is_hex(hex_text(nonce)) && hex_bytes(hex_text(nonce)) == nonce
            &&& answered.0.authenticated
            &&& answered.1 == ActionView::<V>::Reply(ok_reply(answer.id, None))
        }),
{
    reveal_strlit("agent.auth.request");
    reveal_strlit("agent.auth.verify");
    assert("agent.auth.request"@.len() != "agent.auth.verify"@.len());
    hex_reads_back(nonce);
    hex_reads_back(signature);
}

/// Whether a request has drawn the nonce that is pending, for the key that is
/// known.
pub open spec fn drew(step: Step, allowed: Seq<Seq<char>>, session: SessionView) -> bool {
    &&& step.request.command == "agent.auth.request"@
    &&& session.pending matches Some((issued_at, nonce))
    &&& step.now == issued_at
    &&& step.nonce == Ok::<Seq<u8>, Seq<char>>(nonce)
    &&& session.pubkey matches Some(key)
    &&& requested_key(step.request.params, allowed) == Ok::<Seq<u8>, Seq<char>>(key)
}

/// A pending nonce was drawn on this connection, for a request with the key
/// that its signature will be checked with.
pub proof fn pending_nonce_was_drawn<V>(
    steps: Seq<Step>,
    allowed: Seq<Seq<char>>,
    version: Seq<char>,
)
    ensures
        session_after::<V>(steps, allowed, version).pending is Some ==> exists|i: int|
            0 <= i < steps.len() && drew(
                #[trigger] steps[i],
                allowed,
                session_after::<V>(steps, allowed, version),
            ),
    decreases steps.len(),
{
    if steps.len() > 0 {
        let earlier = steps.drop_last();
        let before = session_after::<V>(earlier, allowed, version);
        let after = session_after::<V>(steps, allowed, version);
        pending_nonce_was_drawn::<V>(earlier, allowed, version);
        let last = steps.len() - 1;
        assert(steps[last] == steps.last());
        if after.pending is Some && !drew(steps[last], allowed, after) {
            assert(after.pending == before.pending && after.pubkey == before.pubkey);
            let i = choose|i: int|
                0 <= i < earlier.len() && drew(#[trigger] earlier[i], allowed, before);
            assert(steps[i] == earlier[i]);
            assert(drew(steps[i], allowed, after));
        }
    }
}

/// Which request an action belongs to.
pub open spec fn action_id<V>(action: ActionView<V>) -> Seq<char> {
    match action {
        ActionView::Reply(response) => response.id,
        ActionView::Update(id) => id,
        ActionView::Latest(id) => id,
        ActionView::Range { id, .. } => id,
        ActionView::Info(id) => id,
        ActionView::Bulk { id, .. } => id,
    }
}

/// A response either meets its request or says what is wrong, not both.
pub open spec fn is_plain<V>(response: ResponseView<V>) -> bool {
    ||| response.status == "ok"@ && response.error is None
    ||| response.status == "error"@ && response.error is Some && response.data is None
}

/// Every request is answered under its own id, and every immediate answer
/// either meets it or says what is wrong.
pub proof fn requests_are_answered<V>(
    session: SessionView,
    request: RequestView,
    allowed: Seq<Seq<char>>,
    version: Seq<char>,
    nonce: Result<Seq<u8>, Seq<char>>,
    now: u128,
)
    ensures
        ({
            let action = route::<V>(session, request, allowed, version, nonce, now).1;
            &&& action_id(action) == request.id
            &&& action matches ActionView::Reply(response) ==> is_plain(response)
        }),
{
}

/// What a saved snapshot has to do with the last hours: it is among those that
/// are answered with if it is no older than that and not from the future.
pub proof fn bulk_holds_the_last_hours(
    names: Seq<Seq<char>>,
    i: usize,
    timestamp: u64,
    now: u64,
    hours: u64,
    selected: Seq<usize>,
)
    requires
        i < names.len(),
        names[i as int] == file_name(timestamp),
        selects(names, bulk_start(now, hours), now as int, selected),
    ensures
        selected.contains(i) <==> timestamp <= now && timestamp + hours * 3600 >= now,
{
    saved_snapshot_is_found(timestamp);
}

// ─── What each request comes to ──────────────────────────────────────────────

/// The names of the commands differ from each other.
proof fn lemma_commands_differ()
    ensures
        "agent.auth.request"@ != "agent.auth.verify"@,
        "agent.update"@ != "agent.auth.request"@,
        "agent.update"@ != "agent.auth.verify"@,
        "agent.version"@ != "agent.auth.request"@,
        "agent.version"@ != "agent.auth.verify"@,
        "agent.version"@ != "agent.update"@,
        forall|c: Seq<char>| #[trigger] c.len() > 0 && c[0] == 't' ==> c != "agent.auth.request"@
            && c != "agent.auth.verify"@ && c != "agent.update"@ && c != "agent.version"@,
        "telemetry.get_latest"@.len() > 0 && "telemetry.get_latest"@[0] == 't',
        "telemetry.get_range"@.len() > 0 && "telemetry.get_range"@[0] == 't',
        "telemetry.get_info"@.len() > 0 && "telemetry.get_info"@[0] == 't',
        "telemetry.get_bulk"@.len() > 0 && "telemetry.get_bulk"@[0] == 't',
        "telemetry.get_latest"@ != "telemetry.get_range"@,
        "telemetry.get_latest"@ != "telemetry.get_info"@,
        "telemetry.get_latest"@ != "telemetry.get_bulk"@,
        "telemetry.get_range"@ != "telemetry.get_info"@,
        "telemetry.get_range"@ != "telemetry.get_bulk"@,
        "telemetry.get_info"@ != "telemetry.get_bulk"@,
{
    reveal_strlit("agent.auth.request");
    reveal_strlit("agent.auth.verify");
    reveal_strlit("agent.update");
    reveal_strlit("agent.version");
    reveal_strlit("telemetry.get_latest");
    reveal_strlit("telemetry.get_range");
    reveal_strlit("telemetry.get_info");
    reveal_strlit("telemetry.get_bulk");
    assert("agent.update"@[6] == 'u' && "agent.version"@[6] == 'v');
    assert("agent.auth.request"@[6] == 'a' && "agent.auth.verify"@[6] == 'a');
    assert("agent.auth.request"@[11] == 'r' && "agent.auth.verify"@[11] == 'v');
    assert("agent.auth.request"@[0] == 'a' && "agent.auth.verify"@[0] == 'a');
    assert("agent.update"@[0] == 'a' && "agent.version"@[0] == 'a');
    assert("telemetry.get_latest"@[14] == 'l' && "telemetry.get_range"@[14] == 'r');
    assert("telemetry.get_info"@[14] == 'i' && "telemetry.get_bulk"@[14] == 'b');
}

/// Whichever of the allowed keys a client asks with, if it is a key it is sent
/// a nonce, and its signature will be checked with that key; that it asked
/// neither lets it in nor puts it out.
pub proof fn every_allowed_key_may_ask<V>(
    session: SessionView,
    request: RequestView,
    allowed: Seq<Seq<char>>,
    version: Seq<char>,
    nonce: Seq<u8>,
    now: u128,
    i: int,
    m: int,
)
    requires
        request.command == "agent.auth.request"@,
        0 <= i < allowed.len(),
        0 <= m < request.params.len(),
        request.params[m] == ("pubkey"@, ScalarView::Str(allowed[i])),
        forall|j: int| 0 <= j < m ==> (#[trigger] request.params[j]).0 != "pubkey"@,
        is_hex(allowed[i]),
        hex_bytes(allowed[i]).len() == 32,
        is_ed25519_key(hex_bytes(allowed[i])),
    ensures
        ({
            let after = route::<V>(session, request, allowed, version, Ok(nonce), now);
            &&& after.0.pubkey == Some(hex_bytes(allowed[i]))
            &&& after.0.pending == Some((now, nonce))
            &&& after.0.authenticated == session.authenticated
            &&& after.1 matches ActionView::Reply(reply)
            &&& reply.id == request.id
            &&& reply.status == "ok"@
            &&& reply.error is None
            &&& reply.data == Some(
                PayloadView::<V>::Members(seq![("nonce"@, ScalarView::Str(hex_text(nonce)))]),
            )
        }),
{
    first_member_counts(request.params, m);
    assert(allowed.contains(allowed[i]));
}

/// A key that is not among the allowed ones, or is no key, is refused, with
/// what is wrong with it, and nothing changes. So is every key while no random
/// bytes are to be had.
pub proof fn other_keys_are_refused<V>(
    session: SessionView,
    request: RequestView,
    allowed: Seq<Seq<char>>,
    version: Seq<char>,
    nonce: Result<Seq<u8>, Seq<char>>,
    now: u128,
)
    requires
        request.command == "agent.auth.request"@,
    ensures
        ({
            let after = route::<V>(session, request, allowed, version, nonce, now);
            let refused = |message: Seq<char>|
                after == (
                    session,
                    ActionView::<V>::Reply(
                        ResponseView {
                            id: request.id,
                            status: "error"@,
                            data: None,
                            error: Some(message),
                        },
                    ),
                );
            match str_member(request.params, "pubkey"@) {
                None => refused("Missing pubkey"@),
                Some(text) => {
                    &&& (forall|i: int| 0 <= i < allowed.len() ==> #[trigger] allowed[i] != text)
                        ==> refused("Public key not allowed"@)
                    &&& (exists|i: int| 0 <= i < allowed.len() && #[trigger] allowed[i] == text)
                        ==> {
                        &&& !is_hex(text) ==> refused("Invalid pubkey hex"@)
                        &&& is_hex(text) && text.len() != 64 ==> refused(
                            "Public key must be 32 bytes"@,
                        )
                        &&& is_hex(text) && text.len() == 64 && !is_ed25519_key(hex_bytes(text))
                            ==> refused("Invalid pubkey format"@)
                        &&& is_hex(text) && text.len() == 64 && is_ed25519_key(hex_bytes(text))
                            ==> (nonce matches Err(reason) ==> refused(
                            "Failed to generate nonce: "@ + reason,
                        ))
                    }
                },
            }
        }),
{
    if let Some(text) = str_member(request.params, "pubkey"@) {
        if allowed.contains(text) {
            let i = choose|i: int| 0 <= i < allowed.len() && allowed[i] == text;
            assert(allowed[i] == text);
        }
        if exists|i: int| 0 <= i < allowed.len() && #[trigger] allowed[i] == text {
            let i = choose|i: int| 0 <= i < allowed.len() && #[trigger] allowed[i] == text;
            assert(allowed.contains(text));
        }
    }
}

/// A signature that the known key accepts on the pending nonce, in digits of
/// either case, not more than thirty seconds after the nonce was issued, lets
/// the client in. Whatever else is sent does not, and is told what is wrong.
/// Either way the nonce is used up and the key stays known.
pub proof fn signature_decides<V>(
    session: SessionView,
    request: RequestView,
    allowed: Seq<Seq<char>>,
    version: Seq<char>,
    nonce: Result<Seq<u8>, Seq<char>>,
    now: u128,
)
    requires
        request.command == "agent.auth.verify"@,
    ensures
        ({
            let after = route::<V>(session, request, allowed, version, nonce, now);
            let answered = |authenticated: bool, status: Seq<char>, error: Option<Seq<char>>|
                {
                    &&& after.0.authenticated == authenticated
                    &&& after.0.pending is None
                    &&& after.0.pubkey == session.pubkey
                    &&& after.1 == ActionView::<V>::Reply(
                        ResponseView { id: request.id, status, data: None, error },
                    )
                };
            let refused = |message: Seq<char>|
                answered(session.authenticated, "error"@, Some(message));
            match (session.pending, session.pubkey) {
                (Some((issued_at, sent)), Some(key)) => if now > issued_at + 30_000_000_000 {
                    refused("Authentication challenge expired"@)
                } else {
                    match str_member(request.params, "signature"@) {
                        None => refused("Missing signature"@),
                        Some(text) => {
                            &&& !is_hex(text) ==> refused("Invalid signature hex"@)
                            &&& is_hex(text) && text.len() != 128 ==> refused(
                                "Signature must be 64 bytes"@,
                            )
                            &&& is_hex(text) && text.len() == 128 && !ed25519_accepts(
                                key,
                                sent,
                                hex_bytes(text),
                            ) ==> refused("Invalid signature"@)
                            &&& is_hex(text) && text.len() == 128 && ed25519_accepts(
                                key,
                                sent,
                                hex_bytes(text),
                            ) ==> answered(true, "ok"@, None)
                        },
                    }
                },
                (None, _) => refused("No pending authentication request"@),
                (Some((issued_at, _)), None) => if now > issued_at + 30_000_000_000 {
                    refused("Authentication challenge expired"@)
                } else {
                    refused("No pending authentication request"@)
                },
            }
        }),
{
    lemma_commands_differ();
}

/// What a client that was let in gets for each command. None of them changes
/// what is known of the connection.
pub proof fn commands_do_what_they_say<V>(
    session: SessionView,
    request: RequestView,
    allowed: Seq<Seq<char>>,
    version: Seq<char>,
    nonce: Result<Seq<u8>, Seq<char>>,
    now: u128,
)
    requires
        session.authenticated,
        request.command != "agent.auth.request"@,
        request.command != "agent.auth.verify"@,
    ensures
        ({
            let (after, action) = route::<V>(session, request, allowed, version, nonce, now);
            let command = request.command;
            &&& after == session
            &&& command == "agent.update"@ ==> action == ActionView::<V>::Update(request.id)
            &&& command == "telemetry.get_latest"@ ==> action == ActionView::<V>::Latest(request.id)
            &&& command == "telemetry.get_info"@ ==> action == ActionView::<V>::Info(request.id)
            &&& command == "telemetry.get_range"@ ==> action is Range && action->Range_id
                == request.id
            &&& command == "telemetry.get_bulk"@ ==> action is Bulk && action->Bulk_id == request.id
            &&& command == "agent.version"@ ==> {
                &&& action matches ActionView::Reply(reply)
                &&& reply.id == request.id
                &&& reply.status == "ok"@
                &&& reply.error is None
                &&& reply.data == Some(
                    PayloadView::<V>::Members(seq![("version"@, ScalarView::Str(version))]),
                )
            }
            &&& command != "agent.update"@ && command != "telemetry.get_latest"@ && command
                != "telemetry.get_info"@ && command != "telemetry.get_range"@ && command
                != "telemetry.get_bulk"@ && command != "agent.version"@ ==> action == ActionView::<
                V,
            >::Reply(
                ResponseView {
                    id: request.id,
                    status: "error"@,
                    data: None,
                    error: Some("Unknown command: "@ + command),
                },
            )
        }),
{
    lemma_commands_differ();
}

/// A range is what the client asks for: it begins and ends where the client
/// says, and holds no more than the client says; without a word it has no
/// beginning, no end and no limit.
pub proof fn range_is_as_asked<V>(
    session: SessionView,
    request: RequestView,
    allowed: Seq<Seq<char>>,
    version: Seq<char>,
    nonce: Result<Seq<u8>, Seq<char>>,
    now: u128,
    m: int,
)
    requires
        session.authenticated,
        request.command == "telemetry.get_range"@,
        0 <= m < request.params.len(),
        forall|j: int| 0 <= j < m ==> (#[trigger] request.params[j]).0 != request.params[m].0,
    ensures
        ({
            let action = route::<V>(session, request, allowed, version, nonce, now).1;
            &&& action is Range
            &&& request.params[m].1 matches ScalarView::UInt(n) ==> {
                &&& request.params[m].0 == "since"@ ==> action->since == n
                &&& request.params[m].0 == "until"@ ==> action->until == n
                &&& request.params[m].0 == "limit"@ ==> action->Range_limit == Some(n as usize)
            }
        }),
{
    lemma_commands_differ();
    first_member_counts(request.params, m);
}

/// What the client does not say of a range or of the last hours has its
/// default: from the beginning, to the end, one hour, no limit.
pub proof fn what_is_not_said_has_its_default<V>(
    session: SessionView,
    request: RequestView,
    allowed: Seq<Seq<char>>,
    version: Seq<char>,
    nonce: Result<Seq<u8>, Seq<char>>,
    now: u128,
)
    requires
        session.authenticated,
    ensures
        ({
            let action = route::<V>(session, request, allowed, version, nonce, now).1;
            let says = |key: Seq<char>| u64_member(request.params, key) is Some;
            &&& request.command == "telemetry.get_range"@ ==> {
                &&& !says("since"@) ==> action->since == 0
                &&& !says("until"@) ==> action->until == u64::MAX
                &&& !says("limit"@) ==> action->Range_limit is None
            }
            &&& request.command == "telemetry.get_bulk"@ ==> {
                &&& !says("hours"@) ==> action->hours == 1
                &&& !says("limit"@) ==> action->Bulk_limit is None
            }
        }),
{
    lemma_commands_differ();
}

/// The last hours are as many as the client asks for, and hold no more
/// snapshots than it says.
pub proof fn bulk_is_as_asked<V>(
    session: SessionView,
    request: RequestView,
    allowed: Seq<Seq<char>>,
    version: Seq<char>,
    nonce: Result<Seq<u8>, Seq<char>>,
    now: u128,
    m: int,
)
    requires
        session.authenticated,
        request.command == "telemetry.get_bulk"@,
        0 <= m < request.params.len(),
        forall|j: int| 0 <= j < m ==> (#[trigger] request.params[j]).0 != request.params[m].0,
    ensures
        ({
            let action = route::<V>(session, request, allowed, version, nonce, now).1;
            &&& action is Bulk
            &&& request.params[m].1 matches ScalarView::UInt(n) ==> {
                &&& request.params[m].0 == "hours"@ ==> action->hours == n
                &&& request.params[m].0 == "limit"@ ==> action->Bulk_limit == Some(n as usize)
            }
        }),
{
    lemma_commands_differ();
    first_member_counts(request.params, m);
}

/// Whatever was stored, an answer to a request with a limit holds no more
/// snapshots than that.
pub proof fn limit_bounds_the_answer<V>(
    session: SessionView,
    request: RequestView,
    allowed: Seq<Seq<char>>,
    version: Seq<char>,
    nonce: Result<Seq<u8>, Seq<char>>,
    now: u128,
    m: int,
    limit: u64,
    read: Seq<Option<u64>>,
    order: Seq<usize>,
)
    requires
        session.authenticated,
        request.command == "telemetry.get_range"@ || request.command == "telemetry.get_bulk"@,
        0 <= m < request.params.len(),
        request.params[m] == ("limit"@, ScalarView::UInt(limit)),
        forall|j: int| 0 <= j < m ==> (#[trigger] request.params[j]).0 != "limit"@,
        limit <= usize::MAX,
        match route::<V>(session, request, allowed, version, nonce, now).1 {
            ActionView::Range { limit, .. } => is_answer(read, limit, order),
            ActionView::Bulk { limit, .. } => is_answer(read, limit, order),
            _ => true,
        },
    ensures
        order.len() <= limit,
{
    if request.command == "telemetry.get_range"@ {
        range_is_as_asked::<V>(session, request, allowed, version, nonce, now, m);
    } else {
        bulk_is_as_asked::<V>(session, request, allowed, version, nonce, now, m);
    }
}

/// Answers say what came of the request: the value or the reason why there is
/// none, a missing timestamp as nothing, and an update by how it ended.
pub proof fn answers_say_what_came_of_it<V>(
    id: Seq<char>,
    value: V,
    reason: String,
    timestamp: u64,
    restart_scheduled: bool,
)
    ensures
        value_reply(id, Ok(Ok(value))) == (ResponseView {
            id,
            status: "ok"@,
            data: Some(PayloadView::Value(value)),
            error: None,
        }),
        value_reply::<V>(id, Ok(Err(reason))) == (ResponseView::<V> {
            id,
            status: "error"@,
            data: None,
            error: Some("Serialization error: "@ + reason@),
        }),
        value_reply::<V>(id, Err(reason)) == (ResponseView::<V> {
            id,
            status: "error"@,
            data: None,
            error: Some(reason@),
        }),
        ok_reply::<V>(id, None) == (ResponseView::<V> {
            id,
            status: "ok"@,
            data: None,
            error: None,
        }),
        timestamp_value(Some(timestamp)) == ScalarView::UInt(timestamp),
        timestamp_value(None) == ScalarView::Null,
        update_reply::<V>(id, Some(UpdateOutcome::UpToDate)) == (ResponseView::<V> {
            id,
            status: "ok"@,
            data: Some(PayloadView::Members(seq![("up_to_date"@, ScalarView::Bool(true))])),
            error: None,
        }),
        update_reply::<V>(id, Some(UpdateOutcome::Installed { restart_scheduled })) == (
        ResponseView::<V> {
            id,
            status: "ok"@,
            data: Some(
                PayloadView::Members(
                    seq![
                        ("updated"@, ScalarView::Bool(true)),
                        ("restarting"@, ScalarView::Bool(restart_scheduled)),
                    ],
                ),
            ),
            error: None,
        }),
        update_reply::<V>(id, None) == (ResponseView::<V> {
            id,
            status: "error"@,
            data: None,
            error: Some("Agent update failed"@),
        }),
{
}

/// What is said of a session, a request and a response is what they hold.
pub proof fn views_are_what_is_held<V>(
    session: Session,
    request: AgentRequest,
    response: AgentResponse<V>,
)
    ensures
        session@.authenticated == session.authenticated,
        match session.pending_nonce {
            Some(c) => session@.pending == Some((c.issued_at, c.nonce@)),
            None => session@.pending is None,
        },
        match session.current_pubkey {
            Some(key) => session@.pubkey == Some(key@),
            None => session@.pubkey is None,
        },
        request@.id == request.id@ && request@.command == request.command@ && request@.params
            == request.params@,
        response@.id == response.id@ && response@.status == response.status@,
        match response.error {
            Some(error) => response@.error == Some(error@),
            None => response@.error is None,
        },
        match response.data {
            Some(Payload::Members(members)) => response@.data == Some(
                PayloadView::<V>::Members(members_view(members@)),
            ),
            Some(Payload::Value(value)) => response@.data == Some(PayloadView::Value(value)),
            None => response@.data is None,
        },
        fresh_session().pending is None && fresh_session().pubkey is None
            && !fresh_session().authenticated,
{
}

/// The limits of a connection: thirty-two at a time, five minutes of silence,
/// thirty seconds for a nonce.
pub proof fn connections_are_limited()
    ensures
        MAX_CONNECTIONS == 32,
        READ_IDLE_TIMEOUT == 300,
        AUTH_NONCE_TTL == 30_000_000_000,
{
}

/// What is said of an action and of a nonce is what they hold; a nonce has 32
/// bytes.
pub proof fn views_are_what_is_decided<V>(
    action: Action<V>,
    nonce: Result<[u8; 32], String>,
    bytes: Seq<u8>,
    reason: Seq<char>,
)
    ensures
        match action {
            Action::Reply(response) => action@ == ActionView::Reply(response@),
            Action::Update { id } => action@ == ActionView::<V>::Update(id@),
            Action::Latest { id } => action@ == ActionView::<V>::Latest(id@),
            Action::Info { id } => action@ == ActionView::<V>::Info(id@),
            Action::Range { id, since, until, limit } => action@ == (ActionView::<V>::Range {
                id: id@,
                since,
                until,
                limit,
            }),
            Action::Bulk { id, hours, limit } => action@ == (ActionView::<V>::Bulk {
                id: id@,
                hours,
                limit,
            }),
        },
        match nonce {
            Ok(drawn) => nonce_view(nonce) == Ok::<Seq<u8>, Seq<char>>(drawn@),
            Err(e) => nonce_view(nonce) == Err::<Seq<u8>, Seq<char>>(e@),
        },
        is_nonce(Ok(bytes)) <==> bytes.len() == 32,
        is_nonce(Err(reason)),
{
}

} // verus!
