use ed25519_dalek::{Signer, SigningKey};
use nulnet::config::{AgentConfig, Config, TelemetryConfig, UpdateConfig};
use nulnet::document::{Document, Member, Scalar};
use nulnet::storage::{answer_range, snapshot_file_name, snapshot_timestamp, SnapshotStore};
use nulnet::transport::{
    after_read, bulk_since, handle_auth_request, handle_auth_verify, handle_command, info_response,
    invalid_json_response, issue_challenge, keeps_open, latest_response, range_response,
    read_requested_key, route_request, streaming_response, update_error_line, update_response,
    Action, AgentRequest, AgentResponse, Payload, ReadDecision, ReadEvent, Session, AUTH_NONCE_TTL,
};
use nulnet::update::{step, CommandOutcome, Event, Next, Stage, UpdateOutcome};

const VERSION: &str = "1.3.2";

fn config(keys: Vec<String>) -> Config {
    Config {
        agent: AgentConfig {
            data_dir: "data".to_string(),
            retention_days: 5,
            socket_path: "nulnet.sock".to_string(),
            allowed_keys: keys,
        },
        telemetry: TelemetryConfig { interval_seconds: 30 },
        update: UpdateConfig { cdn: Some("file:///tmp/release".to_string()) },
    }
}

fn keypair() -> SigningKey {
    SigningKey::from_bytes(&[7u8; 32])
}

fn public_key() -> String {
    hex::encode(keypair().verifying_key().as_bytes())
}

fn request(id: &str, command: &str, params: Vec<(&str, Scalar)>) -> AgentRequest {
    AgentRequest {
        id: id.to_string(),
        command: command.to_string(),
        params: Document::Object(
            params
                .into_iter()
                .map(|(key, value)| Member { key: key.to_string(), value })
                .collect(),
        ),
    }
}

fn text(s: &str) -> Scalar {
    Scalar::Str(s.to_string())
}

fn ask(key: &str) -> AgentRequest {
    request("ask", "agent.auth.request", vec![("pubkey", text(key))])
}

fn answer(signature: &str) -> AgentRequest {
    request("answer", "agent.auth.verify", vec![("signature", text(signature))])
}

fn reply(action: Action<Vec<u64>>) -> AgentResponse<Vec<u64>> {
    match action {
        Action::Reply(response) => response,
        _ => panic!("no reply"),
    }
}

fn member<'a>(response: &'a AgentResponse<Vec<u64>>, key: &str) -> Option<&'a Scalar> {
    match &response.data {
        Some(Payload::Members(members)) => {
            members.iter().find(|m| m.key == key).map(|m| &m.value)
        }
        _ => None,
    }
}

fn number(response: &AgentResponse<Vec<u64>>, key: &str) -> Option<u64> {
    match member(response, key) {
        Some(Scalar::UInt(n)) => Some(*n),
        _ => None,
    }
}

fn string(response: &AgentResponse<Vec<u64>>, key: &str) -> Option<String> {
    match member(response, key) {
        Some(Scalar::Str(s)) => Some(s.clone()),
        _ => None,
    }
}

fn error(response: &AgentResponse<Vec<u64>>) -> &str {
    assert_eq!(response.status, "error");
    assert!(response.data.is_none());
    response.error.as_deref().unwrap()
}

/// Asks for a nonce and returns its text.
fn challenge(session: &mut Session, now: u128) -> String {
    let response = handle_auth_request(session, ask(&public_key()), &config(vec![public_key()]), now);
    assert_eq!(response.status, "ok");
    assert_eq!(response.id, "ask");
    string(&response, "nonce").unwrap()
}

fn sign(nonce: &str) -> String {
    hex::encode(keypair().sign(&hex::decode(nonce).unwrap()).to_bytes())
}

#[test]
fn auth_commands_and_update_up_to_date() {
    let config = config(vec![public_key()]);
    let mut session = Session::new();
    let names = [100u64, 200, 150].iter().map(|&t| snapshot_file_name(t)).collect();
    let store = SnapshotStore::new(names);

    // Not authenticated yet.
    let unauth = request("unauth", "telemetry.get_latest", vec![]);
    let res = reply(route_request(&mut session, unauth, &config, VERSION, 0));
    assert_eq!(res.status, "error");
    assert_eq!(res.error.as_deref(), Some("Not authenticated"));

    // Auth request -> receive nonce.
    let res = reply(route_request(&mut session, ask(&public_key()), &config, VERSION, 1));
    assert_eq!(res.status, "ok");
    let nonce = string(&res, "nonce").unwrap();
    assert_eq!(nonce.len(), 64);

    // Auth verify.
    let verify = answer(&sign(&nonce));
    let res = reply(route_request(&mut session, verify, &config, VERSION, 2));
    assert_eq!(res.status, "ok");
    assert!(res.error.is_none());

    // agent.update should stream output and then return up_to_date=true.
    let update = request("update", "agent.update", vec![]);
    let action: Action<Vec<u64>> = route_request(&mut session, update, &config, VERSION, 3);
    let Action::Update { id } = action else { panic!("no update") };
    let outcome = CommandOutcome::Exited {
        success: true,
        status: String::new(),
        stdout: VERSION.to_string(),
        stderr: String::new(),
    };
    let progress = step(&config.update, VERSION, Stage::Version, Event::Ran(outcome));
    for line in progress.lines {
        let res: AgentResponse<Vec<u64>> = streaming_response(&id, line);
        assert_eq!(res.status, "streaming");
    }
    let Next::Over(result) = progress.next else { panic!("not over") };
    let res: AgentResponse<Vec<u64>> = update_response(id, Some(result));
    assert_eq!(res.status, "ok");
    assert!(matches!(member(&res, "up_to_date"), Some(Scalar::Bool(true))));

    // telemetry.get_latest should return the newest snapshot (200).
    let latest = request("latest", "telemetry.get_latest", vec![]);
    let action: Action<Vec<u64>> = route_request(&mut session, latest, &config, VERSION, 4);
    let Action::Latest { id } = action else { panic!("no latest") };
    let newest = store.get_latest().and_then(|i| snapshot_timestamp(&store.names[i])).unwrap();
    let res = latest_response(id, Ok(Some(Ok(vec![newest]))));
    assert_eq!(res.status, "ok");
    assert!(matches!(res.data, Some(Payload::Value(v)) if v == vec![200]));

    // telemetry.get_range should filter by timestamp.
    let range = request(
        "range",
        "telemetry.get_range",
        vec![("since", Scalar::UInt(140)), ("until", Scalar::UInt(210)), ("limit", Scalar::UInt(10))],
    );
    let action: Action<Vec<u64>> = route_request(&mut session, range, &config, VERSION, 5);
    let Action::Range { id, since, until, limit } = action else { panic!("no range") };
    let read: Vec<Option<u64>> = store
        .get_range(since, until)
        .iter()
        .map(|&i| snapshot_timestamp(&store.names[i]))
        .collect();
    let ts: Vec<u64> = answer_range(&read, limit).iter().map(|&k| read[k].unwrap()).collect();
    assert!(ts.contains(&150));
    assert!(ts.contains(&200));
    assert!(!ts.contains(&100));
    assert_eq!(range_response(id, Ok(Ok(ts))).status, "ok");

    // telemetry.get_info returns bounds and config values.
    let info = request("info", "telemetry.get_info", vec![]);
    let action: Action<Vec<u64>> = route_request(&mut session, info, &config, VERSION, 6);
    let Action::Info { id } = action else { panic!("no info") };
    let res: AgentResponse<Vec<u64>> = info_response(id, store.get_bounds(), &config);
    assert_eq!(res.status, "ok");
    assert_eq!(number(&res, "oldest_timestamp"), Some(100));
    assert_eq!(number(&res, "newest_timestamp"), Some(200));
    assert_eq!(number(&res, "snapshot_count"), Some(3));
    assert_eq!(number(&res, "retention_days"), Some(5));
    assert_eq!(number(&res, "interval_seconds"), Some(30));
}

#[test]
fn only_allowed_keys_may_ask() {
    let no_key = |message: &str, params: Vec<(&str, Scalar)>, keys: Vec<String>| {
        let mut session = Session::new();
        let req = request("x", "agent.auth.request", params);
        let res = handle_auth_request(&mut session, req, &config(keys), 0);
        assert_eq!(error(&res), message);
        assert_eq!(res.id, "x");
        assert!(session.pending_nonce.is_none() && session.current_pubkey.is_none());
    };
    let key = public_key();
    no_key("Missing pubkey", vec![], vec![key.clone()]);
    no_key("Missing pubkey", vec![("pubkey", Scalar::UInt(7))], vec![key.clone()]);
    no_key("Public key not allowed", vec![("pubkey", text(&key))], vec![]);
    no_key("Public key not allowed", vec![("pubkey", text(&key))], vec![key.to_uppercase()]);
    no_key("Invalid pubkey hex", vec![("pubkey", text("xyz"))], vec!["xyz".to_string()]);
    no_key("Invalid pubkey hex", vec![("pubkey", text("abc"))], vec!["abc".to_string()]);
    no_key("Public key must be 32 bytes", vec![("pubkey", text("abcd"))], vec!["abcd".to_string()]);
    let no_point = format!("02{}", "0".repeat(62));
    no_key("Invalid pubkey format", vec![("pubkey", text(&no_point))], vec![no_point.clone()]);
}

#[test]
fn a_key_is_read_as_it_is_written() {
    let upper = public_key().to_uppercase();
    let params = Document::Object(vec![Member { key: "pubkey".to_string(), value: text(&upper) }]);
    let key = read_requested_key(&params, &config(vec!["0".to_string(), upper])).unwrap();
    assert_eq!(&key, keypair().verifying_key().as_bytes());
    assert!(read_requested_key(&Document::Other, &config(vec![])).is_err());
}

#[test]
fn nonces_differ() {
    let mut session = Session::new();
    let first = challenge(&mut session, 0);
    let second = challenge(&mut session, 0);
    assert_ne!(first, second);
    assert_eq!(
        hex::decode(&second).unwrap(),
        session.pending_nonce.as_ref().unwrap().nonce.to_vec()
    );
}

#[test]
fn a_nonce_that_cannot_be_drawn_is_an_error() {
    let mut session = Session::new();
    let res = issue_challenge(&mut session, "x".to_string(), [1; 32], Err("dry".to_string()), 0);
    assert_eq!(error(&res), "Failed to generate nonce: dry");
    assert!(session.pending_nonce.is_none());
    let res: AgentResponse<Vec<u64>> =
        issue_challenge(&mut session, "x".to_string(), [1; 32], Ok([0xab; 32]), 9);
    assert_eq!(string(&res, "nonce").unwrap(), "ab".repeat(32));
    assert_eq!(session.pending_nonce.unwrap().issued_at, 9);
    assert_eq!(session.current_pubkey, Some([1; 32]));
    assert!(!session.authenticated);
}

#[test]
fn a_signature_is_checked() {
    let check = |params: Vec<(&str, Scalar)>| {
        let mut session = Session::new();
        challenge(&mut session, 0);
        let req = request("x", "agent.auth.verify", params);
        let res = handle_auth_verify(&mut session, req, 1);
        assert!(!session.authenticated);
        assert!(session.pending_nonce.is_none());
        error(&res).to_string()
    };
    assert_eq!(check(vec![]), "Missing signature");
    assert_eq!(check(vec![("signature", Scalar::Null)]), "Missing signature");
    assert_eq!(check(vec![("signature", text("q"))]), "Invalid signature hex");
    assert_eq!(check(vec![("signature", text("ab"))]), "Signature must be 64 bytes");
    assert_eq!(check(vec![("signature", text(&"ab".repeat(64)))]), "Invalid signature");
    let other = sign(&"00".repeat(32));
    assert_eq!(check(vec![("signature", text(&other))]), "Invalid signature");
}

#[test]
fn another_key_does_not_sign_for_this_one() {
    let mut session = Session::new();
    let nonce = challenge(&mut session, 0);
    let forged = SigningKey::from_bytes(&[8u8; 32]).sign(&hex::decode(nonce).unwrap());
    let res = handle_auth_verify(&mut session, answer(&hex::encode(forged.to_bytes())), 1);
    assert_eq!(error(&res), "Invalid signature");
    assert!(!session.authenticated);
}

#[test]
fn a_nonce_is_good_for_thirty_seconds() {
    let mut session = Session::new();
    let nonce = challenge(&mut session, 5);
    let late = 5 + AUTH_NONCE_TTL + 1;
    let res = handle_auth_verify(&mut session, answer(&sign(&nonce)), late);
    assert_eq!(error(&res), "Authentication challenge expired");
    let nonce = challenge(&mut session, 5);
    let in_time = 5 + AUTH_NONCE_TTL;
    let res: AgentResponse<Vec<u64>> =
        handle_auth_verify(&mut session, answer(&sign(&nonce)), in_time);
    assert_eq!((res.id.as_str(), res.status.as_str()), ("answer", "ok"));
    assert!(res.data.is_none() && res.error.is_none());
    assert!(session.authenticated);
    assert_eq!(AUTH_NONCE_TTL, 30_000_000_000);
}

#[test]
fn a_nonce_is_good_for_one_try() {
    let mut session = Session::new();
    let nonce = challenge(&mut session, 0);
    let signature = sign(&nonce);
    let res = handle_auth_verify(&mut session, answer("ab"), 1);
    assert_eq!(error(&res), "Signature must be 64 bytes");
    let res = handle_auth_verify(&mut session, answer(&signature), 1);
    assert_eq!(error(&res), "No pending authentication request");
    let mut keyless = Session::new();
    challenge(&mut keyless, 0);
    keyless.current_pubkey = None;
    let res = handle_auth_verify(&mut keyless, answer(&signature), 1);
    assert_eq!(error(&res), "No pending authentication request");
    assert!(keyless.pending_nonce.is_none());
}

#[test]
fn a_client_that_is_let_in_stays_let_in() {
    let mut session = Session::new();
    let nonce = challenge(&mut session, 0);
    let _: AgentResponse<Vec<u64>> = handle_auth_verify(&mut session, answer(&sign(&nonce)), 1);
    let config = config(vec![public_key()]);
    let res = reply(route_request(&mut session, answer("ab"), &config, VERSION, 2));
    assert_eq!(error(&res), "No pending authentication request");
    let res = reply(route_request(&mut session, ask("00"), &config, VERSION, 3));
    assert_eq!(error(&res), "Public key not allowed");
    assert!(session.authenticated);
    let version = request("v", "agent.version", vec![("client_name", text("nulctl"))]);
    let res = reply(route_request(&mut session, version, &config, VERSION, 4));
    assert_eq!(string(&res, "version").as_deref(), Some("1.3.2"));
}

#[test]
fn without_a_trusted_key_nobody_is_let_in() {
    let mut session = Session::new();
    let config = config(vec![]);
    for command in [
        "agent.version", "telemetry.get_latest", "telemetry.get_info", "telemetry.get_range",
        "telemetry.get_bulk", "agent.update", "nonsense", "",
    ] {
        let req = request("x", command, vec![]);
        let res = reply(route_request(&mut session, req, &config, VERSION, 0));
        assert_eq!(error(&res), "Not authenticated");
    }
    let res = reply(route_request(&mut session, ask(&public_key()), &config, VERSION, 0));
    assert_eq!(error(&res), "Public key not allowed");
    let res = reply(route_request(&mut session, answer(&"00".repeat(64)), &config, VERSION, 0));
    assert_eq!(error(&res), "No pending authentication request");
    assert!(!session.authenticated);
}

#[test]
fn commands_have_defaults() {
    let act = |command: &str, params: Vec<(&str, Scalar)>| -> Action<Vec<u64>> {
        handle_command(request("x", command, params), VERSION)
    };
    match act("telemetry.get_range", vec![]) {
        Action::Range { id, since, until, limit } => {
            assert_eq!((id.as_str(), since, until, limit), ("x", 0, u64::MAX, None));
        }
        _ => panic!("no range"),
    }
    match act("telemetry.get_bulk", vec![("hours", text("24"))]) {
        Action::Bulk { id, hours, limit } => assert_eq!((id.as_str(), hours, limit), ("x", 1, None)),
        _ => panic!("no bulk"),
    }
    match act("telemetry.get_bulk", vec![("hours", Scalar::UInt(24)), ("limit", Scalar::UInt(500))])
    {
        Action::Bulk { hours, limit, .. } => assert_eq!((hours, limit), (24, Some(500))),
        _ => panic!("no bulk"),
    }
    assert_eq!(error(&reply(act("Agent.version", vec![]))), "Unknown command: Agent.version");
    assert_eq!(error(&reply(act("agent.update", vec![]))), "Unknown command: agent.update");
}

#[test]
fn the_last_hours_begin_in_time() {
    assert_eq!(bulk_since(10_000, 1), 6400);
    assert_eq!(bulk_since(3600, 1), 0);
    assert_eq!(bulk_since(3599, 1), 0);
    assert_eq!(bulk_since(7, 0), 7);
    assert_eq!(bulk_since(u64::MAX, u64::MAX / 3600), u64::MAX % 3600);
    assert_eq!(bulk_since(u64::MAX, u64::MAX / 3600 + 1), 0);
    assert_eq!(bulk_since(u64::MAX, u64::MAX), 0);
}

#[test]
fn the_last_hours_are_a_range() {
    let now = 1_747_561_234u64;
    let times = [now - 3601, now - 3600, now - 1, now, now + 1];
    let store = SnapshotStore::new(times.iter().map(|&t| snapshot_file_name(t)).collect());
    assert_eq!(store.get_range(bulk_since(now, 1), now), vec![1, 2, 3]);
}

#[test]
fn requests_are_answered_under_their_id() {
    let config = config(vec![public_key()]);
    for authenticated in [false, true] {
        for (i, command) in [
            "agent.auth.request", "agent.auth.verify", "agent.version", "agent.update",
            "telemetry.get_latest", "telemetry.get_range", "telemetry.get_info",
            "telemetry.get_bulk", "nonsense",
        ]
        .iter()
        .enumerate()
        {
            let mut session = Session::new();
            session.authenticated = authenticated;
            let name = format!("id-{}", i);
            let req = request(&name, command, vec![]);
            let id = match route_request::<Vec<u64>>(&mut session, req, &config, VERSION, 0) {
                Action::Reply(response) => {
                    assert_eq!(response.error.is_some(), response.status == "error");
                    assert!(response.error.is_none() || response.data.is_none());
                    response.id
                }
                Action::Update { id } => id,
                Action::Latest { id } => id,
                Action::Range { id, .. } => id,
                Action::Info { id } => id,
                Action::Bulk { id, .. } => id,
            };
            assert_eq!(id, name);
        }
    }
}

#[test]
fn blank_lines_are_passed_over() {
    assert!(matches!(after_read(ReadEvent::TimedOut), ReadDecision::Close));
    assert!(matches!(after_read(ReadEvent::Failed), ReadDecision::Close));
    assert!(matches!(after_read(ReadEvent::Closed), ReadDecision::Close));
    assert!(matches!(after_read(ReadEvent::Line(" \r\n".to_string())), ReadDecision::Skip));
    match after_read(ReadEvent::Line(" {}\n".to_string())) {
        ReadDecision::Parse(line) => assert_eq!(line, " {}\n"),
        _ => panic!("not read"),
    }
}

#[test]
fn a_line_that_is_no_request_is_answered() {
    let res: AgentResponse<Vec<u64>> = invalid_json_response("expected value");
    assert_eq!(res.id, "");
    assert_eq!(error(&res), "Invalid JSON: expected value");
    assert!(keeps_open(false, false));
    assert!(keeps_open(false, true));
    assert!(keeps_open(true, true));
    assert!(!keeps_open(true, false));
}

#[test]
fn snapshots_are_answered_with() {
    let id = || "x".to_string();
    let res: AgentResponse<Vec<u64>> = latest_response(id(), Ok(None));
    assert_eq!(res.status, "ok");
    assert!(res.data.is_none() && res.error.is_none());
    let res = latest_response(id(), Err("Failed to read snapshot: gone".to_string()));
    assert_eq!(error(&res), "Failed to read snapshot: gone");
    let res = latest_response(id(), Ok(Some(Err("odd".to_string()))));
    assert_eq!(error(&res), "Serialization error: odd");
    let res = range_response(id(), Ok(Err("odd".to_string())));
    assert_eq!(error(&res), "Serialization error: odd");
    let res = range_response(id(), Err("no".to_string()));
    assert_eq!(error(&res), "no");
    let empty = SnapshotStore::new(vec![]).get_bounds();
    let res: AgentResponse<Vec<u64>> = info_response(id(), empty, &config(vec![]));
    assert!(matches!(member(&res, "oldest_timestamp"), Some(Scalar::Null)));
    assert!(matches!(member(&res, "newest_timestamp"), Some(Scalar::Null)));
    assert_eq!(number(&res, "snapshot_count"), Some(0));
}

#[test]
fn updates_are_answered() {
    let id = || "x".to_string();
    let res: AgentResponse<Vec<u64>> = streaming_response("x", "line".to_string());
    assert_eq!((res.id.as_str(), res.status.as_str()), ("x", "streaming"));
    assert_eq!(string(&res, "output").as_deref(), Some("line"));
    assert_eq!(update_error_line(&Err("why".to_string())).as_deref(), Some("ERROR: why"));
    assert_eq!(update_error_line(&Ok(UpdateOutcome::UpToDate)), None);
    let done = UpdateOutcome::Installed { restart_scheduled: false };
    let res: AgentResponse<Vec<u64>> = update_response(id(), Some(Ok(done)));
    assert!(matches!(member(&res, "updated"), Some(Scalar::Bool(true))));
    assert!(matches!(member(&res, "restarting"), Some(Scalar::Bool(false))));
    for ended in [None, Some(Err("why".to_string()))] {
        let res: AgentResponse<Vec<u64>> = update_response(id(), ended);
        assert_eq!(error(&res), "Agent update failed");
    }
}

#[test]
fn the_first_of_two_members_counts() {
    let document = Document::Object(vec![
        Member { key: "a".to_string(), value: Scalar::UInt(1) },
        Member { key: "a".to_string(), value: text("b") },
        Member { key: "c".to_string(), value: Scalar::Other },
    ]);
    assert_eq!(document.get_u64("a"), Some(1));
    assert_eq!(document.get_str("a"), None);
    assert!(document.get("c").is_some());
    assert!(document.get("d").is_none());
    assert!(Document::Other.get("a").is_none());
}
