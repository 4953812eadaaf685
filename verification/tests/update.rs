use nulnet::config::UpdateConfig;
use nulnet::update::{
    begin, command_for, dim, download_args, fetch_args, fetched_text, green, install_path,
    latest_version, parse_github_tag, red, semver_is_newer, sha256_matches, step, tag_in_response,
    tmp_path, urls_for_config, yellow, CommandOutcome, Event, Next, Progress, Stage, UpdateOutcome,
};
use sha2::{Digest, Sha256};

fn ran(stdout: &str) -> CommandOutcome {
    CommandOutcome::Exited {
        success: true,
        status: "exit status: 0".to_string(),
        stdout: stdout.to_string(),
        stderr: "noise".to_string(),
    }
}

fn failed(stderr: &str) -> CommandOutcome {
    CommandOutcome::Exited {
        success: false,
        status: "exit status: 22".to_string(),
        stdout: "noise".to_string(),
        stderr: stderr.to_string(),
    }
}

fn not_run() -> CommandOutcome {
    CommandOutcome::NotRun("no such file".to_string())
}

fn cdn() -> UpdateConfig {
    UpdateConfig { cdn: Some("https://cdn.example.com/nulnet".to_string()) }
}

fn latest() -> String {
    "1.4.0".to_string()
}

fn digest() -> String {
    hex::encode(Sha256::digest(b"nulnet-binary"))
}

fn content() -> Event {
    Event::Content(Ok(b"nulnet-binary".to_vec()))
}

fn error_of(progress: &Progress) -> &str {
    match &progress.next {
        Next::Over(Err(e)) => e,
        _ => panic!("no error"),
    }
}

fn outcome_of(progress: &Progress) -> UpdateOutcome {
    match &progress.next {
        Next::Over(Ok(outcome)) => *outcome,
        _ => panic!("no outcome"),
    }
}

fn go(stage: Stage, event: Event) -> Progress {
    step(&cdn(), "1.3.2", stage, event)
}

#[test]
fn semver_is_newer_compares_patch() {
    assert!(semver_is_newer("1.3.0", "1.2.0"));
    assert!(!semver_is_newer("1.2.0", "1.3.0"));
}

#[test]
fn semver_is_newer_strips_v_prefix() {
    assert!(semver_is_newer("v2.0.0", "1.9.9"));
}

#[test]
fn semver_is_newer_equal_returns_false() {
    assert!(!semver_is_newer("1.3.2", "1.3.2"));
}

#[test]
fn semver_is_newer_handles_v_tagged_equal() {
    assert!(!semver_is_newer("v1.3.2", "1.3.2"));
}

#[test]
fn semver_parts_are_numbers() {
    assert!(semver_is_newer("1.10.0", "1.9.9"));
    assert!(semver_is_newer("1.3.3", "1.3.2"));
    assert!(semver_is_newer("2", "1.9.9"));
    assert!(semver_is_newer(" vv1.4\n", "1.3.9"));
    assert!(!semver_is_newer("1.3.x", "1.3.0"));
    assert!(!semver_is_newer("", "0.0.0"));
    assert!(!semver_is_newer("1.3.2.9", "1.3.2"));
    assert!(!semver_is_newer("1.3.2.9", "1.3.0"));
    assert!(semver_is_newer("1.99999999999999999999.0", "1.18446744073709551615.0"));
    assert!(!semver_is_newer("01.3.2", "1.3.2"));
}

#[test]
fn a_release_is_newer_than_its_prereleases() {
    assert!(semver_is_newer("1.4.0", "1.4.0-rc.1"));
    assert!(!semver_is_newer("1.4.0-rc.1", "1.4.0"));
    assert!(semver_is_newer("1.3.2", "1.3.2-rc1"));
    assert!(!semver_is_newer("1.3.2-rc1", "1.3.2"));
    assert!(semver_is_newer("1.4.1-rc.1", "1.4.0"));
    assert!(semver_is_newer("v1.4.0-rc.2", "1.4.0-rc.1"));
    assert!(semver_is_newer("1.4", "1.4.0-rc.1"));
    assert!(semver_is_newer("1.4.0", "1.4-rc.1"));
    assert!(!semver_is_newer("1.4.0-", "1.4.0"));
    assert!(!semver_is_newer("1.4.0", "1.4.0-"));
}

#[test]
fn build_metadata_does_not_count() {
    assert!(!semver_is_newer("1.4.2+b", "1.4.2"));
    assert!(!semver_is_newer("1.4.2", "1.4.2+b"));
    assert!(!semver_is_newer("1.4.2+b", "1.4.2+a-1"));
    assert!(semver_is_newer("1.4.2+b", "1.4.1"));
    assert!(semver_is_newer("1.4.2+b-1", "1.4.2-rc.1+z"));
}

/// The numbers of a text that is no version by semver.
fn loose(text: &str) -> (u64, u64, u64) {
    let text = text.trim().trim_start_matches('v');
    let mut parts = text.splitn(3, '.');
    let mut number = |dash: bool| {
        parts
            .next()
            .and_then(|p| if dash { p.split('-').next() } else { Some(p) })
            .and_then(|p| p.parse().ok())
            .unwrap_or(0)
    };
    (number(false), number(false), number(true))
}

#[test]
fn other_texts_are_read_for_their_numbers() {
    assert!(semver_is_newer("+1.2.3", "1.2.2"));
    assert!(!semver_is_newer("1-2.3.4", "0.5.0"));
    let texts = [
        "", "+", "v", "-", ".", "1", "+1", "1.", ".1", "+1.2.3", "1.+2.3", "1.2.+3", "1-2.3.4",
        "1+2.3.4", "1.2.3.4", "1.2.x", "1.2.3-", "1.2.3+", "1.2.3-a..b", "1.2.3-01", "1.2.3-a_b",
        "1.2.3+a_b", "1.2.3+a+b", "01.2.3-rc", "1.02.3", "1.2.3 -rc", "1.2.3-rc 1", "1.2.-3",
        "1..3", "a.b.c", "99999999999999999999", "1.2.3-é", " v1.2.3-\t", "1.2.3-.", "v 1.2.3",
    ];
    let versions = ["0.0.0", "0.5.0", "1.0.0", "1.2.0", "1.2.2", "1.2.3", "v1.2.3", "1.3", "2.0.0"];
    for a in texts {
        for b in texts.iter().chain(versions.iter()) {
            assert_eq!(semver_is_newer(a, b), loose(a) > loose(b), "{:?} {:?}", a, b);
            assert_eq!(semver_is_newer(b, a), loose(b) > loose(a), "{:?} {:?}", b, a);
        }
        for b in ["1.2.3-rc.1", "1.2.3-rc.1+b", "1.2.0-0"] {
            assert_eq!(semver_is_newer(a, b), loose(a) > loose(b), "{:?} {:?}", a, b);
            assert_eq!(semver_is_newer(b, a), loose(b) > loose(a), "{:?} {:?}", b, a);
        }
    }
}

#[test]
fn identifiers_are_numbers_or_text() {
    let same = [("1.0.0-1", "1.0.0-01"), ("1.0.0-0", "1.0.0-00")];
    for (a, b) in same {
        assert!(!semver_is_newer(a, b) && !semver_is_newer(b, a));
    }
    assert!(semver_is_newer("1.0.0-100000000000000000000000", "1.0.0-99999999999999999999999"));
    assert!(semver_is_newer("1.0.0-20", "1.0.0-3"));
    assert!(semver_is_newer("1.0.0-a-b", "1.0.0-a"));
}

#[test]
fn newer_is_a_strict_order() {
    let versions = [
        "0.9.9",
        "1.0.0-0",
        "1.0.0-2",
        "1.0.0-11",
        "1.0.0-Alpha",
        "1.0.0-alpha",
        "1.0.0-alpha.1",
        "1.0.0-alpha.beta",
        "1.0.0-beta",
        "1.0.0-beta.2",
        "1.0.0-beta.11",
        "1.0.0-rc.1",
        "1.0.0",
        "1.0.1",
        "1.1.0",
        "2.0.0",
    ];
    for (i, a) in versions.iter().enumerate() {
        for (j, b) in versions.iter().enumerate() {
            assert_eq!(semver_is_newer(a, b), i > j);
        }
    }
}

#[test]
fn parse_github_tag_reads_tag_name() {
    let body = r#"{"tag_name":"v1.4.0","name":"1.4.0"}"#;
    assert_eq!(parse_github_tag(body).unwrap(), "v1.4.0");
}

#[test]
fn parse_github_tag_rejects_missing_field() {
    assert!(parse_github_tag(r#"{"name":"1.4.0"}"#).is_err());
}

#[test]
fn parse_github_tag_says_what_is_wrong() {
    assert_eq!(parse_github_tag(r#"{"tag_name":"  v1 "}"#).unwrap(), "v1");
    let missing = "GitHub API response missing tag_name";
    assert_eq!(parse_github_tag(r#"{"tag_name":7}"#).unwrap_err(), missing);
    assert_eq!(parse_github_tag(r#"{"tag_name":{"a":"b"}}"#).unwrap_err(), missing);
    assert_eq!(parse_github_tag("[1]").unwrap_err(), missing);
    let reason = serde_json::from_str::<serde_json::Value>("{").unwrap_err().to_string();
    let message = format!("invalid GitHub API response: {}", reason);
    assert_eq!(parse_github_tag("{").unwrap_err(), message);
    assert_eq!(tag_in_response(Err(reason)).unwrap_err(), message);
}

#[test]
fn sha256_matches_accepts_valid_digest() {
    let data = b"nulnet-binary";
    let digest = hex::encode(Sha256::digest(data));
    assert!(sha256_matches(data, &digest));
    assert!(!sha256_matches(data, "0".repeat(64).as_str()));
}

#[test]
fn sha256_matches_takes_small_digits_only() {
    let empty = "e3b0c44298fc1c149afbf4c8996fb92427ae41e4649b934ca495991b7852b855";
    assert!(sha256_matches(b"", empty));
    assert!(!sha256_matches(b"", &empty.to_uppercase()));
    assert!(!sha256_matches(b"", &empty[1..]));
    assert!(!sha256_matches(b"", ""));
}

#[test]
fn updates_come_from_the_cdn_if_there_is_one() {
    let urls = urls_for_config(&cdn(), "riscv64").ok().unwrap();
    assert_eq!(urls.version_check_url, "https://cdn.example.com/nulnet/version.txt");
    assert_eq!(urls.binary_url, "https://cdn.example.com/nulnet/nulnet");
    assert_eq!(urls.checksum_url, "https://cdn.example.com/nulnet/nulnet.sha256");
    assert_eq!(urls.source_label, "CDN");
    let urls = urls_for_config(&UpdateConfig { cdn: None }, "aarch64").ok().unwrap();
    let base = "https://github.com/nulnet/nulnet/releases/latest/download";
    assert_eq!(
        urls.version_check_url,
        "https://api.github.com/repos/nulnet/nulnet/releases/latest"
    );
    assert_eq!(urls.binary_url, format!("{}/nulnet-aarch64", base));
    assert_eq!(urls.checksum_url, format!("{}/nulnet-aarch64.sha256", base));
    assert_eq!(urls.source_label, "GitHub");
    let e = urls_for_config(&UpdateConfig { cdn: None }, "mips").err().unwrap();
    assert_eq!(e, "unsupported CPU architecture for prebuilt binaries: mips");
}

#[test]
fn text_is_styled() {
    assert_eq!(dim("a"), "[dim]a[/dim]");
    assert_eq!(green("a"), "[green]a[/green]");
    assert_eq!(yellow("a"), "[yellow]a[/yellow]");
    assert_eq!(red("a"), "[red]a[/red]");
}

#[test]
fn curl_is_run_with_its_arguments() {
    assert_eq!(
        fetch_args("u", "1.3.2"),
        vec!["-fsSL", "--connect-timeout", "10", "--max-time", "30", "-A", "nulnet/1.3.2", "u"]
    );
    assert_eq!(
        download_args("u", "1.3.2"),
        vec![
            "-fSL",
            "--connect-timeout",
            "10",
            "--max-time",
            "120",
            "-A",
            "nulnet/1.3.2",
            "-o",
            "/tmp/nulnet",
            "u",
        ]
    );
    assert_eq!(tmp_path(), "/tmp/nulnet");
    assert_eq!(install_path(), "/opt/nulnet/bin/nulnet");
}

#[test]
fn each_stage_has_its_command() {
    let urls = urls_for_config(&cdn(), "x86_64").ok().unwrap();
    let command = |stage: Stage| command_for(&stage, &urls, "1.3.2");
    let base = "https://cdn.example.com/nulnet";
    let curl = |args: Vec<String>| Some(("curl".to_string(), args));
    let other = |program: &str, args: &[&str]| {
        Some((program.to_string(), args.iter().map(|a| a.to_string()).collect::<Vec<String>>()))
    };
    let (version, binary) = (format!("{}/version.txt", base), format!("{}/nulnet", base));
    let checksum = format!("{}/nulnet.sha256", base);
    assert_eq!(command(Stage::Version), curl(fetch_args(&version, "1.3.2")));
    assert_eq!(
        command(Stage::Download { latest: latest() }),
        curl(download_args(&binary, "1.3.2"))
    );
    assert_eq!(
        command(Stage::Checksum { latest: latest() }),
        curl(fetch_args(&checksum, "1.3.2"))
    );
    assert_eq!(command(Stage::Digest { latest: latest(), expected: digest() }), None);
    assert_eq!(
        command(Stage::Executable { latest: latest() }),
        other("chmod", &["+x", "/tmp/nulnet"])
    );
    assert_eq!(
        command(Stage::Directory { latest: latest() }),
        other("mkdir", &["-p", "/opt/nulnet/bin"])
    );
    assert_eq!(
        command(Stage::Install { latest: latest() }),
        other("mv", &["-f", "/tmp/nulnet", "/opt/nulnet/bin/nulnet"])
    );
    assert_eq!(
        command(Stage::Restart),
        other("setsid", &["sh", "-c", "sleep 3 && sudo systemctl restart nulnet"])
    );
}

#[test]
fn fetched_text_is_trimmed() {
    assert_eq!(fetched_text(ran(" 1.4.0\n")).unwrap(), "1.4.0");
    assert_eq!(
        fetched_text(failed(" not found \n")).unwrap_err(),
        "curl exited exit status: 22: not found"
    );
    assert_eq!(fetched_text(not_run()).unwrap_err(), "curl error: no such file");
}

#[test]
fn the_version_is_read_from_its_source() {
    let body = r#"{"tag_name":"v9"}"#.to_string();
    assert_eq!(latest_version(&cdn(), Ok(body.clone())).unwrap(), body);
    assert_eq!(latest_version(&UpdateConfig { cdn: None }, Ok(body)).unwrap(), "v9");
    let github = UpdateConfig { cdn: None };
    assert_eq!(latest_version(&github, Err("x".to_string())).unwrap_err(), "x");
}

#[test]
fn an_update_begins_with_a_question() {
    let progress = begin(&urls_for_config(&cdn(), "x86_64"));
    assert_eq!(progress.lines, vec!["[dim]Checking for updates...[/dim]"]);
    assert!(matches!(progress.next, Next::Await(Stage::Version)));
    let progress = begin(&Err("no".to_string()));
    assert!(progress.lines.is_empty());
    assert_eq!(error_of(&progress), "no");
}

#[test]
fn an_update_ends_when_there_is_nothing_newer() {
    let progress = go(Stage::Version, Event::Ran(ran("v1.3.2\n")));
    assert_eq!(outcome_of(&progress), UpdateOutcome::UpToDate);
    assert_eq!(
        progress.lines,
        vec!["  [dim]version[/dim] 1.3.2  [green]up to date[/green]"]
    );
    let progress = go(Stage::Version, Event::Ran(ran(" \n")));
    assert_eq!(outcome_of(&progress), UpdateOutcome::UpToDate);
    assert_eq!(progress.lines, vec!["[red]CDN version info is empty.[/red]"]);
}

#[test]
fn an_update_fails_when_its_source_is_silent() {
    let progress = go(Stage::Version, Event::Ran(not_run()));
    assert_eq!(error_of(&progress), "CDN fetch failed: curl error: no such file");
    assert_eq!(
        progress.lines,
        vec!["[red]CDN unreachable: curl error: no such file[/red]"]
    );
    let github = UpdateConfig { cdn: None };
    let progress = step(&github, "1.3.2", Stage::Version, Event::Ran(ran("{}")));
    assert_eq!(
        error_of(&progress),
        "GitHub fetch failed: GitHub API response missing tag_name"
    );
}

#[test]
fn a_newer_version_is_downloaded() {
    let progress = go(Stage::Version, Event::Ran(ran("1.4.0")));
    assert_eq!(
        progress.lines,
        vec![
            "  [dim]current[/dim]  1.3.2  [dim]→[/dim]  1.4.0",
            "",
            "[dim]  Downloading...[/dim]",
        ]
    );
    match progress.next {
        Next::Await(Stage::Download { latest }) => assert_eq!(latest, "1.4.0"),
        _ => panic!("does not download"),
    }
    let progress = go(Stage::Download { latest: latest() }, Event::Ran(ran("")));
    assert!(progress.lines.is_empty());
    assert!(matches!(progress.next, Next::Await(Stage::Checksum { .. })));
    let progress = go(Stage::Download { latest: latest() }, Event::Ran(failed(" 404 ")));
    assert_eq!(error_of(&progress), "Download failed: 404");
    assert_eq!(progress.lines, vec!["[red]Download failed: 404[/red]"]);
    assert!(!progress.remove_download);
    let progress = go(Stage::Download { latest: latest() }, Event::Ran(not_run()));
    assert_eq!(error_of(&progress), "Failed to run curl: no such file");
    assert!(progress.lines.is_empty());
}

#[test]
fn a_download_is_checked_if_there_is_a_digest() {
    let stage = || Stage::Checksum { latest: latest() };
    match go(stage(), Event::Ran(ran(&format!("{}\n", digest())))).next {
        Next::Await(Stage::Digest { latest, expected }) => {
            assert_eq!(latest, "1.4.0");
            assert_eq!(expected, digest());
        }
        _ => panic!("does not check"),
    }
    let progress = go(stage(), Event::Ran(ran(&digest()[1..])));
    assert_eq!(
        progress.lines,
        vec!["[yellow]  Checksum malformed, skipping verification[/yellow]"]
    );
    assert!(matches!(progress.next, Next::Await(Stage::Executable { .. })));
    let progress = go(stage(), Event::Ran(failed("404")));
    assert_eq!(progress.lines, vec!["[dim]  Checksum unavailable, skipping[/dim]"]);
    assert!(matches!(progress.next, Next::Await(Stage::Executable { .. })));
    let bytes = "é".repeat(32);
    assert!(matches!(go(stage(), Event::Ran(ran(&bytes))).next, Next::Await(Stage::Digest { .. })));
}

#[test]
fn a_mismatch_ends_the_update() {
    let stage = |expected: String| Stage::Digest { latest: latest(), expected };
    let progress = go(stage(digest()), content());
    assert_eq!(progress.lines, vec!["[dim]  Checksum verified[/dim]"]);
    assert!(matches!(progress.next, Next::Await(Stage::Executable { .. })));
    let progress = go(stage("0".repeat(64)), content());
    assert!(progress.remove_download);
    assert_eq!(error_of(&progress), "Checksum mismatch — aborting.");
    assert_eq!(progress.lines, vec!["[red]Checksum mismatch — aborting.[/red]"]);
    let progress = go(stage(digest()), Event::Content(Err("gone".to_string())));
    assert_eq!(error_of(&progress), "Failed to read downloaded binary: gone");
    assert!(progress.lines.is_empty());
    assert!(!progress.remove_download);
}

#[test]
fn a_command_that_fails_ends_the_update() {
    let cases = [
        (
            Stage::Executable { latest: latest() },
            "chmod failed: e",
            Stage::Executable { latest: latest() },
            "chmod +x /tmp/nulnet failed",
        ),
        (
            Stage::Directory { latest: latest() },
            "mkdir -p failed: e",
            Stage::Directory { latest: latest() },
            "Could not create /opt/nulnet/bin",
        ),
        (
            Stage::Install { latest: latest() },
            "mv failed: e",
            Stage::Install { latest: latest() },
            "Install failed: mv /tmp/nulnet → /opt/nulnet/bin/nulnet failed",
        ),
    ];
    for (a, not_run, b, failed) in cases {
        let progress = go(a, Event::Done(Err("e".to_string())));
        assert_eq!(error_of(&progress), not_run);
        assert!(progress.lines.is_empty());
        assert!(!progress.remove_download);
        let progress = go(b, Event::Done(Ok(false)));
        assert_eq!(error_of(&progress), failed);
        assert_eq!(progress.lines, vec![red(failed)]);
        assert!(progress.remove_download);
    }
}

/// Runs an update on which everything goes well.
fn good_update(checksum: CommandOutcome, restart: Result<bool, String>) -> (Vec<String>, usize, UpdateOutcome) {
    let mut checksum = Some(checksum);
    let mut progress = begin(&urls_for_config(&cdn(), "x86_64"));
    let mut lines = Vec::new();
    let mut steps = 0;
    loop {
        lines.append(&mut progress.lines);
        assert!(!progress.remove_download);
        let stage = match progress.next {
            Next::Await(stage) => stage,
            Next::Over(outcome) => return (lines, steps, outcome.unwrap()),
        };
        let event = match stage {
            Stage::Version => Event::Ran(ran("v1.4.0")),
            Stage::Download { .. } => Event::Ran(ran("")),
            Stage::Checksum { .. } => Event::Ran(checksum.take().unwrap()),
            Stage::Digest { .. } => content(),
            Stage::Restart => Event::Done(restart.clone()),
            _ => Event::Done(Ok(true)),
        };
        progress = go(stage, event);
        steps += 1;
    }
}

#[test]
fn a_good_update_installs_and_restarts() {
    let (lines, steps, outcome) = good_update(ran(&digest()), Ok(true));
    assert_eq!(outcome, UpdateOutcome::Installed { restart_scheduled: true });
    assert_eq!(steps, 8);
    assert_eq!(
        lines,
        vec![
            "[dim]Checking for updates...[/dim]",
            "  [dim]current[/dim]  1.3.2  [dim]→[/dim]  v1.4.0",
            "",
            "[dim]  Downloading...[/dim]",
            "[dim]  Checksum verified[/dim]",
            "  [dim]Installed[/dim] v1.4.0",
            "",
            "[dim]  Restarting in 3 s — connection will close.[/dim]",
        ]
    );
}

#[test]
fn an_update_goes_on_without_a_digest() {
    for checksum in [ran("short"), failed("404"), not_run()] {
        let (_, steps, outcome) = good_update(checksum, Err("e".to_string()));
        assert_eq!(outcome, UpdateOutcome::Installed { restart_scheduled: false });
        assert_eq!(steps, 7);
    }
}

#[test]
fn a_restart_may_have_to_be_done_by_hand() {
    let progress = go(Stage::Restart, Event::Done(Err("e".to_string())));
    assert_eq!(outcome_of(&progress), UpdateOutcome::Installed { restart_scheduled: false });
    assert_eq!(
        progress.lines,
        vec![
            "[red]Could not schedule restart: e  Run: sudo systemctl restart nulnet[/red]"
        ]
    );
}
